//! Facts about the connected region of the top-left cell.

use crate::board::{adjacent, Board, Cell};
use crate::count::{lemma_rows_bound, lemma_rows_monotone, lemma_rows_strict, within};
use vstd::prelude::*;

verus! {

/// The top-left cell belongs to its own region.
pub proof fn lemma_origin_in_region(b: Board)
    requires
        b.width > 0,
        b.height > 0,
    ensures
        b.in_region((0, 0)),
{
    let path: Seq<Cell> = seq![(0int, 0int)];
    assert(b.links(path));
    assert(path.last() == (0int, 0int));
}

/// A cell of the region lies on the grid and has the top-left color.
pub proof fn lemma_region_cell(b: Board, cell: Cell)
    requires
        b.in_region(cell),
    ensures
        b.has(cell),
        b.color(cell) == b.origin_color(),
{
    let path = choose|path: Seq<Cell>| #[trigger] b.links(path) && path.last() == cell;
    assert(b.has(path[path.len() - 1]));
}

/// A cell of the top-left color next to a cell of the region belongs to the
/// region too.
pub proof fn lemma_region_step(b: Board, from: Cell, to: Cell)
    requires
        b.in_region(from),
        adjacent(from, to),
        b.has(to),
        b.color(to) == b.origin_color(),
    ensures
        b.in_region(to),
{
    let path = choose|path: Seq<Cell>| #[trigger] b.links(path) && path.last() == from;
    let longer = path.push(to);
    assert forall|i: int| 0 <= i < longer.len() implies b.has(#[trigger] longer[i]) && b.color(
        longer[i],
    ) == b.origin_color() by {
        if i < path.len() {
            assert(longer[i] == path[i]);
        }
    }
    assert forall|i: int| 0 < i < longer.len() implies adjacent(
        longer[i - 1],
        #[trigger] longer[i],
    ) by {
        if i < path.len() {
            assert(longer[i] == path[i]);
            assert(longer[i - 1] == path[i - 1]);
        } else {
            assert(longer[i - 1] == path[path.len() - 1]);
        }
    }
    assert(longer[0] == path[0]);
    assert(b.links(longer));
    assert(longer.last() == to);
}

/// `marks` holds the top-left cell and, with a cell, every neighbor of it
/// that has the top-left color.
pub open spec fn spreads(b: Board, marks: spec_fn(Cell) -> bool) -> bool {
    &&& marks((0int, 0int))
    &&& forall|p: Cell, q: Cell|
        #![trigger marks(p), adjacent(p, q)]
        marks(p) && adjacent(p, q) && b.has(q) && b.color(q) == b.origin_color() ==> marks(q)
}

proof fn lemma_path_marked(b: Board, marks: spec_fn(Cell) -> bool, path: Seq<Cell>, i: int)
    requires
        spreads(b, marks),
        b.links(path),
        0 <= i < path.len(),
    ensures
        marks(path[i]),
    decreases i,
{
    if i > 0 {
        lemma_path_marked(b, marks, path, i - 1);
        assert(adjacent(path[i - 1], path[i]));
        assert(b.has(path[i]));
    }
}

/// The region is the least set of cells that holds the top-left cell and
/// spreads along edges between cells of the top-left color.
pub proof fn lemma_region_least(b: Board, marks: spec_fn(Cell) -> bool)
    requires
        spreads(b, marks),
    ensures
        forall|cell: Cell| #[trigger] b.in_region(cell) ==> marks(cell),
{
    assert forall|cell: Cell| #[trigger] b.in_region(cell) implies marks(cell) by {
        let path = choose|path: Seq<Cell>| #[trigger] b.links(path) && path.last() == cell;
        lemma_path_marked(b, marks, path, path.len() - 1);
    }
}

/// Recoloring the region to the color it already has changes nothing.
pub proof fn lemma_flood_same_color(b: Board)
    requires
        b.shaped(),
    ensures
        b.flood(b.origin_color()) == b,
{
    let f = b.flood(b.origin_color());
    assert forall|r: int| 0 <= r < b.height implies #[trigger] f.rows[r] == b.rows[r] by {
        assert forall|c: int| 0 <= c < b.width implies f.rows[r][c] == b.rows[r][c] by {
            if b.in_region((r, c)) {
                lemma_region_cell(b, (r, c));
            }
        }
        assert(f.rows[r] =~= b.rows[r]);
    }
    assert(f.rows =~= b.rows);
}

/// Recoloring the region keeps the shape of the grid, and keeps its colors
/// in range when the new color is.
pub proof fn lemma_flood_wf(b: Board, target: u8)
    requires
        b.wf(),
        target < b.color_count,
    ensures
        b.flood(target).wf(),
{
    let f = b.flood(target);
    assert forall|r: int, c: int| 0 <= r < f.height && 0 <= c < f.width implies (
    #[trigger] f.rows[r][c]) < f.color_count by {
        assert(b.rows[r][c] < b.color_count);
    }
}

/// After a fill the top-left cell has the new color.
pub proof fn lemma_flood_origin(b: Board, target: u8)
    requires
        b.wf(),
    ensures
        b.flood(target).origin_color() == target,
{
    lemma_origin_in_region(b);
}

/// A cell outside the region keeps its color in a fill.
pub proof fn lemma_flood_outside(b: Board, target: u8, cell: Cell)
    requires
        b.has(cell),
        !b.in_region(cell),
    ensures
        b.flood(target).color(cell) == b.color(cell),
{
}

proof fn lemma_path_prefix(b: Board, path: Seq<Cell>, i: int)
    requires
        b.links(path),
        0 <= i < path.len(),
    ensures
        b.in_region(path[i]),
{
    let prefix = path.take(i + 1);
    assert(b.links(prefix));
    assert(prefix.last() == path[i]);
}

/// A cell of the region is still in the region after a fill.
pub proof fn lemma_flood_keeps_region(b: Board, target: u8, cell: Cell)
    requires
        b.wf(),
        b.in_region(cell),
    ensures
        b.flood(target).in_region(cell),
{
    let f = b.flood(target);
    let path = choose|path: Seq<Cell>| #[trigger] b.links(path) && path.last() == cell;
    lemma_flood_origin(b, target);
    assert forall|i: int| 0 <= i < path.len() implies f.has(#[trigger] path[i]) && f.color(path[i])
        == f.origin_color() by {
        lemma_path_prefix(b, path, i);
        assert(b.has(path[i]));
    }
    assert(f.links(path));
}

/// A fill never takes a cell out of the region.
pub proof fn lemma_flood_region_grows(b: Board, target: u8)
    requires
        b.wf(),
    ensures
        within(b.region(), b.flood(target).region(), b.width as int, b.height as int),
        b.region_size() <= b.flood(target).region_size(),
{
    let f = b.flood(target);
    assert forall|cell: Cell|
        0 <= cell.0 < b.height && 0 <= cell.1 < b.width && #[trigger] b.region()(
            cell,
        ) implies f.region()(cell) by {
        lemma_flood_keeps_region(b, target, cell);
    }
    lemma_rows_monotone(
        b.region(),
        f.region(),
        b.width as int,
        b.height as int,
        b.height as int,
    );
}

/// A fill either makes the region larger or leaves it as it was.
pub proof fn lemma_flood_grows_or_stays(b: Board, target: u8)
    requires
        b.wf(),
    ensures
        b.flood(target).region_size() > b.region_size() || forall|cell: Cell|
            #[trigger] b.flood(target).in_region(cell) ==> b.in_region(cell),
{
    let f = b.flood(target);
    lemma_flood_region_grows(b, target);
    if exists|cell: Cell| #[trigger] f.in_region(cell) && !b.in_region(cell) {
        let cell = choose|cell: Cell| #[trigger] f.in_region(cell) && !b.in_region(cell);
        lemma_region_cell(f, cell);
        lemma_rows_strict(
            b.region(),
            f.region(),
            b.width as int,
            b.height as int,
            b.height as int,
            cell,
        );
    }
}

/// When a fill leaves the region as it was, any move made next gives the
/// grid that it would have given without the fill.
pub proof fn lemma_steady_fill(b: Board, target: u8, next: u8)
    requires
        b.wf(),
        forall|cell: Cell| #[trigger] b.flood(target).in_region(cell) ==> b.in_region(cell),
    ensures
        b.flood(target).flood(next) == b.flood(next),
{
    let f = b.flood(target);
    let left = f.flood(next);
    let right = b.flood(next);
    assert forall|r: int| 0 <= r < b.height implies #[trigger] left.rows[r] == right.rows[r] by {
        assert forall|c: int| 0 <= c < b.width implies left.rows[r][c] == right.rows[r][c] by {
            if b.in_region((r, c)) {
                lemma_flood_keeps_region(b, target, (r, c));
            }
        }
        assert(left.rows[r] =~= right.rows[r]);
    }
    assert(left.rows =~= right.rows);
}

/// On a grid of one color every cell belongs to the region.
proof fn lemma_complete_reaches(b: Board, cell: Cell)
    requires
        b.wf(),
        b.is_complete(),
        b.has(cell),
    ensures
        b.in_region(cell),
    decreases cell.0 + cell.1,
{
    if cell.0 > 0 {
        let prev: Cell = (cell.0 - 1, cell.1);
        lemma_complete_reaches(b, prev);
        assert(b.rows[cell.0][cell.1] == b.origin_color());
        lemma_region_step(b, prev, cell);
    } else if cell.1 > 0 {
        let prev: Cell = (cell.0, cell.1 - 1);
        lemma_complete_reaches(b, prev);
        assert(b.rows[cell.0][cell.1] == b.origin_color());
        lemma_region_step(b, prev, cell);
    } else {
        lemma_origin_in_region(b);
    }
}

/// A grid is complete exactly when the region of the top-left cell is the
/// whole grid.
pub proof fn lemma_complete_is_full_region(b: Board)
    requires
        b.wf(),
    ensures
        b.is_complete() <==> forall|cell: Cell| b.has(cell) ==> #[trigger] b.in_region(cell),
{
    if b.is_complete() {
        assert forall|cell: Cell| b.has(cell) implies #[trigger] b.in_region(cell) by {
            lemma_complete_reaches(b, cell);
        }
    }
    if forall|cell: Cell| b.has(cell) ==> #[trigger] b.in_region(cell) {
        assert forall|r: int, c: int| 0 <= r < b.height && 0 <= c < b.width implies (
        #[trigger] b.rows[r][c]) == b.origin_color() by {
            assert(b.in_region((r, c)));
            lemma_region_cell(b, (r, c));
        }
    }
}

/// The region has at least one cell and no more cells than the grid.
pub proof fn lemma_region_size_bounds(b: Board)
    requires
        b.wf(),
    ensures
        1 <= b.region_size() <= b.cell_count(),
{
    lemma_rows_bound(b.region(), b.width as int, b.height as int);
    assert(b.height * b.width == b.width * b.height) by (nonlinear_arith);
    let nothing = |cell: Cell| false;
    lemma_origin_in_region(b);
    lemma_rows_strict(
        nothing,
        b.region(),
        b.width as int,
        b.height as int,
        b.height as int,
        (0, 0),
    );
}

/// A cell outside the region is cut off from it by an edge between a cell
/// of the region and a cell outside.
proof fn lemma_border_exists(b: Board, cell: Cell) -> (edge: (Cell, Cell))
    requires
        b.wf(),
        b.has(cell),
        !b.in_region(cell),
    ensures
        b.has(edge.0),
        b.has(edge.1),
        adjacent(edge.0, edge.1),
        b.in_region(edge.0),
        !b.in_region(edge.1),
    decreases cell.0 + cell.1,
{
    if cell.0 > 0 {
        let prev: Cell = (cell.0 - 1, cell.1);
        if b.in_region(prev) {
            (prev, cell)
        } else {
            lemma_border_exists(b, prev)
        }
    } else if cell.1 > 0 {
        let prev: Cell = (cell.0, cell.1 - 1);
        if b.in_region(prev) {
            (prev, cell)
        } else {
            lemma_border_exists(b, prev)
        }
    } else {
        lemma_origin_in_region(b);
        (cell, cell)
    }
}

/// On a grid that is not complete some move makes the region larger.
pub proof fn lemma_growing_move_exists(b: Board) -> (color: u8)
    requires
        b.wf(),
        !b.is_complete(),
    ensures
        b.is_move(color),
        b.flood(color).region_size() > b.region_size(),
{
    lemma_complete_is_full_region(b);
    let cell = choose|cell: Cell| b.has(cell) && !#[trigger] b.in_region(cell);
    let (inside, outside) = lemma_border_exists(b, cell);
    let color = b.color(outside);
    assert(b.rows[outside.0][outside.1] < b.color_count);
    if color == b.origin_color() {
        lemma_region_step(b, inside, outside);
    }
    let f = b.flood(color);
    lemma_flood_origin(b, color);
    lemma_flood_keeps_region(b, color, inside);
    lemma_flood_outside(b, color, outside);
    lemma_region_step(f, inside, outside);
    lemma_flood_region_grows(b, color);
    lemma_rows_strict(
        b.region(),
        f.region(),
        b.width as int,
        b.height as int,
        b.height as int,
        outside,
    );
    color
}

/// A grid that is not complete has at least two cells.
pub proof fn lemma_incomplete_has_two_cells(b: Board)
    requires
        b.wf(),
        !b.is_complete(),
    ensures
        b.cell_count() >= 2,
{
    let (r, c) = choose|r: int, c: int|
        0 <= r < b.height && 0 <= c < b.width && (#[trigger] b.rows[r][c]) != b.origin_color();
    assert(r > 0 || c > 0);
    assert(b.width * b.height >= 2) by (nonlinear_arith)
        requires
            b.width >= 1,
            b.height >= 1,
            b.width >= 2 || b.height >= 2,
    ;
}

/// A grid with a single color is complete.
pub proof fn lemma_one_color_complete(b: Board)
    requires
        b.wf(),
        b.color_count == 1,
    ensures
        b.is_complete(),
{
    assert(b.rows[0][0] < b.color_count);
}

} // verus!
