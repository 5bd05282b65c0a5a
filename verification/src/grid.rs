//! The grid as it is held in memory, and the moves that change it.

use crate::board::{adjacent, Board, Cell};
use crate::count::{count_in_rows, lemma_rows_strict, within};
use crate::key::{cells_key, rows_key};
use crate::matrix::{matrix_clone, matrix_filled, matrix_get, matrix_rows, matrix_set, CellMatrix};
use crate::region::{
    lemma_flood_same_color, lemma_flood_wf, lemma_origin_in_region, lemma_region_cell, lemma_region_least,
    lemma_region_step, spreads,
};
use vstd::arithmetic::div_mod::lemma_fundamental_div_mod_converse;
use vstd::prelude::*;

verus! {

/// A rectangular grid of colored cells.
#[derive(Debug)]
pub struct Grid {
    width: usize,
    height: usize,
    colors: usize,
    data: CellMatrix,
}

impl View for Grid {
    type V = Board;

    closed spec fn view(&self) -> Board {
        Board {
            width: self.width as nat,
            height: self.height as nat,
            color_count: self.colors as nat,
            rows: matrix_rows(self.data),
        }
    }
}

/// The marker of a cell in the table of cells that a fill has recolored.
spec fn marked(visited: Seq<Vec<bool>>, cell: Cell) -> bool {
    visited[cell.0]@[cell.1]
}

/// The cells that a fill has not recolored.
spec fn unmarked(visited: Seq<Vec<bool>>) -> spec_fn(Cell) -> bool {
    |cell: Cell| !marked(visited, cell)
}

/// The cell waits on the stack of a fill, as a pair of column and row.
spec fn queued(stack: Seq<(usize, usize)>, cell: Cell) -> bool {
    exists|i: int|
        0 <= i < stack.len() && (#[trigger] stack[i]).0 == cell.1 && stack[i].1 == cell.0
}

/// The cell is marked or waits on the stack.
spec fn covered(visited: Seq<Vec<bool>>, stack: Seq<(usize, usize)>, cell: Cell) -> bool {
    marked(visited, cell) || queued(stack, cell)
}

/// The table of markers has one entry per cell.
spec fn marks_shaped(visited: Seq<Vec<bool>>, width: int, height: int) -> bool {
    &&& visited.len() == height
    &&& forall|r: int| 0 <= r < height ==> (#[trigger] visited[r]).len() == width
}

/// What a fill in progress has done: a marked cell belongs to the region
/// and has the new color, and an unmarked cell has kept its color.
#[verifier::opaque]
spec fn fill_sound(start: Board, now: Board, visited: Seq<Vec<bool>>, target: u8) -> bool {
    forall|cell: Cell|
        #![trigger marked(visited, cell)]
        start.has(cell) ==> if marked(visited, cell) {
            start.in_region(cell) && now.color(cell) == target
        } else {
            now.color(cell) == start.color(cell)
        }
}

/// What a fill in progress still owes: the top-left cell and every
/// same-colored neighbor of a marked cell is marked or waits on the stack.
#[verifier::opaque]
spec fn fill_pending(start: Board, visited: Seq<Vec<bool>>, stack: Seq<(usize, usize)>) -> bool {
    &&& covered(visited, stack, (0, 0))
    &&& forall|p: Cell, q: Cell|
        #![trigger marked(visited, p), adjacent(p, q)]
        start.has(p) && start.has(q) && marked(visited, p) && adjacent(p, q) && start.color(q)
            == start.origin_color() ==> covered(visited, stack, q)
}

/// Every stack entry is a cell of the region.
#[verifier::opaque]
spec fn stack_sound(start: Board, stack: Seq<(usize, usize)>) -> bool {
    forall|i: int|
        0 <= i < stack.len() ==> start.in_region(
            ((#[trigger] stack[i]).1 as int, stack[i].0 as int),
        )
}

/// The markers `later` are the markers `earlier` with `here` set.
spec fn marks_grown(earlier: Seq<Vec<bool>>, later: Seq<Vec<bool>>, here: Cell, b: Board) -> bool {
    forall|cell: Cell|
        #![trigger marked(later, cell)]
        b.has(cell) ==> marked(later, cell) == (marked(earlier, cell) || cell == here)
}

/// Every cell that waits on `earlier`, but for `gone`, waits on `later`.
spec fn queue_kept(earlier: Seq<(usize, usize)>, later: Seq<(usize, usize)>, gone: Cell) -> bool {
    forall|cell: Cell| #[trigger] queued(earlier, cell) && cell != gone ==> queued(later, cell)
}

proof fn lemma_popped(start: Board, stack: Seq<(usize, usize)>)
    requires
        stack.len() > 0,
        stack_sound(start, stack),
    ensures
        start.in_region((stack.last().1 as int, stack.last().0 as int)),
        stack_sound(start, stack.drop_last()),
        queue_kept(stack, stack.drop_last(), (stack.last().1 as int, stack.last().0 as int)),
{
    reveal(stack_sound);
    let rest = stack.drop_last();
    assert(stack[stack.len() - 1] == stack.last());
    assert forall|i: int| 0 <= i < rest.len() implies start.in_region(
        ((#[trigger] rest[i]).1 as int, rest[i].0 as int),
    ) by {
        assert(rest[i] == stack[i]);
    }
    let gone: Cell = (stack.last().1 as int, stack.last().0 as int);
    assert forall|cell: Cell| #[trigger] queued(stack, cell) && cell != gone implies queued(
        rest,
        cell,
    ) by {
        let i = choose|i: int|
            0 <= i < stack.len() && (#[trigger] stack[i]).0 == cell.1 && stack[i].1 == cell.0;
        assert(rest[i] == stack[i]);
    }
}

proof fn lemma_pushed(start: Board, stack: Seq<(usize, usize)>, entry: (usize, usize))
    requires
        stack_sound(start, stack),
        start.in_region((entry.1 as int, entry.0 as int)),
    ensures
        stack_sound(start, stack.push(entry)),
        queued(stack.push(entry), (entry.1 as int, entry.0 as int)),
        forall|cell: Cell| #[trigger] queued(stack, cell) ==> queued(stack.push(entry), cell),
{
    reveal(stack_sound);
    let longer = stack.push(entry);
    assert forall|i: int| 0 <= i < longer.len() implies start.in_region(
        ((#[trigger] longer[i]).1 as int, longer[i].0 as int),
    ) by {
        if i < stack.len() {
            assert(longer[i] == stack[i]);
        }
    }
    assert(longer[stack.len() as int] == entry);
    assert forall|cell: Cell| #[trigger] queued(stack, cell) implies queued(longer, cell) by {
        let i = choose|i: int|
            0 <= i < stack.len() && (#[trigger] stack[i]).0 == cell.1 && stack[i].1 == cell.0;
        assert(longer[i] == stack[i]);
    }
}

/// Skipping a popped cell that is marked already keeps the debt of the fill.
proof fn lemma_pending_after_skip(
    start: Board,
    visited: Seq<Vec<bool>>,
    earlier: Seq<(usize, usize)>,
    later: Seq<(usize, usize)>,
    here: Cell,
)
    requires
        fill_pending(start, visited, earlier),
        queue_kept(earlier, later, here),
        marked(visited, here),
    ensures
        fill_pending(start, visited, later),
{
    reveal(fill_pending);
    assert forall|p: Cell, q: Cell|
        #![trigger marked(visited, p), adjacent(p, q)]
        start.has(p) && start.has(q) && marked(visited, p) && adjacent(p, q) && start.color(q)
            == start.origin_color() implies covered(visited, later, q) by {
        assert(covered(visited, earlier, q));
    }
    assert(covered(visited, earlier, (0, 0)));
}

/// Marking a popped cell keeps the debt of the fill once its neighbors of
/// the old color are marked or wait on the stack.
proof fn lemma_pending_after_visit(
    start: Board,
    seen: Seq<Vec<bool>>,
    visited: Seq<Vec<bool>>,
    earlier: Seq<(usize, usize)>,
    later: Seq<(usize, usize)>,
    here: Cell,
)
    requires
        fill_pending(start, seen, earlier),
        start.has(here),
        marks_grown(seen, visited, here, start),
        queue_kept(earlier, later, here),
        forall|q: Cell|
            #![trigger adjacent(here, q)]
            start.has(q) && adjacent(here, q) && start.color(q) == start.origin_color()
                ==> covered(visited, later, q),
    ensures
        fill_pending(start, visited, later),
{
    reveal(fill_pending);
    assert forall|p: Cell, q: Cell|
        #![trigger marked(visited, p), adjacent(p, q)]
        start.has(p) && start.has(q) && marked(visited, p) && adjacent(p, q) && start.color(q)
            == start.origin_color() implies covered(visited, later, q) by {
        if p == here {
            assert(adjacent(here, q));
        } else {
            assert(marked(seen, p));
            assert(covered(seen, earlier, q));
            assert(marked(visited, q) == (marked(seen, q) || q == here));
        }
    }
    assert(covered(seen, earlier, (0, 0)));
    assert(marked(visited, (0, 0)) == (marked(seen, (0, 0)) || (0int, 0int) == here));
}

/// Recoloring and marking one cell of the region keeps the record of the
/// fill true and leaves fewer cells unmarked.
proof fn lemma_sound_after_visit(
    start: Board,
    was: Board,
    now: Board,
    seen: Seq<Vec<bool>>,
    visited: Seq<Vec<bool>>,
    here: Cell,
    target: u8,
)
    requires
        fill_sound(start, was, seen, target),
        start.shaped(),
        start.in_region(here),
        start.has(here),
        !marked(seen, here),
        marks_grown(seen, visited, here, start),
        now.rows == was.rows.update(here.0, was.rows[here.0].update(here.1, target)),
        was.shaped(),
        was.width == start.width,
        was.height == start.height,
    ensures
        fill_sound(start, now, visited, target),
        count_in_rows(unmarked(visited), start.width as int, start.height as int) < count_in_rows(
            unmarked(seen),
            start.width as int,
            start.height as int,
        ),
{
    reveal(fill_sound);
    assert forall|cell: Cell|
        #![trigger marked(visited, cell)]
        start.has(cell) implies if marked(visited, cell) {
        start.in_region(cell) && now.color(cell) == target
    } else {
        now.color(cell) == start.color(cell)
    } by {
        assert(marked(visited, cell) == (marked(seen, cell) || cell == here));
        if cell != here {
            assert(marked(seen, cell) == marked(seen, cell));
            if cell.0 != here.0 {
                assert(now.rows[cell.0] == was.rows[cell.0]);
            } else {
                assert(now.rows[cell.0][cell.1] == was.rows[cell.0][cell.1]);
            }
        }
    }
    assert(within(unmarked(visited), unmarked(seen), start.width as int, start.height as int))
        by {
        assert forall|cell: Cell|
            0 <= cell.0 < start.height && 0 <= cell.1 < start.width && #[trigger] unmarked(
                visited,
            )(cell) implies unmarked(seen)(cell) by {
            assert(start.has(cell));
            assert(marked(visited, cell) == (marked(seen, cell) || cell == here));
        }
    }
    assert(marked(visited, here) == (marked(seen, here) || here == here));
    lemma_rows_strict(
        unmarked(visited),
        unmarked(seen),
        start.width as int,
        start.height as int,
        start.height as int,
        here,
    );
}

/// A popped cell that is not marked still has the old color.
proof fn lemma_unmarked_color(
    start: Board,
    now: Board,
    visited: Seq<Vec<bool>>,
    here: Cell,
    target: u8,
)
    requires
        fill_sound(start, now, visited, target),
        start.in_region(here),
        !marked(visited, here),
    ensures
        start.has(here),
        now.color(here) == start.origin_color(),
{
    reveal(fill_sound);
    lemma_region_cell(start, here);
}

/// A table of markers, one per cell, none of them set.
fn new_marks(width: usize, height: usize) -> (visited: Vec<Vec<bool>>)
    ensures
        marks_shaped(visited@, width as int, height as int),
        forall|cell: Cell|
            0 <= cell.0 < height && 0 <= cell.1 < width ==> !#[trigger] marked(visited@, cell),
{
    let mut visited: Vec<Vec<bool>> = Vec::new();
    let mut r: usize = 0;
    while r < height
        invariant
            r <= height,
            marks_shaped(visited@, width as int, r as int),
            forall|cell: Cell|
                0 <= cell.0 < r && 0 <= cell.1 < width ==> !#[trigger] marked(visited@, cell),
        decreases height - r,
    {
        let mut row: Vec<bool> = Vec::new();
        let mut c: usize = 0;
        while c < width
            invariant
                c <= width,
                row.len() == c,
                forall|j: int| 0 <= j < c ==> !row[j],
            decreases width - c,
        {
            row.push(false);
            c = c + 1;
        }
        let ghost earlier = visited@;
        visited.push(row);
        proof {
            assert forall|cell: Cell| 0 <= cell.0 < r + 1 && 0 <= cell.1 < width implies !#[trigger] marked(
                visited@,
                cell,
            ) by {
                if cell.0 < r {
                    assert(visited@[cell.0] == earlier[cell.0]);
                    assert(!marked(earlier, cell));
                }
            }
        }
        r = r + 1;
    }
    visited
}

impl Grid {
    /// A grid whose cells all have color 0.
    pub fn new(width: usize, height: usize, colors: usize) -> (grid: Grid)
        requires
            width * height <= isize::MAX,
        ensures
            grid@.width == width,
            grid@.height == height,
            grid@.color_count == colors,
            grid@.rows == Seq::new(height as nat, |r: int| Seq::new(width as nat, |c: int| 0u8)),
            grid@.shaped(),
            width > 0 && height > 0 && 1 <= colors <= 256 ==> grid@.wf(),
    {
        assert(height * width == width * height) by (nonlinear_arith);
        Grid { width, height, colors, data: matrix_filled(height, width, 0) }
    }

    /// Puts a neighbor of a cell that a fill has just recolored on the stack
    /// if it is not marked and still has the old color.
    fn offer(
        &self,
        visited: &Vec<Vec<bool>>,
        stack: &mut Vec<(usize, usize)>,
        x: usize,
        y: usize,
        source_color: u8,
        Ghost(start): Ghost<Board>,
        Ghost(from): Ghost<Cell>,
        Ghost(target): Ghost<u8>,
    )
        requires
            start.wf(),
            self@.shaped(),
            self@.width == start.width,
            self@.height == start.height,
            marks_shaped(visited@, start.width as int, start.height as int),
            x < start.width,
            y < start.height,
            source_color == start.origin_color(),
            fill_sound(start, self@, visited@, target),
            stack_sound(start, old(stack)@),
            start.in_region(from),
            adjacent(from, (y as int, x as int)),
        ensures
            stack_sound(start, final(stack)@),
            forall|cell: Cell| #[trigger] queued(old(stack)@, cell) ==> queued(final(stack)@, cell),
            start.color((y as int, x as int)) == source_color ==> covered(
                visited@,
                final(stack)@,
                (y as int, x as int),
            ),
    {
        let ghost next: Cell = (y as int, x as int);
        if !visited[y][x] && matrix_get(&self.data, y, x) == source_color {
            proof {
                assert(!marked(visited@, next));
                assert(start.has(next));
                assert(start.color(next) == source_color) by {
                    reveal(fill_sound);
                }
                lemma_region_step(start, from, next);
                lemma_pushed(start, stack@, (x, y));
            }
            stack.push((x, y));
        } else {
            proof {
                if !marked(visited@, next) {
                    assert(start.has(next));
                    assert(start.color(next) != source_color) by {
                        reveal(fill_sound);
                    }
                }
            }
        }
    }

    /// Recolors the connected region of the top-left cell.
    ///
    /// The region is taken by the colors before the call: a cell belongs to
    /// it when a path of edge-sharing cells of the top-left color leads to
    /// it from the top-left cell. Asking for the color that the region
    /// already has changes nothing.
    pub fn flood_fill(&mut self, target_color: u8)
        requires
            old(self)@.wf(),
            target_color < old(self)@.color_count,
        ensures
            final(self)@ == old(self)@.flood(target_color),
            final(self)@.wf(),
            target_color == old(self)@.origin_color() ==> final(self)@ == old(self)@,
    {
        let ghost start = self@;
        proof {
            lemma_flood_wf(start, target_color);
        }
        let source_color = matrix_get(&self.data, 0, 0);
        if source_color == target_color {
            proof {
                lemma_flood_same_color(start);
            }
            return ;
        }
        let width = self.width;
        let height = self.height;
        let mut stack: Vec<(usize, usize)> = Vec::new();
        stack.push((0, 0));
        let mut visited = new_marks(width, height);
        proof {
            lemma_origin_in_region(start);
            assert(stack@[0] == (0usize, 0usize));
            assert(queued(stack@, (0, 0)));
            assert(stack_sound(start, stack@)) by {
                reveal(stack_sound);
            }
            assert(fill_pending(start, visited@, stack@)) by {
                reveal(fill_pending);
            }
            assert(fill_sound(start, self@, visited@, target_color)) by {
                reveal(fill_sound);
            }
        }
        while stack.len() > 0
            invariant
                start.wf(),
                start.width == width,
                start.height == height,
                source_color == start.origin_color(),
                self@.width == start.width,
                self@.height == start.height,
                self@.color_count == start.color_count,
                self@.shaped(),
                marks_shaped(visited@, width as int, height as int),
                fill_sound(start, self@, visited@, target_color),
                fill_pending(start, visited@, stack@),
                stack_sound(start, stack@),
            decreases count_in_rows(unmarked(visited@), width as int, height as int), stack.len(),
        {
            let ghost before = stack@;
            let ghost seen = visited@;
            let ghost was = self@;
            let (x, y) = stack.pop().unwrap();
            let ghost here: Cell = (y as int, x as int);
            proof {
                lemma_popped(start, before);
                lemma_region_cell(start, here);
            }
            if !visited[y][x] {
                proof {
                    lemma_unmarked_color(start, was, seen, here, target_color);
                }
                if matrix_get(&self.data, y, x) == source_color {
                    matrix_set(&mut self.data, y, x, target_color);
                    visited[y][x] = true;
                    proof {
                        assert(marks_grown(seen, visited@, here, start));
                        lemma_sound_after_visit(
                            start,
                            was,
                            self@,
                            seen,
                            visited@,
                            here,
                            target_color,
                        );
                    }
                    if x > 0 {
                        self.offer(
                            &visited,
                            &mut stack,
                            x - 1,
                            y,
                            source_color,
                            Ghost(start),
                            Ghost(here),
                            Ghost(target_color),
                        );
                    }
                    if x < width - 1 {
                        self.offer(
                            &visited,
                            &mut stack,
                            x + 1,
                            y,
                            source_color,
                            Ghost(start),
                            Ghost(here),
                            Ghost(target_color),
                        );
                    }
                    if y > 0 {
                        self.offer(
                            &visited,
                            &mut stack,
                            x,
                            y - 1,
                            source_color,
                            Ghost(start),
                            Ghost(here),
                            Ghost(target_color),
                        );
                    }
                    if y < height - 1 {
                        self.offer(
                            &visited,
                            &mut stack,
                            x,
                            y + 1,
                            source_color,
                            Ghost(start),
                            Ghost(here),
                            Ghost(target_color),
                        );
                    }
                    proof {
                        assert(queue_kept(before, stack@, here));
                        assert forall|q: Cell|
                            #![trigger adjacent(here, q)]
                            start.has(q) && adjacent(here, q) && start.color(q)
                                == start.origin_color() implies covered(visited@, stack@, q) by {
                            if q == (y as int, x - 1) {
                            } else if q == (y as int, x + 1) {
                            } else if q == (y - 1, x as int) {
                            } else {
                                assert(q == (y + 1, x as int));
                            }
                        }
                        lemma_pending_after_visit(start, seen, visited@, before, stack@, here);
                    }
                }
            } else {
                proof {
                    lemma_pending_after_skip(start, seen, before, stack@, here);
                }
            }
        }
        proof {
            let marks = |cell: Cell| start.has(cell) && marked(visited@, cell);
            assert(spreads(start, marks)) by {
                reveal(fill_pending);
                assert(!queued(stack@, (0, 0)));
                assert forall|p: Cell, q: Cell|
                    #![trigger marks(p), adjacent(p, q)]
                    marks(p) && adjacent(p, q) && start.has(q) && start.color(q)
                        == start.origin_color() implies marks(q) by {
                    assert(marked(visited@, p));
                    assert(!queued(stack@, q));
                    assert(covered(visited@, stack@, q));
                }
            }
            lemma_region_least(start, marks);
            let goal = start.flood(target_color);
            assert forall|r: int| 0 <= r < start.height implies #[trigger] self@.rows[r]
                == goal.rows[r] by {
                assert forall|c: int| 0 <= c < start.width implies self@.rows[r][c]
                    == goal.rows[r][c] by {
                    reveal(fill_sound);
                    let cell: Cell = (r, c);
                    assert(start.has(cell));
                    if start.in_region(cell) {
                        assert(marks(cell));
                        assert(marked(visited@, cell));
                        assert(self@.color(cell) == target_color);
                    } else {
                        assert(!marked(visited@, cell));
                        assert(self@.color(cell) == start.color(cell));
                    }
                }
                assert(self@.rows[r] =~= goal.rows[r]);
            }
            assert(self@.rows =~= goal.rows);
        }
    }

    /// A copy of the colors of the grid.
    pub(crate) fn snapshot(&self) -> (cells: CellMatrix)
        ensures
            matrix_rows(cells) == self@.rows,
    {
        matrix_clone(&self.data)
    }

    /// The grid of the same shape and color count that holds `cells`.
    pub(crate) fn with_cells(&self, cells: CellMatrix) -> (grid: Grid)
        ensures
            grid@ == (Board { rows: matrix_rows(cells), ..self@ }),
    {
        Grid { width: self.width, height: self.height, colors: self.colors, data: cells }
    }

    /// Gives up the grid for the colors it holds.
    pub(crate) fn into_cells(self) -> (cells: CellMatrix)
        ensures
            matrix_rows(cells) == self@.rows,
    {
        self.data
    }

    /// The number of columns.
    pub fn width(&self) -> (width: usize)
        ensures
            width == self@.width,
    {
        self.width
    }

    /// The number of rows.
    pub fn height(&self) -> (height: usize)
        ensures
            height == self@.height,
    {
        self.height
    }

    /// The number of colors that a cell may have.
    pub fn color_count(&self) -> (colors: usize)
        ensures
            colors == self@.color_count,
    {
        self.colors
    }

    /// The color of the cell in row `row` and column `col`.
    pub fn cell(&self, row: usize, col: usize) -> (color: u8)
        requires
            self@.shaped(),
            row < self@.height,
            col < self@.width,
        ensures
            color == self@.rows[row as int][col as int],
    {
        matrix_get(&self.data, row, col)
    }

    /// Gives the cell in row `row` and column `col` a color.
    pub fn set_cell(&mut self, row: usize, col: usize, color: u8)
        requires
            old(self)@.shaped(),
            row < old(self)@.height,
            col < old(self)@.width,
        ensures
            final(self)@ == (Board {
                rows: old(self)@.rows.update(
                    row as int,
                    old(self)@.rows[row as int].update(col as int, color),
                ),
                ..old(self)@
            }),
            final(self)@.shaped(),
            old(self)@.wf() && color < old(self)@.color_count ==> final(self)@.wf(),
    {
        matrix_set(&mut self.data, row, col, color);
    }

    /// The colors of the grid in row-major order.
    pub fn cells(&self) -> (cells: Vec<u8>)
        requires
            self@.shaped(),
        ensures
            cells@ == self@.cells(),
    {
        let ghost width = self.width as int;
        let mut cells: Vec<u8> = Vec::new();
        let mut r: usize = 0;
        while r < self.height
            invariant
                self@.shaped(),
                width == self.width,
                r <= self.height,
                cells@.len() == r * width,
                forall|k: int|
                    0 <= k < cells@.len() ==> cells@[k] == self@.rows[k / width][k % width],
            decreases self.height - r,
        {
            let mut c: usize = 0;
            while c < self.width
                invariant
                    self@.shaped(),
                    width == self.width,
                    r < self.height,
                    c <= self.width,
                    cells@.len() == r * width + c,
                    forall|k: int|
                        0 <= k < cells@.len() ==> cells@[k] == self@.rows[k / width][k % width],
                decreases self.width - c,
            {
                proof {
                    lemma_fundamental_div_mod_converse(r * width + c, width, r as int, c as int);
                }
                cells.push(matrix_get(&self.data, r, c));
                c = c + 1;
            }
            proof {
                assert(r * width + width == (r + 1) * width) by (nonlinear_arith);
            }
            r = r + 1;
        }
        proof {
            assert(self.height * width == self@.height * self@.width) by (nonlinear_arith)
                requires
                    width == self@.width,
                    self.height == self@.height,
            ;
            assert(cells@ =~= self@.cells());
        }
        cells
    }

    /// The state key of the grid: a number that depends on the colors
    /// alone, so that grids with the same colors have the same key.
    pub fn state_key(&self) -> (key: u64)
        requires
            self@.shaped(),
        ensures
            key == rows_key(self@.rows),
    {
        cells_key(&self.data, self.width, self.height)
    }

    /// Whether every cell has the color of the top-left cell.
    pub fn is_complete(&self) -> (done: bool)
        requires
            self@.wf(),
        ensures
            done == self@.is_complete(),
    {
        let target = matrix_get(&self.data, 0, 0);
        let mut r: usize = 0;
        while r < self.height
            invariant
                self@.wf(),
                target == self@.origin_color(),
                r <= self.height,
                forall|i: int, j: int|
                    0 <= i < r && 0 <= j < self@.width ==> (#[trigger] self@.rows[i][j]) == target,
            decreases self.height - r,
        {
            let mut c: usize = 0;
            while c < self.width
                invariant
                    self@.wf(),
                    target == self@.origin_color(),
                    r < self.height,
                    c <= self.width,
                    forall|i: int, j: int|
                        0 <= i < r && 0 <= j < self@.width ==> (#[trigger] self@.rows[i][j])
                            == target,
                    forall|j: int| 0 <= j < c ==> self@.rows[r as int][j] == target,
                decreases self.width - c,
            {
                if matrix_get(&self.data, r, c) != target {
                    return false;
                }
                c = c + 1;
            }
            r = r + 1;
        }
        true
    }

    /// Plays the moves in order and tells whether the grid is complete
    /// afterwards.
    pub fn apply_solution(&mut self, solution: &[u8]) -> (done: bool)
        requires
            old(self)@.wf(),
            forall|i: int| 0 <= i < solution@.len() ==> solution@[i] < old(self)@.color_count,
        ensures
            final(self)@ == old(self)@.play(solution@),
            final(self)@.wf(),
            done == final(self)@.is_complete(),
    {
        let ghost start = self@;
        let mut i: usize = 0;
        while i < solution.len()
            invariant
                i <= solution@.len(),
                start.wf(),
                self@.wf(),
                self@.color_count == start.color_count,
                self@ == start.play(solution@.take(i as int)),
                forall|k: int| 0 <= k < solution@.len() ==> solution@[k] < start.color_count,
            decreases solution@.len() - i,
        {
            self.flood_fill(solution[i]);
            proof {
                let longer = solution@.take(i + 1);
                assert(longer.drop_last() =~= solution@.take(i as int));
                assert(longer.last() == solution@[i as int]);
            }
            i = i + 1;
        }
        proof {
            assert(solution@.take(solution@.len() as int) =~= solution@);
        }
        self.is_complete()
    }
}

impl Clone for Grid {
    /// A second grid with the same shape and the same colors.
    fn clone(&self) -> (copy: Grid)
        ensures
            copy@ == self@,
    {
        Grid {
            width: self.width,
            height: self.height,
            colors: self.colors,
            data: matrix_clone(&self.data),
        }
    }
}

} // verus!
