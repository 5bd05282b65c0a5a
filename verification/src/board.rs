//! The mathematical model of a grid and of the flood-fill move.

use crate::count::count_in_rows;
use vstd::prelude::*;

verus! {

/// A cell position: row first, column second.
pub type Cell = (int, int);

/// Two cells that share an edge.
pub open spec fn adjacent(a: Cell, b: Cell) -> bool {
    ||| a.0 == b.0 && (a.1 == b.1 + 1 || b.1 == a.1 + 1)
    ||| a.1 == b.1 && (a.0 == b.0 + 1 || b.0 == a.0 + 1)
}

/// A rectangular grid of colors.
pub struct Board {
    pub width: nat,
    pub height: nat,
    pub color_count: nat,
    /// The colors, one sequence per row, top row first.
    pub rows: Seq<Seq<u8>>,
}

impl Board {
    /// The grid has cells, its rows have the stated shape, and every color
    /// lies below `color_count`.
    pub open spec fn wf(self) -> bool {
        &&& self.width > 0
        &&& self.height > 0
        &&& 1 <= self.color_count <= 256
        &&& self.shaped()
        &&& forall|r: int, c: int|
            0 <= r < self.height && 0 <= c < self.width ==> (#[trigger] self.rows[r][c])
                < self.color_count
    }

    /// There are `height` rows of `width` colors each.
    pub open spec fn shaped(self) -> bool {
        &&& self.rows.len() == self.height
        &&& forall|r: int| 0 <= r < self.height ==> (#[trigger] self.rows[r]).len() == self.width
    }

    /// The cell lies on the grid.
    pub open spec fn has(self, cell: Cell) -> bool {
        0 <= cell.0 < self.height && 0 <= cell.1 < self.width
    }

    /// The color of a cell.
    pub open spec fn color(self, cell: Cell) -> u8 {
        self.rows[cell.0][cell.1]
    }

    /// The color of the top-left cell.
    pub open spec fn origin_color(self) -> u8 {
        self.rows[0][0]
    }

    /// The colors in row-major order.
    pub open spec fn cells(self) -> Seq<u8> {
        Seq::new(
            self.height * self.width,
            |k: int| self.rows[k / (self.width as int)][k % (self.width as int)],
        )
    }

    /// Every cell has the color of the top-left cell.
    pub open spec fn is_complete(self) -> bool {
        forall|r: int, c: int|
            0 <= r < self.height && 0 <= c < self.width ==> (#[trigger] self.rows[r][c])
                == self.origin_color()
    }

    /// `path` starts at the top-left cell, moves from each cell to one that
    /// shares an edge with it, and visits only cells of the top-left color.
    pub open spec fn links(self, path: Seq<Cell>) -> bool {
        &&& path.len() > 0
        &&& path[0] == (0int, 0int)
        &&& forall|i: int|
            0 <= i < path.len() ==> self.has(#[trigger] path[i]) && self.color(path[i])
                == self.origin_color()
        &&& forall|i: int| 0 < i < path.len() ==> adjacent(path[i - 1], #[trigger] path[i])
    }

    /// The cell belongs to the connected region of the top-left cell.
    pub open spec fn in_region(self, cell: Cell) -> bool {
        exists|path: Seq<Cell>| #[trigger] self.links(path) && path.last() == cell
    }

    /// The region of the top-left cell, as a predicate on cells.
    pub open spec fn region(self) -> spec_fn(Cell) -> bool {
        |cell: Cell| self.in_region(cell)
    }

    /// The number of cells in the region of the top-left cell.
    pub open spec fn region_size(self) -> nat {
        count_in_rows(self.region(), self.width as int, self.height as int)
    }

    /// The number of cells.
    pub open spec fn cell_count(self) -> nat {
        self.width * self.height
    }

    /// `color` is a move that changes the grid: a color of the grid other
    /// than the one the top-left cell has.
    pub open spec fn is_move(self, color: u8) -> bool {
        color < self.color_count && color != self.origin_color()
    }

    /// The grid after the region of the top-left cell has been recolored.
    pub open spec fn flood(self, target: u8) -> Board {
        Board {
            rows: Seq::new(
                self.height,
                |r: int|
                    Seq::new(
                        self.width,
                        |c: int|
                            if self.in_region((r, c)) {
                                target
                            } else {
                                self.rows[r][c]
                            },
                    ),
            ),
            ..self
        }
    }

    /// The grid after the moves have been played in order.
    pub open spec fn play(self, moves: Seq<u8>) -> Board
        decreases moves.len(),
    {
        if moves.len() == 0 {
            self
        } else {
            self.play(moves.drop_last()).flood(moves.last())
        }
    }

    /// Every move of the sequence changes the grid it is played on: it is a
    /// color of the grid, and not the one that the top-left cell has at
    /// that point of the game.
    pub open spec fn accepts(self, moves: Seq<u8>) -> bool {
        forall|i: int|
            0 <= i < moves.len() ==> (#[trigger] self.play(moves.take(i))).is_move(moves[i])
    }

    /// The moves are accepted and leave the grid complete.
    pub open spec fn solved_by(self, moves: Seq<u8>) -> bool {
        self.accepts(moves) && self.play(moves).is_complete()
    }

    /// Some single move completes the grid.
    pub open spec fn one_move_away(self) -> bool {
        exists|c: u8| #[trigger] self.is_move(c) && self.flood(c).is_complete()
    }

    /// The moves solve the grid, and no sequence of fewer moves leaves it
    /// complete.
    pub open spec fn shortest_solved_by(self, moves: Seq<u8>) -> bool {
        &&& self.solved_by(moves)
        &&& forall|other: Seq<u8>| #[trigger]
            self.play(other).is_complete() ==> moves.len() <= other.len()
    }
}

} // verus!
