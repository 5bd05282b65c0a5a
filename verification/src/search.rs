//! The search for a short sequence of moves that completes a grid.

use crate::finite::{boards, lemma_boards_finite};
use crate::frontier::{
    at, frontier, grown, grown_upto, lemma_complete_node_short, lemma_frontier_expanded,
    lemma_frontier_not_empty, lemma_frontier_pruned, lemma_frontier_seeded, lemma_grown_done,
    lemma_grown_fresh, lemma_grown_stale, lemma_quick_extended, lemma_quick_popped,
    lemma_quick_seeded, lemma_sound_expanded, lemma_sound_popped, quick_pending, sound, Node,
    Rows,
};
use crate::grid::Grid;
use crate::matrix::{matrix_rows, CellMatrix};
use crate::play::{
    lemma_accepted_moves_alternate, lemma_accepted_moves_in_range, lemma_play_origin,
    lemma_short_solution_is_shortest,
};
use crate::region::{
    lemma_incomplete_has_two_cells, lemma_one_color_complete, lemma_region_size_bounds,
};
use crate::visited::VisitedSet;
use vstd::prelude::*;

verus! {

/// A grid state that waits to be expanded, and the moves that led to it.
struct SearchState {
    moves: Vec<u8>,
    grid_state: CellMatrix,
}

impl View for SearchState {
    type V = Node;

    closed spec fn view(&self) -> Node {
        Node { moves: self.moves@, rows: matrix_rows(self.grid_state) }
    }
}

/// The nodes of a stack of search states, bottom first.
spec fn nodes(stack: Seq<SearchState>) -> Seq<Node> {
    stack.map_values(|state: SearchState| state@)
}

/// The number of grid states of a shape that have not been seen.
spec fn unseen(width: nat, height: nat, seen: Set<Rows>) -> nat {
    boards(width, height).difference(seen).len()
}

proof fn lemma_unseen_insert(width: nat, height: nat, seen: Set<Rows>, rows: Rows)
    requires
        boards(width, height).contains(rows),
        !seen.contains(rows),
    ensures
        unseen(width, height, seen.insert(rows)) + 1 == unseen(width, height, seen),
{
    lemma_boards_finite(width, height);
    let all = boards(width, height);
    let left = all.difference(seen);
    assert(left.finite());
    assert(left.contains(rows));
    assert(all.difference(seen.insert(rows)) =~= left.remove(rows));
}

/// Tries every move on `parent`: each state that a move leads to joins the
/// seen states, and each one that is new goes on the stack with the moves
/// that led to it.
fn expand(parent: &Grid, moves: &Vec<u8>, visited: &mut VisitedSet, stack: &mut Vec<SearchState>)
    requires
        parent@.wf(),
        old(visited).wf(),
        old(visited).width() == parent@.width,
        old(visited).height() == parent@.height,
        moves@.len() > 0 ==> moves@.last() == parent@.origin_color(),
    ensures
        final(visited).wf(),
        final(visited).width() == parent@.width,
        final(visited).height() == parent@.height,
        grown(
            parent@,
            moves@,
            old(visited)@,
            final(visited)@,
            nodes(old(stack)@),
            nodes(final(stack)@),
        ),
        unseen(parent@.width, parent@.height, final(visited)@) + final(stack)@.len() == unseen(
            parent@.width,
            parent@.height,
            old(visited)@,
        ) + old(stack)@.len(),
{
    let ghost seen = visited@;
    let ghost below = nodes(stack@);
    let ghost depth = stack@.len();
    let origin = parent.cell(0, 0);
    let colors = parent.color_count();
    let mut color: usize = 0;
    proof {
        assert(nodes(stack@).skip(below.len() as int) =~= Seq::<Node>::empty());
    }
    while color < colors
        invariant
            parent@.wf(),
            colors == parent@.color_count,
            origin == parent@.origin_color(),
            color <= colors,
            visited.wf(),
            visited.width() == parent@.width,
            visited.height() == parent@.height,
            moves@.len() > 0 ==> moves@.last() == parent@.origin_color(),
            below.len() == depth,
            grown_upto(parent@, moves@, seen, visited@, below, nodes(stack@), color as int),
            unseen(parent@.width, parent@.height, visited@) + stack@.len() == unseen(
                parent@.width,
                parent@.height,
                seen,
            ) + depth,
        decreases colors - color,
    {
        let c = color as u8;
        let repeated = moves.len() > 0 && moves[moves.len() - 1] == c;
        if c != origin && !repeated {
            let mut next_grid = parent.clone();
            next_grid.flood_fill(c);
            let ghost seen_now = visited@;
            let ghost stack_now = nodes(stack@);
            if visited.insert(&next_grid) {
                let mut next_moves = moves.clone();
                next_moves.push(c);
                let state = SearchState { moves: next_moves, grid_state: next_grid.into_cells() };
                proof {
                    assert(next_moves@ =~= moves@.push(c));
                    lemma_grown_fresh(parent@, moves@, seen, seen_now, below, stack_now, c, state@);
                    lemma_unseen_insert(parent@.width, parent@.height, seen_now, state@.rows);
                    assert(nodes(stack@.push(state)) =~= stack_now.push(state@));
                }
                stack.push(state);
            } else {
                proof {
                    assert(visited@ =~= seen_now);
                    lemma_grown_stale(
                        parent@,
                        moves@,
                        seen,
                        seen_now,
                        below,
                        stack_now,
                        color as int,
                    );
                }
            }
        } else {
            proof {
                assert(!parent@.is_move(c));
                lemma_grown_stale(
                    parent@,
                    moves@,
                    seen,
                    visited@,
                    below,
                    nodes(stack@),
                    color as int,
                );
            }
        }
        color = color + 1;
    }
    proof {
        lemma_grown_done(parent@, moves@, seen, visited@, below, nodes(stack@), color as int);
    }
}

/// Finds a sequence of moves that completes the grid.
///
/// The search goes depth first over the states that moves lead to, never
/// enters a state twice, and gives up a branch that is as long as the best
/// solution found so far. It returns the last solution that it recorded:
/// each recorded solution is shorter than the one before it. A grid that is
/// complete already needs no moves.
pub fn solve(grid: &Grid) -> (moves: Vec<u8>)
    requires
        grid@.wf(),
        grid@.cell_count() <= usize::MAX,
    ensures
        grid@.solved_by(moves@),
        moves@.len() == 0 <==> grid@.is_complete(),
        moves@.len() + grid@.region_size() <= grid@.cell_count(),
        moves@.len() < grid@.cell_count(),
        forall|i: int| 0 <= i < moves@.len() ==> #[trigger] moves@[i] < grid@.color_count,
        grid@.color_count == 1 ==> moves@.len() == 0,
        grid@.is_complete() || grid@.one_move_away() ==> grid@.shortest_solved_by(moves@),
        !grid@.is_complete() && grid@.one_move_away() ==> moves@.len() == 1,
        forall|i: int| 0 <= i < moves@.len() - 1 ==> #[trigger] moves@[i] != moves@[i + 1],
{
    let ghost root = grid@;
    proof {
        if root.color_count == 1 {
            lemma_one_color_complete(root);
        }
    }
    if grid.is_complete() {
        let moves: Vec<u8> = Vec::new();
        proof {
            assert(root.play(moves@) == root);
            lemma_region_size_bounds(root);
            lemma_short_solution_is_shortest(root, moves@);
        }
        return moves;
    }
    let width = grid.width();
    let height = grid.height();
    let mut stack: Vec<SearchState> = Vec::new();
    let mut visited = VisitedSet::new(width, height);
    let mut best_solution: Vec<u8> = Vec::new();
    let mut min_length: usize = width * height;
    let no_moves: Vec<u8> = Vec::new();
    expand(grid, &no_moves, &mut visited, &mut stack);
    proof {
        assert(nodes(Seq::<SearchState>::empty()) =~= Seq::<Node>::empty());
        assert(no_moves@ =~= Seq::<u8>::empty());
        lemma_frontier_seeded(root, visited@, nodes(stack@));
        lemma_incomplete_has_two_cells(root);
        lemma_region_size_bounds(root);
        if root.one_move_away() {
            lemma_quick_seeded(root, visited@, nodes(stack@));
        }
    }
    while stack.len() > 0
        invariant
            root == grid@,
            root.wf(),
            !root.is_complete(),
            root.width == width,
            root.height == height,
            visited.wf(),
            visited.width() == width,
            visited.height() == height,
            sound(root, visited@, nodes(stack@)),
            best_solution@.len() == 0 ==> min_length == root.cell_count() && frontier(
                root,
                visited@,
                nodes(stack@),
            ),
            best_solution@.len() > 0 ==> min_length == best_solution@.len() && root.solved_by(
                best_solution@,
            ),
            min_length <= root.cell_count(),
            best_solution@.len() + root.region_size() <= root.cell_count(),
            1 <= root.region_size(),
            root.cell_count() >= 2,
            root.one_move_away() ==> best_solution@.len() == 1 || quick_pending(
                root,
                nodes(stack@),
            ),
        decreases unseen(width as nat, height as nat, visited@), stack@.len(),
    {
        let ghost before = nodes(stack@);
        let ghost seen = visited@;
        let state = stack.pop().unwrap();
        proof {
            assert(nodes(stack@) =~= before.drop_last());
            assert(before.last() == state@);
            lemma_sound_popped(root, seen, before);
        }
        if state.moves.len() >= min_length {
            proof {
                if best_solution@.len() == 0 {
                    lemma_frontier_pruned(root, seen, before);
                }
                if root.one_move_away() && best_solution@.len() != 1 {
                    lemma_quick_popped(root, before);
                }
            }
        } else {
            let SearchState { moves, grid_state } = state;
            let temp_grid = grid.with_cells(grid_state);
            proof {
                assert(temp_grid@ == at(root, state@.rows));
            }
            if temp_grid.is_complete() {
                proof {
                    if best_solution@.len() == 0 {
                        lemma_complete_node_short(root, seen, before);
                    }
                    if root.one_move_away() && moves@.len() != 1 {
                        lemma_quick_popped(root, before);
                    }
                }
                min_length = moves.len();
                best_solution = moves;
            } else {
                proof {
                    lemma_play_origin(root, moves@);
                }
                expand(&temp_grid, &moves, &mut visited, &mut stack);
                proof {
                    lemma_sound_expanded(
                        root,
                        seen,
                        visited@,
                        state@,
                        before.drop_last(),
                        nodes(stack@),
                    );
                    if best_solution@.len() == 0 {
                        lemma_frontier_expanded(root, seen, visited@, before, nodes(stack@));
                    }
                    if root.one_move_away() && best_solution@.len() != 1 {
                        lemma_quick_popped(root, before);
                        lemma_quick_extended(root, before.drop_last(), nodes(stack@));
                    }
                }
            }
        }
    }
    proof {
        if best_solution@.len() == 0 {
            lemma_frontier_not_empty(root, visited@, nodes(stack@));
        }
        lemma_accepted_moves_alternate(root, best_solution@);
        lemma_accepted_moves_in_range(root, best_solution@);
        if root.one_move_away() {
            lemma_short_solution_is_shortest(root, best_solution@);
        }
    }
    best_solution
}

} // verus!
