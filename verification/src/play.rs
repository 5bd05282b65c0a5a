//! Facts about sequences of moves.

use crate::board::Board;
use crate::region::{lemma_flood_origin, lemma_flood_wf};
use vstd::prelude::*;

verus! {

/// Playing one more move is a fill of the grid that the earlier moves gave.
pub proof fn lemma_play_push(b: Board, moves: Seq<u8>, color: u8)
    ensures
        b.play(moves.push(color)) == b.play(moves).flood(color),
{
    let longer = moves.push(color);
    assert(longer.drop_last() =~= moves);
    assert(longer.last() == color);
}

/// Accepted moves keep the shape of the grid and keep its colors in range.
pub proof fn lemma_play_wf(b: Board, moves: Seq<u8>)
    requires
        b.wf(),
        b.accepts(moves),
    ensures
        b.play(moves).wf(),
        b.play(moves).width == b.width,
        b.play(moves).height == b.height,
        b.play(moves).color_count == b.color_count,
    decreases moves.len(),
{
    if moves.len() > 0 {
        let shorter = moves.drop_last();
        lemma_accepts_prefix(b, moves, moves.len() - 1);
        lemma_play_wf(b, shorter);
        assert(moves.take(moves.len() - 1) =~= shorter);
        assert(b.play(moves.take(moves.len() - 1)).is_move(moves[moves.len() - 1]));
        lemma_flood_wf(b.play(shorter), moves.last());
    }
}

/// The first moves of an accepted sequence are accepted.
pub proof fn lemma_accepts_prefix(b: Board, moves: Seq<u8>, n: int)
    requires
        b.accepts(moves),
        0 <= n <= moves.len(),
    ensures
        b.accepts(moves.take(n)),
{
    let prefix = moves.take(n);
    assert forall|i: int| 0 <= i < prefix.len() implies (#[trigger] b.play(prefix.take(i))).is_move(
        prefix[i],
    ) by {
        assert(prefix.take(i) =~= moves.take(i));
        assert(b.play(moves.take(i)).is_move(moves[i]));
    }
}

/// An accepted sequence stays accepted with one more move of the grid it
/// leads to.
pub proof fn lemma_accepts_push(b: Board, moves: Seq<u8>, color: u8)
    requires
        b.accepts(moves),
        b.play(moves).is_move(color),
    ensures
        b.accepts(moves.push(color)),
{
    let longer = moves.push(color);
    assert forall|i: int| 0 <= i < longer.len() implies (#[trigger] b.play(longer.take(i))).is_move(
        longer[i],
    ) by {
        if i < moves.len() {
            assert(longer.take(i) =~= moves.take(i));
            assert(b.play(moves.take(i)).is_move(moves[i]));
        } else {
            assert(longer.take(i) =~= moves);
        }
    }
}

/// After accepted moves the top-left cell has the color of the last move.
pub proof fn lemma_play_origin(b: Board, moves: Seq<u8>)
    requires
        b.wf(),
        b.accepts(moves),
        moves.len() > 0,
    ensures
        b.play(moves).origin_color() == moves.last(),
{
    let shorter = moves.drop_last();
    lemma_accepts_prefix(b, moves, moves.len() - 1);
    assert(moves.take(moves.len() - 1) =~= shorter);
    lemma_play_wf(b, shorter);
    lemma_flood_origin(b.play(shorter), moves.last());
}

/// No move of an accepted sequence repeats the move before it.
pub proof fn lemma_accepted_moves_alternate(b: Board, moves: Seq<u8>)
    requires
        b.wf(),
        b.accepts(moves),
    ensures
        forall|i: int| 0 <= i < moves.len() - 1 ==> #[trigger] moves[i] != moves[i + 1],
{
    assert forall|i: int| 0 <= i < moves.len() - 1 implies #[trigger] moves[i] != moves[i + 1] by {
        let prefix = moves.take(i + 1);
        lemma_accepts_prefix(b, moves, i + 1);
        lemma_play_origin(b, prefix);
        assert(prefix.last() == moves[i]);
        assert(b.play(moves.take(i + 1)).is_move(moves[i + 1]));
    }
}

/// Every move of an accepted sequence is a color of the grid.
pub proof fn lemma_accepted_moves_in_range(b: Board, moves: Seq<u8>)
    requires
        b.wf(),
        b.accepts(moves),
    ensures
        forall|i: int| 0 <= i < moves.len() ==> #[trigger] moves[i] < b.color_count,
{
    assert forall|i: int| 0 <= i < moves.len() implies #[trigger] moves[i] < b.color_count by {
        lemma_accepts_prefix(b, moves, i);
        lemma_play_wf(b, moves.take(i));
        assert(b.play(moves.take(i)).is_move(moves[i]));
    }
}

/// Playing a solution leaves a grid of the same shape in which every cell
/// has one color.
pub proof fn lemma_solution_completes(b: Board, moves: Seq<u8>)
    requires
        b.wf(),
        b.solved_by(moves),
    ensures
        b.play(moves).wf(),
        b.play(moves).is_complete(),
        b.play(moves).width == b.width,
        b.play(moves).height == b.height,
{
    lemma_play_wf(b, moves);
}

/// A solution of at most one move, where an incomplete grid takes one, is
/// as short as a solution can be.
pub proof fn lemma_short_solution_is_shortest(b: Board, moves: Seq<u8>)
    requires
        b.solved_by(moves),
        moves.len() == 0 || (moves.len() == 1 && !b.is_complete()),
    ensures
        b.shortest_solved_by(moves),
{
    assert forall|other: Seq<u8>| #[trigger] b.play(other).is_complete() implies moves.len()
        <= other.len() by {
        if other.len() == 0 {
            assert(b.play(other) == b);
        }
    }
}

} // verus!
