//! Why the search cannot run dry before it has found a solution.
//!
//! The search keeps a stack of nodes, each a grid state with the moves that
//! led to it, and a set of the states seen so far. As long as no solution
//! has been found, every seen state either waits on the stack or has had all
//! its successors seen, and a state that is not complete always has a
//! successor with a larger region. So an empty stack without a solution
//! would give an endless chain of ever larger regions on a finite grid.

use crate::board::{Board, Cell};
use crate::play::{lemma_accepts_push, lemma_play_push, lemma_play_wf};
use crate::region::{
    lemma_complete_is_full_region, lemma_flood_grows_or_stays, lemma_flood_same_color,
    lemma_flood_wf, lemma_growing_move_exists, lemma_incomplete_has_two_cells,
    lemma_region_size_bounds, lemma_steady_fill,
};
use vstd::prelude::*;

verus! {

/// The colors of a grid, row by row.
pub type Rows = Seq<Seq<u8>>;

/// A grid state on the stack of the search and the moves that led to it.
pub struct Node {
    pub moves: Seq<u8>,
    pub rows: Rows,
}

/// The grid with the shape and color count of `root` and the given colors.
pub open spec fn at(root: Board, rows: Rows) -> Board {
    Board { rows, ..root }
}

/// Every state that one move leads to from `b` has been seen.
pub open spec fn expanded(b: Board, seen: Set<Rows>) -> bool {
    forall|c: u8| #[trigger] b.is_move(c) ==> seen.contains(b.flood(c).rows)
}

/// `b` is not complete and nothing new can be reached from it.
pub open spec fn closed(b: Board, seen: Set<Rows>) -> bool {
    !b.is_complete() && expanded(b, seen)
}

/// `b` is not complete and nothing new can be reached from it but the
/// state that the search started from.
pub open spec fn rooted(b: Board, seen: Set<Rows>, root: Board) -> bool {
    !b.is_complete() && forall|c: u8| #[trigger]
        b.is_move(c) ==> seen.contains(b.flood(c).rows) || b.flood(c).rows == root.rows
}

/// A node either has gained a cell for its region with every move, or leads
/// nowhere new.
pub open spec fn typed(root: Board, seen: Set<Rows>, node: Node) -> bool {
    let b = at(root, node.rows);
    ||| b.region_size() >= node.moves.len() + root.region_size()
    ||| closed(b, seen)
    ||| node.moves.len() == 1 && rooted(b, seen, root)
}

/// The moves of a node are accepted by the first grid and lead to the state
/// of the node, which has been seen.
pub open spec fn node_sound(root: Board, seen: Set<Rows>, node: Node) -> bool {
    &&& node.moves.len() >= 1
    &&& root.accepts(node.moves)
    &&& root.play(node.moves) == at(root, node.rows)
    &&& seen.contains(node.rows)
}

/// Some node of the stack has this state.
pub open spec fn on_stack(stack: Seq<Node>, rows: Rows) -> bool {
    exists|i: int| 0 <= i < stack.len() && (#[trigger] stack[i]).rows == rows
}

/// Every node on the stack is sound and every seen state is a grid.
pub open spec fn sound(root: Board, seen: Set<Rows>, stack: Seq<Node>) -> bool {
    &&& forall|i: int| 0 <= i < stack.len() ==> node_sound(root, seen, #[trigger] stack[i])
    &&& forall|rows: Rows| #[trigger] seen.contains(rows) ==> at(root, rows).wf()
}

/// What holds of the search as long as it has found no solution.
pub open spec fn frontier(root: Board, seen: Set<Rows>, stack: Seq<Node>) -> bool {
    &&& expanded(root, seen)
    &&& forall|rows: Rows| #[trigger]
        seen.contains(rows) ==> on_stack(stack, rows) || closed(at(root, rows), seen)
    &&& forall|i: int| 0 <= i < stack.len() ==> typed(root, seen, #[trigger] stack[i])
}

/// `node` is a successor of `parent` that had not been seen, with the moves
/// of `parent` and the one that led to it.
pub open spec fn is_child(parent: Board, moves: Seq<u8>, seen: Set<Rows>, node: Node) -> bool {
    exists|c: u8| #[trigger]
        parent.is_move(c) && node.moves == moves.push(c) && node.rows == parent.flood(c).rows
            && !seen.contains(node.rows)
}

/// What the expansion of a state does to the set of seen states and to the
/// stack: every successor is seen afterwards, and exactly those that were
/// new have been pushed.
pub open spec fn grown(
    parent: Board,
    moves: Seq<u8>,
    seen: Set<Rows>,
    seen_after: Set<Rows>,
    stack: Seq<Node>,
    stack_after: Seq<Node>,
) -> bool {
    &&& stack.len() <= stack_after.len()
    &&& forall|i: int| 0 <= i < stack.len() ==> #[trigger] stack_after[i] == stack[i]
    &&& forall|i: int|
        stack.len() <= i < stack_after.len() ==> is_child(
            parent,
            moves,
            seen,
            #[trigger] stack_after[i],
        )
    &&& seen.subset_of(seen_after)
    &&& expanded(parent, seen_after)
    &&& forall|rows: Rows| #[trigger]
        seen_after.contains(rows) && !seen.contains(rows) ==> on_stack(
            stack_after.skip(stack.len() as int),
            rows,
        )
}

/// What the expansion of a state has done once it has tried the colors
/// below `upto`.
pub open spec fn grown_upto(
    parent: Board,
    moves: Seq<u8>,
    seen: Set<Rows>,
    seen_after: Set<Rows>,
    stack: Seq<Node>,
    stack_after: Seq<Node>,
    upto: int,
) -> bool {
    &&& stack.len() <= stack_after.len()
    &&& forall|i: int| 0 <= i < stack.len() ==> #[trigger] stack_after[i] == stack[i]
    &&& forall|i: int|
        stack.len() <= i < stack_after.len() ==> is_child(
            parent,
            moves,
            seen,
            #[trigger] stack_after[i],
        )
    &&& seen.subset_of(seen_after)
    &&& forall|c: u8| #[trigger] parent.is_move(c) && c < upto ==> seen_after.contains(
        parent.flood(c).rows,
    )
    &&& forall|rows: Rows| #[trigger]
        seen_after.contains(rows) && !seen.contains(rows) ==> on_stack(
            stack_after.skip(stack.len() as int),
            rows,
        )
}

/// An expansion that has tried every color is done.
pub proof fn lemma_grown_done(
    parent: Board,
    moves: Seq<u8>,
    seen: Set<Rows>,
    seen_after: Set<Rows>,
    stack: Seq<Node>,
    stack_after: Seq<Node>,
    upto: int,
)
    requires
        grown_upto(parent, moves, seen, seen_after, stack, stack_after, upto),
        upto >= parent.color_count,
    ensures
        grown(parent, moves, seen, seen_after, stack, stack_after),
{
    assert forall|c: u8| #[trigger] parent.is_move(c) implies seen_after.contains(
        parent.flood(c).rows,
    ) by {
        assert(parent.is_move(c) && c < upto);
    }
}

/// A color that leads to a state seen before adds nothing.
pub proof fn lemma_grown_stale(
    parent: Board,
    moves: Seq<u8>,
    seen: Set<Rows>,
    seen_after: Set<Rows>,
    stack: Seq<Node>,
    stack_after: Seq<Node>,
    upto: int,
)
    requires
        grown_upto(parent, moves, seen, seen_after, stack, stack_after, upto),
        0 <= upto < 256,
        parent.is_move(upto as u8) ==> seen_after.contains(parent.flood(upto as u8).rows),
    ensures
        grown_upto(parent, moves, seen, seen_after, stack, stack_after, upto + 1),
{
    assert forall|c: u8| #[trigger] parent.is_move(c) && c < upto + 1 implies seen_after.contains(
        parent.flood(c).rows,
    ) by {
        if c < upto {
            assert(parent.is_move(c) && c < upto);
        }
    }
}

/// A color that leads to a new state adds that state to the seen ones and
/// a node for it to the stack.
pub proof fn lemma_grown_fresh(
    parent: Board,
    moves: Seq<u8>,
    seen: Set<Rows>,
    seen_after: Set<Rows>,
    stack: Seq<Node>,
    stack_after: Seq<Node>,
    color: u8,
    node: Node,
)
    requires
        grown_upto(parent, moves, seen, seen_after, stack, stack_after, color as int),
        parent.is_move(color),
        node.moves == moves.push(color),
        node.rows == parent.flood(color).rows,
        !seen_after.contains(node.rows),
    ensures
        grown_upto(
            parent,
            moves,
            seen,
            seen_after.insert(node.rows),
            stack,
            stack_after.push(node),
            color + 1,
        ),
{
    let wider = seen_after.insert(node.rows);
    let longer = stack_after.push(node);
    assert forall|i: int| stack.len() <= i < longer.len() implies is_child(
        parent,
        moves,
        seen,
        #[trigger] longer[i],
    ) by {
        if i < stack_after.len() {
            assert(longer[i] == stack_after[i]);
        } else {
            assert(parent.is_move(color));
        }
    }
    assert forall|c: u8| #[trigger] parent.is_move(c) && c < color + 1 implies wider.contains(
        parent.flood(c).rows,
    ) by {
        if c < color {
            assert(parent.is_move(c) && c < color as int);
        }
    }
    assert forall|rows: Rows| #[trigger] wider.contains(rows) && !seen.contains(
        rows,
    ) implies on_stack(longer.skip(stack.len() as int), rows) by {
        let tail = stack_after.skip(stack.len() as int);
        let tail_after = longer.skip(stack.len() as int);
        if rows == node.rows {
            assert(tail_after[tail_after.len() - 1] == node);
        } else {
            assert(seen_after.contains(rows));
            let k = choose|k: int| 0 <= k < tail.len() && (#[trigger] tail[k]).rows == rows;
            assert(tail_after[k] == tail[k]);
        }
    }
}

/// Dropping the node on top of the stack keeps the others sound.
pub proof fn lemma_sound_popped(root: Board, seen: Set<Rows>, stack: Seq<Node>)
    requires
        stack.len() > 0,
        sound(root, seen, stack),
    ensures
        sound(root, seen, stack.drop_last()),
        node_sound(root, seen, stack.last()),
        at(root, stack.last().rows).wf(),
{
    let rest = stack.drop_last();
    assert forall|i: int| 0 <= i < rest.len() implies node_sound(root, seen, #[trigger] rest[i]) by {
        assert(rest[i] == stack[i]);
    }
    assert(stack[stack.len() - 1] == stack.last());
}

/// Expanding a sound node leaves a sound stack.
pub proof fn lemma_sound_expanded(
    root: Board,
    seen: Set<Rows>,
    seen_after: Set<Rows>,
    top: Node,
    rest: Seq<Node>,
    stack_after: Seq<Node>,
)
    requires
        root.wf(),
        sound(root, seen, rest),
        node_sound(root, seen, top),
        grown(at(root, top.rows), top.moves, seen, seen_after, rest, stack_after),
    ensures
        sound(root, seen_after, stack_after),
{
    let b = at(root, top.rows);
    lemma_play_wf(root, top.moves);
    assert forall|i: int| 0 <= i < stack_after.len() implies node_sound(
        root,
        seen_after,
        #[trigger] stack_after[i],
    ) by {
        let node = stack_after[i];
        if i < rest.len() {
            assert(node == rest[i]);
            assert(node_sound(root, seen, rest[i]));
        } else {
            assert(is_child(b, top.moves, seen, node));
            let c = choose|c: u8| #[trigger]
                b.is_move(c) && node.moves == top.moves.push(c) && node.rows == b.flood(c).rows
                    && !seen.contains(node.rows);
            assert(b.is_move(c));
            assert(seen_after.contains(b.flood(c).rows));
            lemma_child_sound(root, seen_after, top.moves, node, c);
        }
    }
    assert forall|rows: Rows| #[trigger] seen_after.contains(rows) implies at(root, rows).wf() by {
        if !seen.contains(rows) {
            let tail = stack_after.skip(rest.len() as int);
            assert(on_stack(tail, rows));
            let k = choose|k: int| 0 <= k < tail.len() && (#[trigger] tail[k]).rows == rows;
            let i = rest.len() + k;
            assert(stack_after[i].rows == rows);
            assert(is_child(b, top.moves, seen, stack_after[i]));
            let c = choose|c: u8| #[trigger]
                b.is_move(c) && stack_after[i].moves == top.moves.push(c) && stack_after[i].rows
                    == b.flood(c).rows && !seen.contains(stack_after[i].rows);
            lemma_flood_wf(b, c);
            assert(at(root, rows) == b.flood(c));
        }
    }
}

proof fn lemma_typed_monotone(root: Board, seen: Set<Rows>, seen_after: Set<Rows>, node: Node)
    requires
        typed(root, seen, node),
        seen.subset_of(seen_after),
    ensures
        typed(root, seen_after, node),
{
    let b = at(root, node.rows);
    if closed(b, seen) {
        assert forall|c: u8| #[trigger] b.is_move(c) implies seen_after.contains(
            b.flood(c).rows,
        ) by {
            assert(seen.contains(b.flood(c).rows));
        }
    } else if node.moves.len() == 1 && rooted(b, seen, root) {
        assert forall|c: u8| #[trigger] b.is_move(c) implies seen_after.contains(b.flood(c).rows)
            || b.flood(c).rows == root.rows by {
            if seen.contains(b.flood(c).rows) {
            }
        }
    }
}

/// A fill that leaves the region as it was leaves the grid incomplete and
/// opens no way that the grid before it did not have.
proof fn lemma_steady_child(b: Board, color: u8)
    requires
        b.wf(),
        !b.is_complete(),
        b.is_move(color),
        b.flood(color).region_size() <= b.region_size(),
    ensures
        !b.flood(color).is_complete(),
        forall|next: u8| #[trigger] b.flood(color).flood(next) == b.flood(next),
{
    let f = b.flood(color);
    lemma_flood_grows_or_stays(b, color);
    assert(!f.is_complete()) by {
        lemma_flood_wf(b, color);
        lemma_complete_is_full_region(b);
        let cell = choose|cell: Cell| b.has(cell) && !#[trigger] b.in_region(cell);
        assert(f.has(cell));
        assert(!f.in_region(cell));
        lemma_complete_is_full_region(f);
    }
    assert forall|next: u8| #[trigger] f.flood(next) == b.flood(next) by {
        lemma_steady_fill(b, color, next);
    }
}

/// A new successor of a node that the search expands is typed.
proof fn lemma_child_typed(
    root: Board,
    seen: Set<Rows>,
    seen_after: Set<Rows>,
    parent: Node,
    child: Node,
    color: u8,
)
    requires
        root.wf(),
        !root.is_complete(),
        expanded(root, seen_after),
        node_sound(root, seen, parent),
        typed(root, seen, parent),
        at(root, parent.rows).wf(),
        !at(root, parent.rows).is_complete(),
        seen.subset_of(seen_after),
        expanded(at(root, parent.rows), seen_after),
        at(root, parent.rows).is_move(color),
        child.moves == parent.moves.push(color),
        child.rows == at(root, parent.rows).flood(color).rows,
        !seen.contains(child.rows),
    ensures
        typed(root, seen_after, child),
{
    let b = at(root, parent.rows);
    let f = b.flood(color);
    assert(at(root, child.rows) == f);
    lemma_flood_wf(b, color);
    if closed(b, seen) {
        assert(b.is_move(color));
        assert(false);
    } else if parent.moves.len() == 1 && rooted(b, seen, root) {
        assert(b.is_move(color));
        assert(f.rows == root.rows);
        assert(f == root);
        assert(closed(f, seen_after));
    } else {
        assert(b.region_size() >= parent.moves.len() + root.region_size());
        if f.region_size() > b.region_size() {
        } else {
            lemma_steady_child(b, color);
            assert forall|next: u8| #[trigger] f.is_move(next) implies seen_after.contains(
                f.flood(next).rows,
            ) by {
                assert(f.flood(next) == b.flood(next));
                if next == b.origin_color() {
                    lemma_flood_same_color(b);
                    assert(seen.contains(parent.rows));
                } else {
                    assert(b.is_move(next));
                }
            }
            assert(closed(f, seen_after));
        }
    }
}

/// A successor of the first grid is typed once all of them are seen.
proof fn lemma_seed_typed(root: Board, seen_after: Set<Rows>, child: Node, color: u8)
    requires
        root.wf(),
        !root.is_complete(),
        expanded(root, seen_after),
        root.is_move(color),
        child.moves == Seq::<u8>::empty().push(color),
        child.rows == root.flood(color).rows,
    ensures
        typed(root, seen_after, child),
{
    let f = root.flood(color);
    assert(at(root, child.rows) == f);
    lemma_flood_wf(root, color);
    lemma_region_size_bounds(root);
    if f.region_size() > root.region_size() {
    } else {
        lemma_steady_child(root, color);
        assert forall|next: u8| #[trigger] f.is_move(next) implies seen_after.contains(
            f.flood(next).rows,
        ) || f.flood(next).rows == root.rows by {
            assert(f.flood(next) == root.flood(next));
            if next == root.origin_color() {
                lemma_flood_same_color(root);
            } else {
                assert(root.is_move(next));
            }
        }
        assert(rooted(f, seen_after, root));
    }
}

/// A successor of a sound node, with the move that led to it, is sound.
proof fn lemma_child_sound(
    root: Board,
    seen_after: Set<Rows>,
    moves: Seq<u8>,
    child: Node,
    color: u8,
)
    requires
        root.wf(),
        root.accepts(moves),
        root.play(moves).is_move(color),
        child.moves == moves.push(color),
        child.rows == root.play(moves).flood(color).rows,
        seen_after.contains(child.rows),
    ensures
        node_sound(root, seen_after, child),
{
    lemma_play_wf(root, moves);
    lemma_accepts_push(root, moves, color);
    lemma_play_push(root, moves, color);
}

/// The invariants hold once the successors of the first grid are on the
/// stack.
pub proof fn lemma_frontier_seeded(root: Board, seen: Set<Rows>, stack: Seq<Node>)
    requires
        root.wf(),
        !root.is_complete(),
        grown(
            root,
            Seq::<u8>::empty(),
            Set::<Rows>::empty(),
            seen,
            Seq::<Node>::empty(),
            stack,
        ),
    ensures
        frontier(root, seen, stack),
        sound(root, seen, stack),
{
    let nothing = Set::<Rows>::empty();
    let no_moves = Seq::<u8>::empty();
    assert(root.accepts(no_moves));
    assert(root.play(no_moves) == root);
    assert forall|i: int| 0 <= i < stack.len() implies typed(root, seen, #[trigger] stack[i])
        && node_sound(root, seen, stack[i]) by {
        let node = stack[i];
        assert(is_child(root, no_moves, nothing, node));
        let c = choose|c: u8| #[trigger]
            root.is_move(c) && node.moves == no_moves.push(c) && node.rows == root.flood(c).rows
                && !nothing.contains(node.rows);
        lemma_seed_typed(root, seen, node, c);
        assert(root.is_move(c));
        lemma_child_sound(root, seen, no_moves, node, c);
    }
    assert forall|rows: Rows| #[trigger] seen.contains(rows) implies on_stack(stack, rows) && at(
        root,
        rows,
    ).wf() by {
        let tail = stack.skip(0);
        assert(on_stack(tail, rows));
        let i = choose|i: int| 0 <= i < tail.len() && (#[trigger] tail[i]).rows == rows;
        assert(stack[i].rows == rows);
        assert(is_child(root, no_moves, nothing, stack[i]));
        let c = choose|c: u8| #[trigger]
            root.is_move(c) && stack[i].moves == no_moves.push(c) && stack[i].rows == root.flood(
                c,
            ).rows && !nothing.contains(stack[i].rows);
        lemma_flood_wf(root, c);
        assert(at(root, rows) == root.flood(c));
    }
}

/// The invariants hold after the search has expanded the node on top of the
/// stack.
pub proof fn lemma_frontier_expanded(
    root: Board,
    seen: Set<Rows>,
    seen_after: Set<Rows>,
    stack: Seq<Node>,
    stack_after: Seq<Node>,
)
    requires
        root.wf(),
        !root.is_complete(),
        stack.len() > 0,
        frontier(root, seen, stack),
        sound(root, seen, stack),
        !at(root, stack.last().rows).is_complete(),
        grown(
            at(root, stack.last().rows),
            stack.last().moves,
            seen,
            seen_after,
            stack.drop_last(),
            stack_after,
        ),
    ensures
        frontier(root, seen_after, stack_after),
        sound(root, seen_after, stack_after),
{
    let top = stack.last();
    let rest = stack.drop_last();
    let b = at(root, top.rows);
    assert(stack[stack.len() - 1] == top);
    assert(node_sound(root, seen, top));
    assert(typed(root, seen, top));
    assert(b.wf());
    assert(expanded(root, seen_after)) by {
        assert forall|c: u8| #[trigger] root.is_move(c) implies seen_after.contains(
            root.flood(c).rows,
        ) by {
            assert(seen.contains(root.flood(c).rows));
        }
    }
    assert forall|i: int| 0 <= i < stack_after.len() implies typed(
        root,
        seen_after,
        #[trigger] stack_after[i],
    ) && node_sound(root, seen_after, stack_after[i]) by {
        let node = stack_after[i];
        if i < rest.len() {
            assert(node == rest[i]);
            assert(rest[i] == stack[i]);
            lemma_typed_monotone(root, seen, seen_after, node);
            assert(node_sound(root, seen, stack[i]));
        } else {
            assert(is_child(b, top.moves, seen, node));
            let c = choose|c: u8| #[trigger]
                b.is_move(c) && node.moves == top.moves.push(c) && node.rows == b.flood(c).rows
                    && !seen.contains(node.rows);
            lemma_child_typed(root, seen, seen_after, top, node, c);
            assert(b.is_move(c));
            assert(seen_after.contains(b.flood(c).rows));
            lemma_child_sound(root, seen_after, top.moves, node, c);
        }
    }
    assert forall|rows: Rows| #[trigger] seen_after.contains(rows) implies (on_stack(
        stack_after,
        rows,
    ) || closed(at(root, rows), seen_after)) && at(root, rows).wf() by {
        if seen.contains(rows) {
            if on_stack(stack, rows) {
                let i = choose|i: int| 0 <= i < stack.len() && (#[trigger] stack[i]).rows == rows;
                if i < rest.len() {
                    assert(stack_after[i] == rest[i]);
                    assert(rest[i] == stack[i]);
                    assert(on_stack(stack_after, rows));
                } else {
                    assert(rows == top.rows);
                    assert(closed(b, seen_after));
                }
            } else {
                let v = at(root, rows);
                assert(closed(v, seen));
                assert forall|c: u8| #[trigger] v.is_move(c) implies seen_after.contains(
                    v.flood(c).rows,
                ) by {
                    assert(seen.contains(v.flood(c).rows));
                }
            }
        } else {
            let tail = stack_after.skip(rest.len() as int);
            assert(on_stack(tail, rows));
            let k = choose|k: int| 0 <= k < tail.len() && (#[trigger] tail[k]).rows == rows;
            let i = rest.len() + k;
            assert(stack_after[i].rows == rows);
            assert(on_stack(stack_after, rows));
            assert(is_child(b, top.moves, seen, stack_after[i]));
            let c = choose|c: u8| #[trigger]
                b.is_move(c) && stack_after[i].moves == top.moves.push(c) && stack_after[i].rows
                    == b.flood(c).rows && !seen.contains(stack_after[i].rows);
            lemma_flood_wf(b, c);
            assert(at(root, rows) == b.flood(c));
        }
    }
}

/// The invariants hold after the search has dropped a node that has as many
/// moves as the grid has cells.
pub proof fn lemma_frontier_pruned(root: Board, seen: Set<Rows>, stack: Seq<Node>)
    requires
        root.wf(),
        !root.is_complete(),
        stack.len() > 0,
        frontier(root, seen, stack),
        sound(root, seen, stack),
        stack.last().moves.len() >= root.cell_count(),
    ensures
        frontier(root, seen, stack.drop_last()),
        sound(root, seen, stack.drop_last()),
{
    let top = stack.last();
    let rest = stack.drop_last();
    let b = at(root, top.rows);
    assert(stack[stack.len() - 1] == top);
    assert(node_sound(root, seen, top));
    assert(typed(root, seen, top));
    lemma_region_size_bounds(b);
    lemma_region_size_bounds(root);
    lemma_incomplete_has_two_cells(root);
    assert(closed(b, seen));
    assert forall|i: int| 0 <= i < rest.len() implies typed(root, seen, #[trigger] rest[i])
        && node_sound(root, seen, rest[i]) by {
        assert(rest[i] == stack[i]);
    }
    assert forall|rows: Rows| #[trigger] seen.contains(rows) implies on_stack(rest, rows)
        || closed(at(root, rows), seen) by {
        if on_stack(stack, rows) {
            let i = choose|i: int| 0 <= i < stack.len() && (#[trigger] stack[i]).rows == rows;
            if i < rest.len() {
                assert(rest[i] == stack[i]);
            }
        }
    }
}

/// A complete node on the stack has no more moves than the first grid has
/// cells outside the region of its top-left cell.
pub proof fn lemma_complete_node_short(root: Board, seen: Set<Rows>, stack: Seq<Node>)
    requires
        root.wf(),
        !root.is_complete(),
        stack.len() > 0,
        frontier(root, seen, stack),
        sound(root, seen, stack),
        at(root, stack.last().rows).is_complete(),
    ensures
        stack.last().moves.len() + root.region_size() <= root.cell_count(),
{
    let top = stack.last();
    assert(stack[stack.len() - 1] == top);
    assert(node_sound(root, seen, top));
    assert(typed(root, seen, top));
    lemma_region_size_bounds(at(root, top.rows));
}

/// Not every seen state can be closed: from a closed state a move leads to
/// a seen state with a larger region, and regions cannot grow for ever.
proof fn lemma_open_state_exists(root: Board, seen: Set<Rows>, rows: Rows)
    requires
        root.wf(),
        seen.contains(rows),
        forall|held: Rows| #[trigger] seen.contains(held) ==> at(root, held).wf(),
    ensures
        exists|held: Rows| #[trigger] seen.contains(held) && !closed(at(root, held), seen),
    decreases root.cell_count() - at(root, rows).region_size(),
{
    let b = at(root, rows);
    if closed(b, seen) {
        lemma_region_size_bounds(b);
        let c = lemma_growing_move_exists(b);
        assert(b.is_move(c));
        let f = b.flood(c);
        assert(seen.contains(f.rows));
        assert(at(root, f.rows) == f);
        lemma_region_size_bounds(f);
        lemma_open_state_exists(root, seen, f.rows);
    }
}

/// As long as no solution has been found the stack is not empty.
pub proof fn lemma_frontier_not_empty(root: Board, seen: Set<Rows>, stack: Seq<Node>)
    requires
        root.wf(),
        !root.is_complete(),
        frontier(root, seen, stack),
        sound(root, seen, stack),
    ensures
        stack.len() > 0,
{
    if stack.len() == 0 {
        let c = lemma_growing_move_exists(root);
        assert(root.is_move(c));
        let first = root.flood(c).rows;
        assert(seen.contains(first));
        lemma_open_state_exists(root, seen, first);
        let open = choose|held: Rows| #[trigger]
            seen.contains(held) && !closed(at(root, held), seen);
        assert(!on_stack(stack, open));
    }
}

/// Some node on the stack is complete after a single move.
pub open spec fn quick_pending(root: Board, stack: Seq<Node>) -> bool {
    exists|i: int|
        0 <= i < stack.len() && (#[trigger] stack[i]).moves.len() == 1 && at(
            root,
            stack[i].rows,
        ).is_complete()
}

/// If one move completes the first grid, the state it leads to is on the
/// stack once the successors of the first grid are.
pub proof fn lemma_quick_seeded(root: Board, seen: Set<Rows>, stack: Seq<Node>)
    requires
        root.wf(),
        root.one_move_away(),
        grown(
            root,
            Seq::<u8>::empty(),
            Set::<Rows>::empty(),
            seen,
            Seq::<Node>::empty(),
            stack,
        ),
    ensures
        quick_pending(root, stack),
{
    let c = choose|c: u8| #[trigger] root.is_move(c) && root.flood(c).is_complete();
    let rows = root.flood(c).rows;
    assert(root.is_move(c));
    assert(seen.contains(rows));
    let tail = stack.skip(0);
    assert(on_stack(tail, rows));
    let i = choose|i: int| 0 <= i < tail.len() && (#[trigger] tail[i]).rows == rows;
    assert(stack[i].rows == rows);
    assert(is_child(root, Seq::<u8>::empty(), Set::<Rows>::empty(), stack[i]));
    assert(at(root, rows) == root.flood(c));
}

/// Dropping any other node leaves the quick solution on the stack.
pub proof fn lemma_quick_popped(root: Board, stack: Seq<Node>)
    requires
        quick_pending(root, stack),
        stack.len() > 0,
        stack.last().moves.len() != 1 || !at(root, stack.last().rows).is_complete(),
    ensures
        quick_pending(root, stack.drop_last()),
{
    let i = choose|i: int|
        0 <= i < stack.len() && (#[trigger] stack[i]).moves.len() == 1 && at(
            root,
            stack[i].rows,
        ).is_complete();
    assert(stack.drop_last()[i] == stack[i]);
}

/// Pushing nodes leaves the quick solution on the stack.
pub proof fn lemma_quick_extended(root: Board, stack: Seq<Node>, stack_after: Seq<Node>)
    requires
        quick_pending(root, stack),
        stack.len() <= stack_after.len(),
        forall|i: int| 0 <= i < stack.len() ==> #[trigger] stack_after[i] == stack[i],
    ensures
        quick_pending(root, stack_after),
{
    let i = choose|i: int|
        0 <= i < stack.len() && (#[trigger] stack[i]).moves.len() == 1 && at(
            root,
            stack[i].rows,
        ).is_complete();
    assert(stack_after[i] == stack[i]);
}

} // verus!
