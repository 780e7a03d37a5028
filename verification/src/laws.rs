//! Laws that relate several operations of the board, stated over the
//! same model that the operations' own contracts use.

use vstd::prelude::*;
use crate::board::{Board, SwapRule};
use crate::matching::{spec_first_match, spec_pattern_matches_at, Match};
use crate::piece::{Direction, DirectionSet, Piece, PieceType};
use crate::position::Pos;

verus! {

/// What one `set_piece` call promises of its board: the call returned
/// the cell's previous piece, wrote the new one, left every other cell
/// alone, and appended the cell to the change queue.
pub open spec fn spec_set_piece_post<R: SwapRule>(
    pre: Board<R>,
    post: Board<R>,
    pos: Pos,
    piece: Piece,
    returned: Piece,
) -> bool {
    &&& returned == pre.piece_at_pos(pos)
    &&& post.piece_at_pos(pos) == piece
    &&& (forall|x: int, y: int|
        !(x == pos.x as int && y == pos.y as int) ==> (#[trigger] post.piece_at(x, y))
            == pre.piece_at(x, y))
    &&& post.queue() == pre.queue().push(pos)
}

/// Overwriting a cell twice hands the first overwrite back: after
/// `set_piece(pos, first)`, an immediate `set_piece(pos, second)`
/// returns a piece equal to `first`.
pub proof fn lemma_set_overwrite_returns_previous<R: SwapRule>(
    board0: Board<R>,
    board1: Board<R>,
    board2: Board<R>,
    pos: Pos,
    first: Piece,
    second: Piece,
    returned1: Piece,
    returned2: Piece,
)
    requires
        spec_set_piece_post(board0, board1, pos, first, returned1),
        spec_set_piece_post(board1, board2, pos, second, returned2),
    ensures
        returned2 == first,
{
}

/// A regular piece that is not movable north can never swap with the
/// cell directly above it: the built-in movability rule refuses, so
/// `swap_pieces` returns false and changes nothing, whatever the other
/// cell holds and whatever user rules are registered.
pub proof fn lemma_movability_gating<R: SwapRule>(
    board: Board<R>,
    pos: Pos,
    above: Pos,
    piece_type: PieceType,
    directions: DirectionSet,
)
    requires
        board.piece_at_pos(pos) == Piece::Regular(piece_type, directions),
        !directions.north,
        above.x == pos.x,
        above.y == pos.y + 1,
    ensures
        !board.spec_are_pieces_movable(pos, above),
{
    assert(!board.piece_at_pos(pos).spec_is_movable(Direction::North));
    assert(!board.spec_vertically_movable(pos, above));
}

/// The change queue keeps arrival order: three `set_piece` calls
/// enqueue their positions back to back after everything already
/// pending, the first strictly before the second before the third, and
/// enqueueing the third never reorders the first two.
pub proof fn lemma_queue_order<R: SwapRule>(
    board0: Board<R>,
    board1: Board<R>,
    board2: Board<R>,
    board3: Board<R>,
    first: Pos,
    second: Pos,
    third: Pos,
    piece1: Piece,
    piece2: Piece,
    piece3: Piece,
    returned1: Piece,
    returned2: Piece,
    returned3: Piece,
)
    requires
        spec_set_piece_post(board0, board1, first, piece1, returned1),
        spec_set_piece_post(board1, board2, second, piece2, returned2),
        spec_set_piece_post(board2, board3, third, piece3, returned3),
    ensures
        board3.queue() == board0.queue().push(first).push(second).push(third),
        board3.queue().len() == board0.queue().len() + 3,
        board3.queue()[board0.queue().len() as int] == first,
        board3.queue()[board0.queue().len() as int + 1] == second,
        board3.queue()[board0.queue().len() as int + 2] == third,
        forall|k: int|
            0 <= k < board0.queue().len() ==> (#[trigger] board3.queue()[k])
                == board0.queue()[k],
{
}

/// A reported match always carries the best rank on offer: no
/// registered pattern that also matches at the reported changed
/// position outranks the reported pattern.
pub proof fn lemma_match_rank_precedence<R: SwapRule>(board: Board<R>, m: Match, pi: int)
    requires
        board.wf(),
        spec_first_match(board, m),
        0 <= pi < board.spec_patterns().len(),
        spec_pattern_matches_at(board, board.spec_patterns()[pi], m.changed_pos),
    ensures
        m.pattern.rank >= board.spec_patterns()[pi].rank,
{
    board.lemma_patterns_sorted();
    let pj = choose|pj: int|
        #![auto]
        0 <= pj < board.spec_patterns().len() && crate::matching::spec_pattern_like(
            board.spec_patterns()[pj],
            m.pattern,
        ) && spec_pattern_matches_at(board, board.spec_patterns()[pj], m.changed_pos) && (forall|
            pk: int,
        |
            0 <= pk < pj ==> !spec_pattern_matches_at(
                board,
                #[trigger] board.spec_patterns()[pk],
                m.changed_pos,
            )) && crate::matching::spec_match_valid(board, m);
    assert(pj <= pi);
    assert(board.spec_patterns()[pj].rank >= board.spec_patterns()[pi].rank);
    assert(m.pattern.rank == board.spec_patterns()[pj].rank);
}

} // verus!
