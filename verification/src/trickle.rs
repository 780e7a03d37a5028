//! The gravity ("trickle") engine: column compaction and diagonal
//! diffusion that move pieces down into vacated space.

use vstd::prelude::*;
use std::collections::VecDeque;
use crate::board::{Board, SwapRule};
use crate::laws::spec_set_piece_post;
use crate::piece::{Direction, Piece};
use crate::position::Pos;

verus! {

/// The cell (x, y) holds a regular piece that is movable south.
pub open spec fn spec_south_mover<R: SwapRule>(board: Board<R>, x: int, y: int) -> bool {
    board.piece_at(x, y) matches Piece::Regular(_, d) && d.south
}

/// No single-step fall is available at (x, y): if a south-movable
/// regular piece sits there, the cell directly beneath it is not empty.
pub open spec fn spec_cell_settled<R: SwapRule>(board: Board<R>, x: int, y: int) -> bool {
    spec_south_mover(board, x, y) ==> (y == 0 || board.piece_at(x, y - 1) != Piece::Empty)
}

/// Every cell of column x is settled.
pub open spec fn spec_column_settled<R: SwapRule>(board: Board<R>, x: int) -> bool {
    forall|y: int| 0 <= y < board.spec_height() ==> #[trigger] spec_cell_settled(board, x, y)
}

/// Every cell of the board is settled: gravity has no single-step fall
/// left anywhere.
pub open spec fn spec_settled<R: SwapRule>(board: Board<R>) -> bool {
    forall|x: int, y: int|
        board.in_bounds_xy(x, y) ==> #[trigger] spec_cell_settled(board, x, y)
}

/// Gravity neither creates nor destroys walls: each cell of `b` is a
/// wall exactly when the same cell of `a` is.
pub open spec fn spec_same_walls<R: SwapRule>(a: Board<R>, b: Board<R>) -> bool {
    forall|x: int, y: int| ((#[trigger] b.piece_at(x, y)) is Wall) == (a.piece_at(x, y) is Wall)
}

/// A maximal straight fall from `from` to `to` is open on `pre`: the
/// cells are in the same column, the piece at `from` is movable south,
/// every cell from `to` up to just below `from` is empty, and the cell
/// beneath `to` is not.
pub open spec fn spec_fall_step<R: SwapRule>(pre: Board<R>, from: Pos, to: Pos) -> bool {
    &&& pre.in_bounds(from)
    &&& pre.in_bounds(to)
    &&& to.x == from.x
    &&& (to.y as int) < from.y as int
    &&& pre.piece_at_pos(from) != Piece::Empty
    &&& pre.piece_at_pos(from).spec_is_movable(Direction::South)
    &&& (forall|yy: int|
        to.y as int <= yy < from.y as int ==> #[trigger] pre.piece_at(from.x as int, yy)
            == Piece::Empty)
    &&& (to.y as int == 0 || pre.piece_at(to.x as int, to.y as int - 1) != Piece::Empty)
}

/// A one-step diagonal slide from `from` to `to` is open on `pre`: the
/// destination is the cell one down and one sideways, and that
/// direction's diagonal conditions hold for the piece at `from`.
pub open spec fn spec_diagonal_move<R: SwapRule>(pre: Board<R>, from: Pos, to: Pos) -> bool {
    &&& pre.in_bounds(from)
    &&& pre.piece_at_pos(from) != Piece::Empty
    &&& to.y as int == from.y as int - 1
    &&& ((to.x as int == from.x as int - 1 && pre.spec_diagonal_ok(from, true)) || (to.x as int
        == from.x as int + 1 && pre.spec_diagonal_ok(from, false)))
}

/// `post` is `pre` with the piece at `from` moved into the empty cell
/// `to`: the two cells exchanged, both enqueued in that order, and
/// everything else equal.
pub open spec fn spec_move_applied<R: SwapRule>(
    pre: Board<R>,
    post: Board<R>,
    from: Pos,
    to: Pos,
) -> bool {
    &&& post.spec_width() == pre.spec_width()
    &&& post.spec_height() == pre.spec_height()
    &&& post.spec_patterns() == pre.spec_patterns()
    &&& post.spec_rules() == pre.spec_rules()
    &&& post.piece_at_pos(to) == pre.piece_at_pos(from)
    &&& post.piece_at_pos(from) == Piece::Empty
    &&& (forall|x: int, y: int|
        !(x == from.x as int && y == from.y as int) && !(x == to.x as int && y == to.y as int)
            ==> (#[trigger] post.piece_at(x, y)) == pre.piece_at(x, y))
    &&& post.queue() == pre.queue().push(from).push(to)
}

/// One legal gravity move — a maximal straight fall or a one-step
/// diagonal slide — performed on the board.
pub open spec fn spec_gravity_step<R: SwapRule>(
    pre: Board<R>,
    post: Board<R>,
    from: Pos,
    to: Pos,
) -> bool {
    &&& (spec_fall_step(pre, from, to) || spec_diagonal_move(pre, from, to))
    &&& spec_move_applied(pre, post, from, to)
}

/// Two boards with the same dimensions, patterns, rules, cell contents
/// and change queue.
pub open spec fn spec_boards_match<R: SwapRule>(a: Board<R>, b: Board<R>) -> bool {
    &&& b.spec_width() == a.spec_width()
    &&& b.spec_height() == a.spec_height()
    &&& b.spec_patterns() == a.spec_patterns()
    &&& b.spec_rules() == a.spec_rules()
    &&& (forall|x: int, y: int| (#[trigger] b.piece_at(x, y)) == a.piece_at(x, y))
    &&& b.queue() == a.queue()
}

/// The moves, performed in order starting from `pre`, are each a legal
/// gravity move on the board reached so far and lead exactly to
/// `post`, enqueueing both cells of every move along the way.
pub open spec fn spec_gravity_chain<R: SwapRule>(
    pre: Board<R>,
    post: Board<R>,
    moves: Seq<(Pos, Pos)>,
) -> bool
    decreases moves.len(),
{
    if moves.len() == 0 {
        spec_boards_match(pre, post)
    } else {
        exists|mid: Board<R>|
            #[trigger] spec_gravity_step(pre, mid, moves[0].0, moves[0].1) && spec_gravity_chain(
                mid,
                post,
                moves.drop_first(),
            )
    }
}

/// Vacating `pos` cannot leave a fall available above it: the cell
/// directly above `pos` is empty or holds no south-movable piece.
pub open spec fn spec_above_free<R: SwapRule>(board: Board<R>, pos: Pos) -> bool {
    ||| board.piece_at(pos.x as int, pos.y as int + 1) == Piece::Empty
    ||| !spec_south_mover(board, pos.x as int, pos.y as int + 1)
}

impl<R: SwapRule> Board<R> {
    /// Moves the pieces of column x down to fill the empty cells
    /// beneath them, bottom row first.
    ///
    /// A FIFO of empty rows seen so far is kept while scanning upward.
    /// A south-movable piece drops into the oldest queued empty row
    /// (unconditionally: gravity bypasses the swap-rule chain) and its
    /// vacated row joins the queue; a cell that is neither empty nor
    /// south-movable blocks everything above it from compacting past
    /// it. Each drop is recorded in `moves`.
    pub fn trickle_column(&mut self, x: i32, moves: &mut Vec<(Pos, Pos)>)
        requires
            old(self).wf(),
            0 <= x < old(self).spec_width(),
        ensures
            final(self).wf(),
            final(self).spec_width() == old(self).spec_width(),
            final(self).spec_height() == old(self).spec_height(),
            final(self).spec_patterns() == old(self).spec_patterns(),
            final(self).spec_rules() == old(self).spec_rules(),
            spec_column_settled(*final(self), x as int),
            spec_same_walls(*old(self), *final(self)),
            final(self).spec_cells().to_multiset() == old(self).spec_cells().to_multiset(),
            forall|x2: int, y2: int|
                x2 != x as int ==> (#[trigger] final(self).piece_at(x2, y2)) == old(
                    self,
                ).piece_at(x2, y2),
            final(moves)@.len() == old(moves)@.len() ==> *final(self) == *old(self)
                && spec_column_settled(*old(self), x as int),
            spec_gravity_chain(
                *old(self),
                *final(self),
                final(moves)@.skip(old(moves)@.len() as int),
            ),
            old(self).queue().is_prefix_of(final(self).queue()),
            old(moves)@.is_prefix_of(final(moves)@),
    {
        let height = self.height();
        let mut empty_rows: VecDeque<i32> = VecDeque::new();
        let ghost mut block: int = 0;
        let mut y: i32 = 0;
        while y < height
            invariant
                self.wf(),
                0 <= x, (x as int) < self.spec_width(),
                height as int == self.spec_height(),
                self.spec_width() == old(self).spec_width(),
                self.spec_height() == old(self).spec_height(),
                self.spec_patterns() == old(self).spec_patterns(),
                self.spec_rules() == old(self).spec_rules(),
                0 <= y <= height,
                0 <= block <= y as int,
                old(self).queue().is_prefix_of(self.queue()),
                old(moves)@.is_prefix_of(moves@),
                forall|x2: int, y2: int|
                    x2 != x as int ==> (#[trigger] self.piece_at(x2, y2)) == old(self).piece_at(
                        x2,
                        y2,
                    ),
                forall|k: int|
                    0 <= k < empty_rows@.len() ==> block <= (#[trigger] empty_rows@[k]) as int
                        && (empty_rows@[k] as int) < y as int,
                forall|k: int|
                    0 <= k < empty_rows@.len() ==> self.piece_at(
                        x as int,
                        (#[trigger] empty_rows@[k]) as int,
                    ) == Piece::Empty,
                forall|k1: int, k2: int|
                    0 <= k1 < k2 < empty_rows@.len() ==> (#[trigger] empty_rows@[k1])
                        < (#[trigger] empty_rows@[k2]),
                forall|r: int|
                    block <= r < y as int && (#[trigger] self.piece_at(x as int, r))
                        == Piece::Empty ==> (exists|k: int|
                        0 <= k < empty_rows@.len() && (#[trigger] empty_rows@[k]) as int == r),
                block == 0 || self.piece_at(x as int, block - 1) != Piece::Empty,
                forall|r: int|
                    0 <= r < y as int ==> #[trigger] spec_cell_settled(*self, x as int, r),
                spec_same_walls(*old(self), *self),
                self.spec_cells().to_multiset() == old(self).spec_cells().to_multiset(),
                moves@.len() == old(moves)@.len() ==> *self == *old(self),
                empty_rows@.len() > 0 ==> (forall|r: int|
                    (empty_rows@[0] as int) <= r < y as int ==> #[trigger] self.piece_at(
                        x as int,
                        r,
                    ) == Piece::Empty),
                spec_gravity_chain(*old(self), *self, moves@.skip(old(moves)@.len() as int)),
            decreases height - y,
        {
            let pos = Pos::new(x, y);
            if self.is_empty_cell(pos) {
                let ghost q0 = empty_rows@;
                empty_rows.push_back(y);
                proof {
                    assert forall|r: int|
                        block <= r < y as int + 1 && (#[trigger] self.piece_at(x as int, r))
                            == Piece::Empty implies (exists|k: int|
                        0 <= k < empty_rows@.len() && (#[trigger] empty_rows@[k]) as int == r) by {
                        if r == y as int {
                            assert(empty_rows@[q0.len() as int] == y);
                        } else {
                            let k = choose|k: int|
                                0 <= k < q0.len() && (#[trigger] q0[k]) as int == r;
                            assert(empty_rows@[k] == q0[k]);
                        }
                    }
                }
            } else if self.movable_in(pos, Direction::South) {
                let ghost q_before = empty_rows@;
                let popped = empty_rows.pop_front();
                match popped {
                    Some(space_to_fill) => {
                        let ghost pre = *self;
                        let ghost mv_before = moves@;
                        let f = space_to_fill;
                        let dest = Pos::new(x, f);
                        proof {
                            assert(q_before.len() > 0);
                            assert(f == q_before[0]);
                            assert(block <= f as int && (f as int) < y as int);
                            assert(pre.piece_at(x as int, f as int) == Piece::Empty);
                            assert forall|r: int|
                                block <= r < f as int implies (#[trigger] pre.piece_at(
                                x as int,
                                r,
                            )) != Piece::Empty by {
                                if pre.piece_at(x as int, r) == Piece::Empty {
                                    let k = choose|k: int|
                                        0 <= k < q_before.len() && (#[trigger] q_before[k]) as int
                                            == r;
                                    if k > 0 {
                                        assert(q_before[0] < q_before[k]);
                                    }
                                    assert(false);
                                }
                            }
                        }
                        self.swap_always(pos, dest);
                        moves.push((pos, dest));
                        empty_rows.push_back(y);
                        proof {
                            let ghost tail = q_before.subrange(1, q_before.len() as int);
                            assert(empty_rows@ =~= tail.push(y));
                            lemma_column_drop_step(
                                pre,
                                *self,
                                *old(self),
                                x as int,
                                y as int,
                                f as int,
                                block,
                            );
                            // the moved piece is a regular piece, so row f is no longer empty
                            assert(self.piece_at(x as int, f as int) != Piece::Empty);
                            // neither the vacated row nor the filled one is a wall
                            assert forall|x2: int, y2: int|
                                ((#[trigger] self.piece_at(x2, y2)) is Wall) == (old(
                                self,
                            ).piece_at(x2, y2) is Wall) by {
                                if x2 == x as int && y2 == y as int {
                                    assert(!(pre.piece_at(x2, y2) is Wall));
                                    assert(self.piece_at(x2, y2) == Piece::Empty);
                                } else if x2 == x as int && y2 == f as int {
                                    assert(pre.piece_at(x2, y2) == Piece::Empty);
                                    assert(self.piece_at(x2, y2) == pre.piece_at(
                                        x as int,
                                        y as int,
                                    ));
                                } else {
                                    assert(self.piece_at(x2, y2) == pre.piece_at(x2, y2));
                                }
                                assert((pre.piece_at(x2, y2) is Wall) == (old(self).piece_at(
                                    x2,
                                    y2,
                                ) is Wall));
                            }
                            // queue entries: the old tail plus the vacated row y
                            assert forall|k: int|
                                0 <= k < empty_rows@.len() implies block <= (
                            #[trigger] empty_rows@[k]) as int && (empty_rows@[k] as int) < y as int
                                + 1 by {
                                if k < tail.len() {
                                    assert(empty_rows@[k] == q_before[k + 1]);
                                } else {
                                    assert(empty_rows@[k] == y);
                                }
                            }
                            assert forall|k: int|
                                0 <= k < empty_rows@.len() implies self.piece_at(
                                x as int,
                                (#[trigger] empty_rows@[k]) as int,
                            ) == Piece::Empty by {
                                if k < tail.len() {
                                    assert(empty_rows@[k] == q_before[k + 1]);
                                    assert(q_before[0] < q_before[k + 1]);
                                    assert(empty_rows@[k] != f);
                                    assert(empty_rows@[k] as int != y as int);
                                    assert(pre.piece_at(x as int, empty_rows@[k] as int)
                                        == Piece::Empty);
                                } else {
                                    assert(empty_rows@[k] == y);
                                }
                            }
                            assert forall|k1: int, k2: int|
                                0 <= k1 < k2 < empty_rows@.len() implies (
                            #[trigger] empty_rows@[k1]) < (#[trigger] empty_rows@[k2]) by {
                                if k2 < tail.len() {
                                    assert(empty_rows@[k1] == q_before[k1 + 1]);
                                    assert(empty_rows@[k2] == q_before[k2 + 1]);
                                } else {
                                    assert(empty_rows@[k2] == y);
                                    assert(empty_rows@[k1] == q_before[k1 + 1]);
                                }
                            }
                            assert forall|r: int|
                                block <= r < y as int + 1 && (#[trigger] self.piece_at(
                                    x as int,
                                    r,
                                )) == Piece::Empty implies (exists|k: int|
                                0 <= k < empty_rows@.len() && (#[trigger] empty_rows@[k]) as int
                                    == r) by {
                                if r == y as int {
                                    assert(empty_rows@[empty_rows@.len() - 1] == y);
                                } else {
                                    assert(r != f as int);
                                    assert(self.piece_at(x as int, r) == pre.piece_at(x as int, r));
                                    let k = choose|k: int|
                                        0 <= k < q_before.len() && (#[trigger] q_before[k]) as int
                                            == r;
                                    assert(k > 0);
                                    assert(empty_rows@[k - 1] == q_before[k]);
                                }
                            }
                            assert(old(self).queue().is_prefix_of(self.queue())) by {
                                assert(self.queue() == pre.queue().push(pos).push(dest));
                                assert(self.queue().subrange(0, old(self).queue().len() as int)
                                    =~= old(self).queue()) by {
                                    assert(pre.queue().subrange(
                                        0,
                                        old(self).queue().len() as int,
                                    ) =~= old(self).queue());
                                }
                            }
                            assert(old(moves)@.is_prefix_of(moves@)) by {
                                assert(moves@.subrange(0, old(moves)@.len() as int) =~= old(
                                    moves,
                                )@);
                            }
                            // the drop is a legal maximal straight fall
                            assert(spec_fall_step(pre, pos, dest)) by {
                                assert(pre.piece_at_pos(pos) != Piece::Empty);
                                assert forall|yy: int|
                                    dest.y as int <= yy < pos.y as int implies #[trigger] pre.piece_at(
                                    pos.x as int,
                                    yy,
                                ) == Piece::Empty by {
                                    assert(q_before[0] as int <= yy < y as int);
                                }
                                if f as int > 0 {
                                    if f as int - 1 >= block {
                                        assert(pre.piece_at(x as int, f as int - 1)
                                            != Piece::Empty);
                                    } else {
                                        assert(f as int - 1 == block - 1);
                                    }
                                }
                            }
                            assert(spec_move_applied(pre, *self, pos, dest));
                            lemma_chain_single(pre, *self, pos, dest);
                            assert(moves@.skip(mv_before.len() as int) =~= seq![(pos, dest)]);
                            lemma_chain_extend(
                                *old(self),
                                pre,
                                *self,
                                mv_before,
                                moves@,
                                old(moves)@.len() as int,
                            );
                        }
                    },
                    None => {
                        proof {
                            if y as int > 0 && self.piece_at(x as int, y as int - 1)
                                == Piece::Empty {
                                if y as int - 1 >= block {
                                    assert(false);
                                } else {
                                    assert(y as int - 1 == block - 1);
                                    assert(false);
                                }
                            }
                            assert(spec_cell_settled(*self, x as int, y as int));
                        }
                    },
                }
            } else {
                empty_rows.clear();
                proof {
                    block = y as int + 1;
                    assert(!self.piece_at_pos(pos).spec_is_movable(Direction::South));
                    assert(!spec_south_mover(*self, x as int, y as int));
                    assert(spec_cell_settled(*self, x as int, y as int));
                }
            }
            y = y + 1;
        }
        proof {
            assert forall|yy: int|
                0 <= yy < self.spec_height() implies #[trigger] spec_cell_settled(
                *self,
                x as int,
                yy,
            ) by {}
        }
    }
}

/// One compaction drop: the south-movable piece at (x, y) has swapped
/// into the empty row `f` of its column; every cell of the column below
/// y that was settled stays settled, the destination itself is settled,
/// and the vacated row y is empty.
proof fn lemma_column_drop_step<R: SwapRule>(
    pre: Board<R>,
    post: Board<R>,
    orig: Board<R>,
    x: int,
    y: int,
    f: int,
    block: int,
)
    requires
        pre.wf(),
        0 <= x < pre.spec_width(),
        0 <= block <= y < pre.spec_height(),
        block <= f < y,
        pre.piece_at(x, f) == Piece::Empty,
        spec_south_mover(pre, x, y),
        block == 0 || pre.piece_at(x, block - 1) != Piece::Empty,
        forall|r: int| 0 <= r < y ==> #[trigger] spec_cell_settled(pre, x, r),
        // completeness of the empty-row queue before the drop, phrased as:
        // f is the least empty row in [block, y)
        forall|r: int|
            block <= r < f ==> (#[trigger] pre.piece_at(x, r)) != Piece::Empty,
        // the swap's effect
        post.piece_at(x, y) == pre.piece_at(x, f),
        post.piece_at(x, f) == pre.piece_at(x, y),
        forall|x2: int, y2: int|
            !(x2 == x && y2 == y) && !(x2 == x && y2 == f) ==> (#[trigger] post.piece_at(x2, y2))
                == pre.piece_at(x2, y2),
        forall|x2: int, y2: int|
            x2 != x ==> (#[trigger] pre.piece_at(x2, y2)) == orig.piece_at(x2, y2),
    ensures
        forall|r: int| 0 <= r < y + 1 ==> #[trigger] spec_cell_settled(post, x, r),
        post.piece_at(x, y) == Piece::Empty,
        post.piece_at(x, f) == pre.piece_at(x, y),
        block == 0 || post.piece_at(x, block - 1) != Piece::Empty,
        forall|x2: int, y2: int|
            x2 != x ==> (#[trigger] post.piece_at(x2, y2)) == orig.piece_at(x2, y2),
{
    assert forall|r: int| 0 <= r < y + 1 implies #[trigger] spec_cell_settled(post, x, r) by {
        if r == y {
            assert(post.piece_at(x, y) == Piece::Empty);
        } else if r == f {
            if f == 0 {
            } else if f - 1 >= block {
                assert(pre.piece_at(x, f - 1) != Piece::Empty);
                assert(post.piece_at(x, f - 1) == pre.piece_at(x, f - 1));
            } else {
                assert(f - 1 == block - 1);
                assert(post.piece_at(x, f - 1) == pre.piece_at(x, f - 1));
            }
        } else {
            assert(post.piece_at(x, r) == pre.piece_at(x, r));
            assert(spec_cell_settled(pre, x, r));
            if spec_south_mover(post, x, r) && r > 0 {
                if r - 1 == f {
                    assert(post.piece_at(x, f) == pre.piece_at(x, y));
                    assert(post.piece_at(x, f) != Piece::Empty);
                } else {
                    assert(post.piece_at(x, r - 1) == pre.piece_at(x, r - 1));
                }
            }
        }
    }
}

impl<R: SwapRule> Board<R> {
    /// Whether a one-step diagonal move down-west (or down-east) is
    /// available at `pos`: the destination lies on the board and is
    /// empty, and the piece is movable south and in the horizontal
    /// direction of travel.
    pub open spec fn spec_diagonal_ok(self, pos: Pos, to_west: bool) -> bool {
        let dx = if to_west {
            pos.x as int - 1
        } else {
            pos.x as int + 1
        };
        let dy = pos.y as int - 1;
        &&& self.in_bounds_xy(dx, dy)
        &&& self.piece_at(dx, dy) == Piece::Empty
        &&& self.piece_at_pos(pos).spec_is_movable(Direction::South)
        &&& self.piece_at_pos(pos).spec_is_movable(
            if to_west {
                Direction::West
            } else {
                Direction::East
            },
        )
    }

    /// Checks if `pos` lies inside the board.
    pub fn is_within_board(&self, pos: Pos) -> (r: bool)
        requires
            self.wf(),
        ensures
            r == self.in_bounds(pos),
    {
        0 <= pos.x() && pos.x() < self.width() && 0 <= pos.y() && pos.y() < self.height()
    }

    /// Moves a position one cell down and one cell sideways, west or
    /// east.
    pub fn move_pos_down_diagonally(pos: Pos, to_west: bool) -> (r: Pos)
        requires
            i32::MIN < pos.x,
            pos.x < i32::MAX,
            i32::MIN < pos.y,
        ensures
            r.x as int == (if to_west {
                pos.x as int - 1
            } else {
                pos.x as int + 1
            }),
            r.y as int == pos.y as int - 1,
    {
        match to_west {
            true => Pos::new(pos.x() - 1, pos.y() - 1),
            false => Pos::new(pos.x() + 1, pos.y() - 1),
        }
    }

    /// Moves the piece at `current_pos` one cell down and one sideways
    /// when that diagonal destination is on the board, empty, and the
    /// piece may travel both south and in the horizontal direction.
    /// Returns the piece's new position and records the move.
    pub fn trickle_piece_diagonally(
        &mut self,
        current_pos: Pos,
        to_west: bool,
        moves: &mut Vec<(Pos, Pos)>,
    ) -> (r: Pos)
        requires
            old(self).wf(),
            old(self).in_bounds(current_pos),
            old(self).piece_at_pos(current_pos) != Piece::Empty,
        ensures
            spec_gravity_chain(
                *old(self),
                *final(self),
                final(moves)@.skip(old(moves)@.len() as int),
            ),
            final(self).wf(),
            final(self).spec_width() == old(self).spec_width(),
            final(self).spec_height() == old(self).spec_height(),
            final(self).spec_patterns() == old(self).spec_patterns(),
            final(self).spec_rules() == old(self).spec_rules(),
            !old(self).spec_diagonal_ok(current_pos, to_west) ==> r == current_pos && *final(self)
                == *old(self) && *final(moves) == *old(moves),
            old(self).spec_diagonal_ok(current_pos, to_west) ==> ({
                &&& r.x as int == (if to_west {
                    current_pos.x as int - 1
                } else {
                    current_pos.x as int + 1
                })
                &&& r.y as int == current_pos.y as int - 1
                &&& final(self).in_bounds(r)
                &&& final(self).piece_at_pos(r) == old(self).piece_at_pos(current_pos)
                &&& final(self).piece_at_pos(current_pos) == Piece::Empty
                &&& (forall|x2: int, y2: int|
                    !(x2 == current_pos.x as int && y2 == current_pos.y as int) && !(x2
                        == r.x as int && y2 == r.y as int) ==> (#[trigger] final(self).piece_at(
                        x2,
                        y2,
                    )) == old(self).piece_at(x2, y2))
                &&& final(self).queue() == old(self).queue().push(current_pos).push(r)
                &&& final(moves)@ == old(moves)@.push((current_pos, r))
            }),
            final(self).spec_cells().to_multiset() == old(self).spec_cells().to_multiset(),
    {
        let width = self.width();
        if current_pos.y() == 0 {
            return current_pos;
        }
        if to_west && current_pos.x() == 0 {
            return current_pos;
        }
        if !to_west && current_pos.x() >= width - 1 {
            return current_pos;
        }
        let empty_pos = Self::move_pos_down_diagonally(current_pos, to_west);
        if !self.is_empty_cell(empty_pos) {
            return current_pos;
        }
        if !self.movable_in(current_pos, Direction::South) {
            return current_pos;
        }
        let sideways = (if to_west {
            self.movable_in(current_pos, Direction::West)
        } else {
            self.movable_in(current_pos, Direction::East)
        });
        if !sideways {
            return current_pos;
        }
        self.swap_always(current_pos, empty_pos);
        moves.push((current_pos, empty_pos));
        proof {
            assert(spec_diagonal_move(*old(self), current_pos, empty_pos));
            assert(spec_move_applied(*old(self), *self, current_pos, empty_pos));
            lemma_chain_single(*old(self), *self, current_pos, empty_pos);
            assert(moves@.skip(old(moves)@.len() as int) =~= seq![(current_pos, empty_pos)]);
        }
        empty_pos
    }

    /// Moves the piece at `piece_pos` straight down through the run of
    /// empty cells directly beneath it, into the lowest one, and
    /// records the move when the piece actually falls.
    pub fn trickle_piece_down(&mut self, piece_pos: Pos, moves: &mut Vec<(Pos, Pos)>) -> (r: Pos)
        requires
            old(self).wf(),
            old(self).in_bounds(piece_pos),
            old(self).piece_at_pos(piece_pos) != Piece::Empty,
        ensures
            final(self).wf(),
            final(self).spec_width() == old(self).spec_width(),
            final(self).spec_height() == old(self).spec_height(),
            final(self).spec_patterns() == old(self).spec_patterns(),
            final(self).spec_rules() == old(self).spec_rules(),
            r.x == piece_pos.x,
            0 <= r.y <= piece_pos.y,
            (r != piece_pos) == (old(self).piece_at_pos(piece_pos).spec_is_movable(
                Direction::South,
            ) && piece_pos.y as int > 0 && old(self).piece_at(
                piece_pos.x as int,
                piece_pos.y as int - 1,
            ) == Piece::Empty),
            spec_same_walls(*old(self), *final(self)),
            final(self).spec_cells().to_multiset() == old(self).spec_cells().to_multiset(),
            spec_gravity_chain(
                *old(self),
                *final(self),
                final(moves)@.skip(old(moves)@.len() as int),
            ),
            r == piece_pos ==> *final(self) == *old(self) && *final(moves) == *old(moves),
            r != piece_pos ==> ({
                &&& final(self).piece_at_pos(r) == old(self).piece_at_pos(piece_pos)
                &&& old(self).piece_at_pos(r) == Piece::Empty
                &&& (r.y as int == 0 || final(self).piece_at(r.x as int, r.y as int - 1)
                    != Piece::Empty)
                &&& (forall|yy: int|
                    (r.y as int) < yy <= piece_pos.y as int ==> #[trigger] final(self).piece_at(
                        piece_pos.x as int,
                        yy,
                    ) == Piece::Empty)
                &&& (forall|x2: int, y2: int|
                    !(x2 == piece_pos.x as int && y2 == piece_pos.y as int) && !(x2 == r.x as int
                        && y2 == r.y as int) ==> (#[trigger] final(self).piece_at(x2, y2)) == old(
                        self,
                    ).piece_at(x2, y2))
                &&& final(self).queue() == old(self).queue().push(piece_pos).push(r)
                &&& final(moves)@ == old(moves)@.push((piece_pos, r))
            }),
    {
        if !self.movable_in(piece_pos, Direction::South) {
            return piece_pos;
        }
        let x = piece_pos.x();
        let mut next_y = piece_pos.y();
        while next_y > 0 && self.is_empty_cell(Pos::new(x, next_y - 1))
            invariant
                *self == *old(self),
                self.wf(),
                self.in_bounds(piece_pos),
                x == piece_pos.x,
                0 <= next_y <= piece_pos.y,
                forall|yy: int|
                    next_y as int <= yy < piece_pos.y as int ==> #[trigger] self.piece_at(
                        x as int,
                        yy,
                    ) == Piece::Empty,
            decreases next_y,
        {
            next_y = next_y - 1;
        }
        if next_y == piece_pos.y() {
            return piece_pos;
        }
        let dest = Pos::new(x, next_y);
        self.swap_always(piece_pos, dest);
        moves.push((piece_pos, dest));
        proof {
            assert(self.piece_at_pos(piece_pos) == Piece::Empty);
            assert forall|yy: int|
                (dest.y as int) < yy <= piece_pos.y as int implies #[trigger] self.piece_at(
                piece_pos.x as int,
                yy,
            ) == Piece::Empty by {
                if yy < piece_pos.y as int {
                    assert(old(self).piece_at(piece_pos.x as int, yy) == Piece::Empty);
                }
            }
            assert forall|x2: int, y2: int|
                ((#[trigger] self.piece_at(x2, y2)) is Wall) == (old(self).piece_at(
                    x2,
                    y2,
                ) is Wall) by {
                if x2 == piece_pos.x as int && y2 == piece_pos.y as int {
                    assert(old(self).piece_at_pos(piece_pos).spec_is_movable(Direction::South));
                    assert(self.piece_at(x2, y2) == Piece::Empty);
                } else if x2 == dest.x as int && y2 == dest.y as int {
                    assert(old(self).piece_at(x2, y2) == Piece::Empty);
                    assert(self.piece_at_pos(dest) == old(self).piece_at_pos(piece_pos));
                } else {
                    assert(self.piece_at(x2, y2) == old(self).piece_at(x2, y2));
                }
            }
            assert(spec_fall_step(*old(self), piece_pos, dest));
            assert(spec_move_applied(*old(self), *self, piece_pos, dest));
            lemma_chain_single(*old(self), *self, piece_pos, dest);
            assert(moves@.skip(old(moves)@.len() as int) =~= seq![(piece_pos, dest)]);
        }
        dest
    }

    /// Every cell of the board but (ex, ey) is settled.
    pub open spec fn spec_settled_except_at(self, ex: int, ey: int) -> bool {
        forall|x: int, y: int|
            self.in_bounds_xy(x, y) && !(x == ex && y == ey) ==> #[trigger] spec_cell_settled(
                self,
                x,
                y,
            )
    }

    /// Moves the piece at `piece_pos` one diagonal step if one is
    /// available — west preferred over east — and then lets it fall
    /// straight down as far as it can. Returns the piece's new
    /// position; empty cells and walls stay put.
    pub fn trickle_piece(&mut self, piece_pos: Pos, moves: &mut Vec<(Pos, Pos)>) -> (r: Pos)
        requires
            old(self).wf(),
            old(self).in_bounds(piece_pos),
            spec_settled(*old(self)),
        ensures
            final(self).wf(),
            final(self).spec_width() == old(self).spec_width(),
            final(self).spec_height() == old(self).spec_height(),
            final(self).spec_patterns() == old(self).spec_patterns(),
            final(self).spec_rules() == old(self).spec_rules(),
            final(self).in_bounds(r),
            r == piece_pos ==> *final(self) == *old(self) && *final(moves) == *old(moves),
            r != piece_pos ==> (r.y as int) < piece_pos.y as int,
            r != piece_pos ==> (r.x as int == piece_pos.x as int - 1 || r.x as int
                == piece_pos.x as int + 1),
            r != piece_pos ==> final(self).piece_at_pos(r) == old(self).piece_at_pos(piece_pos)
                && final(self).piece_at_pos(piece_pos) == Piece::Empty,
            r != piece_pos ==> final(moves)@.len() > old(moves)@.len(),
            (r == piece_pos) == (old(self).piece_at_pos(piece_pos) == Piece::Empty || (!old(
                self,
            ).spec_diagonal_ok(piece_pos, true) && !old(self).spec_diagonal_ok(piece_pos, false))),
            r != piece_pos ==> final(self).spec_settled_except_at(
                piece_pos.x as int,
                piece_pos.y as int + 1,
            ),
            r != piece_pos ==> spec_above_free(*final(self), r),
            r != piece_pos && spec_above_free(*old(self), piece_pos) ==> spec_settled(
                *final(self),
            ),
            old(self).piece_at_pos(piece_pos) != Piece::Empty && old(self).spec_diagonal_ok(
                piece_pos,
                true,
            ) ==> r != piece_pos && r.x as int == piece_pos.x as int - 1,
            old(self).piece_at_pos(piece_pos) != Piece::Empty && !old(self).spec_diagonal_ok(
                piece_pos,
                true,
            ) && old(self).spec_diagonal_ok(piece_pos, false) ==> r != piece_pos && r.x as int
                == piece_pos.x as int + 1,
            spec_same_walls(*old(self), *final(self)),
            final(self).spec_cells().to_multiset() == old(self).spec_cells().to_multiset(),
            spec_gravity_chain(
                *old(self),
                *final(self),
                final(moves)@.skip(old(moves)@.len() as int),
            ),
            old(self).queue().is_prefix_of(final(self).queue()),
            old(moves)@.is_prefix_of(final(moves)@),
    {
        let ghost px = piece_pos.x as int;
        let ghost py = piece_pos.y as int;
        if self.is_empty_cell(piece_pos) {
            return piece_pos;
        }
        let mut current = self.trickle_piece_diagonally(piece_pos, true, moves);
        let ghost s_west = *self;
        let ghost mv_west = moves@;
        if current.x() == piece_pos.x() && current.y() == piece_pos.y() {
            current = self.trickle_piece_diagonally(piece_pos, false, moves);
            proof {
                lemma_chain_extend(
                    *old(self),
                    s_west,
                    *self,
                    mv_west,
                    moves@,
                    old(moves)@.len() as int,
                );
            }
        }
        let ghost s1 = *self;
        let ghost mv1 = moves@;
        let ghost d = current;
        proof {
            if current != piece_pos {
                assert(s1.piece_at_pos(current) == old(self).piece_at_pos(piece_pos));
                assert(s1.piece_at_pos(current) != Piece::Empty);
            }
        }
        let landed = self.trickle_piece_down(current, moves);
        proof {
            lemma_chain_extend(*old(self), s1, *self, mv1, moves@, old(moves)@.len() as int);
            if current == piece_pos {
                // no diagonal move was available; on a settled board the
                // piece cannot fall straight down either
                assert(spec_cell_settled(*old(self), px, py));
                assert(landed == piece_pos);
                assert(*self == *old(self));
            } else {
                let dxi = d.x as int;
                let dyi = d.y as int;
                let ghost s2 = *self;
                assert(dyi == py - 1);
                assert(dxi == px - 1 || dxi == px + 1);
                assert(s1.piece_at(px, py) == Piece::Empty);
                // the piece now rests at `landed`, with nothing empty below
                assert(landed.x == d.x);
                assert(landed.y as int <= dyi);
                assert(s2.piece_at_pos(landed) == old(self).piece_at_pos(piece_pos));
                assert(landed.y as int == 0 || s2.piece_at(dxi, landed.y as int - 1)
                    != Piece::Empty);
                assert(landed != piece_pos);
                // the cell above the diagonal destination held no
                // south-movable piece even before the move
                assert(!spec_south_mover(*old(self), dxi, dyi + 1) || old(self).piece_at(
                    dxi,
                    dyi + 1,
                ) == Piece::Empty) by {
                    if spec_south_mover(*old(self), dxi, dyi + 1) {
                        if old(self).in_bounds_xy(dxi, dyi + 1) {
                            assert(spec_cell_settled(*old(self), dxi, dyi + 1));
                            assert(old(self).piece_at(dxi, dyi) == Piece::Empty);
                            assert(false);
                        } else {
                            old(self).lemma_outside_is_wall(dxi, dyi + 1);
                        }
                    }
                }
                // cells other than the source, the diagonal step and the
                // landing cell are untouched
                assert forall|x2: int, y2: int|
                    !(x2 == px && y2 == py) && !(x2 == dxi && y2 == dyi) && !(x2 == dxi && y2
                        == landed.y as int) implies (#[trigger] s2.piece_at(x2, y2)) == old(
                    self,
                ).piece_at(x2, y2) by {
                    assert(s1.piece_at(x2, y2) == old(self).piece_at(x2, y2));
                }
                assert(s2.piece_at(px, py) == Piece::Empty);
                assert forall|yy: int|
                    (landed.y as int) < yy <= dyi implies #[trigger] s2.piece_at(dxi, yy)
                        == Piece::Empty by {
                    if landed.y as int == dyi {
                    } else {
                        assert(s2.piece_at(dxi, yy) == Piece::Empty);
                    }
                }
                assert forall|x2: int, y2: int|
                    s2.in_bounds_xy(x2, y2) && !(x2 == px && y2 == py + 1)
                        implies #[trigger] spec_cell_settled(s2, x2, y2) by {
                    assert(spec_cell_settled(*old(self), x2, y2));
                    if x2 == px && y2 == py {
                        assert(s2.piece_at(px, py) == Piece::Empty);
                    } else if x2 == dxi && y2 == landed.y as int {
                        assert(s2.piece_at_pos(landed) != Piece::Empty);
                    } else if x2 == dxi && (landed.y as int) < y2 && y2 <= dyi {
                        assert(s2.piece_at(x2, y2) == Piece::Empty);
                    } else if x2 == dxi && y2 == dyi + 1 {
                        assert(s2.piece_at(x2, y2) == old(self).piece_at(x2, y2));
                        assert(!spec_south_mover(s2, x2, y2) || s2.piece_at(x2, y2)
                            == Piece::Empty);
                    } else {
                        assert(s2.piece_at(x2, y2) == old(self).piece_at(x2, y2));
                        if spec_south_mover(s2, x2, y2) && y2 > 0 {
                            if x2 == px && y2 - 1 == py {
                                assert(false);
                            } else if x2 == dxi && y2 - 1 == landed.y as int {
                                assert(s2.piece_at(x2, y2 - 1) != Piece::Empty);
                            } else if x2 == dxi && (landed.y as int) < y2 - 1 && y2 - 1 <= dyi {
                                assert(y2 <= dyi + 1);
                                assert(false);
                            } else {
                                assert(s2.piece_at(x2, y2 - 1) == old(self).piece_at(x2, y2 - 1));
                            }
                        }
                    }
                }
                assert(s2.spec_settled_except_at(px, py + 1));
                // where the piece came to rest, vacating it again is safe
                assert(spec_above_free(s2, landed)) by {
                    if (landed.y as int) < dyi {
                        assert(s2.piece_at(dxi, landed.y as int + 1) == Piece::Empty);
                    } else {
                        assert(s2.piece_at(dxi, dyi + 1) == old(self).piece_at(dxi, dyi + 1));
                    }
                }
                assert forall|x2: int, y2: int|
                    ((#[trigger] s2.piece_at(x2, y2)) is Wall) == (old(self).piece_at(
                        x2,
                        y2,
                    ) is Wall) by {
                    if x2 == px && y2 == py {
                        assert(s2.piece_at(x2, y2) == Piece::Empty);
                        assert(old(self).piece_at(px, py).spec_is_movable(Direction::South));
                    } else if x2 == dxi && y2 == landed.y as int {
                        assert(s2.piece_at_pos(landed) == old(self).piece_at_pos(piece_pos));
                        assert(!(s2.piece_at(x2, y2) is Wall));
                        if landed.y as int == dyi {
                            assert(old(self).piece_at(x2, y2) == Piece::Empty);
                        } else {
                            assert(s1.piece_at(x2, y2) == old(self).piece_at(x2, y2));
                            assert(s1.piece_at(x2, y2) == Piece::Empty);
                        }
                    } else if x2 == dxi && y2 == dyi {
                        assert(old(self).piece_at(x2, y2) == Piece::Empty);
                        assert(s2.piece_at(x2, y2) == Piece::Empty || s2.piece_at(x2, y2)
                            == old(self).piece_at_pos(piece_pos));
                    } else {
                        assert(s2.piece_at(x2, y2) == old(self).piece_at(x2, y2));
                    }
                }
                // and if the vacated source had nothing loose above it,
                // the whole board is settled again
                if spec_above_free(*old(self), piece_pos) {
                    assert forall|x2: int, y2: int|
                        s2.in_bounds_xy(x2, y2) implies #[trigger] spec_cell_settled(
                        s2,
                        x2,
                        y2,
                    ) by {
                        if x2 == px && y2 == py + 1 {
                            assert(s2.piece_at(px, py + 1) == old(self).piece_at(px, py + 1));
                        }
                    }
                }
            }
            assert(old(self).queue().is_prefix_of(self.queue())) by {
                assert(self.queue().subrange(0, old(self).queue().len() as int) =~= old(
                    self,
                ).queue());
            }
            assert(old(moves)@.is_prefix_of(moves@)) by {
                assert(moves@.subrange(0, old(moves)@.len() as int) =~= old(moves)@);
            }
        }
        landed
    }

    /// Diffuses pieces diagonally and downward, scanning cells column
    /// by column and bottom to top, until no moved piece can travel any
    /// further. Expects every column already compacted, and leaves the
    /// whole board settled.
    pub fn trickle_diagonally(&mut self, moves: &mut Vec<(Pos, Pos)>)
        requires
            old(self).wf(),
            spec_settled(*old(self)),
        ensures
            final(self).wf(),
            final(self).spec_width() == old(self).spec_width(),
            final(self).spec_height() == old(self).spec_height(),
            final(self).spec_patterns() == old(self).spec_patterns(),
            final(self).spec_rules() == old(self).spec_rules(),
            spec_settled(*final(self)),
            spec_same_walls(*old(self), *final(self)),
            final(self).spec_cells().to_multiset() == old(self).spec_cells().to_multiset(),
            final(moves)@.len() == old(moves)@.len() ==> *final(self) == *old(self),
            (exists|p: Pos|
                old(self).in_bounds(p) && #[trigger] old(self).piece_at_pos(p) != Piece::Empty
                    && (old(self).spec_diagonal_ok(p, true) || old(self).spec_diagonal_ok(
                    p,
                    false,
                ))) ==> final(moves)@.len() > old(moves)@.len(),
            spec_gravity_chain(
                *old(self),
                *final(self),
                final(moves)@.skip(old(moves)@.len() as int),
            ),
            old(self).queue().is_prefix_of(final(self).queue()),
            old(moves)@.is_prefix_of(final(moves)@),
    {
        let width = self.width();
        let height = self.height();
        let mut x: i32 = 0;
        while x < width
            invariant
                self.wf(),
                spec_settled(*self),
                self.spec_width() == old(self).spec_width(),
                self.spec_height() == old(self).spec_height(),
                self.spec_patterns() == old(self).spec_patterns(),
                self.spec_rules() == old(self).spec_rules(),
                width as int == self.spec_width(),
                height as int == self.spec_height(),
                0 <= width,
                0 <= height,
                0 <= x <= width,
                spec_same_walls(*old(self), *self),
                self.spec_cells().to_multiset() == old(self).spec_cells().to_multiset(),
                moves@.len() == old(moves)@.len() ==> *self == *old(self),
                moves@.len() == old(moves)@.len() ==> (forall|p: Pos|
                    old(self).in_bounds(p) && (p.x as int) < x as int && #[trigger] old(
                        self,
                    ).piece_at_pos(p) != Piece::Empty ==> !old(self).spec_diagonal_ok(p, true)
                        && !old(self).spec_diagonal_ok(p, false)),
                spec_gravity_chain(*old(self), *self, moves@.skip(old(moves)@.len() as int)),
                old(self).queue().is_prefix_of(self.queue()),
                old(moves)@.is_prefix_of(moves@),
            decreases width - x,
        {
            let mut y: i32 = 0;
            while y < height
                invariant
                    self.wf(),
                    spec_settled(*self),
                    self.spec_width() == old(self).spec_width(),
                    self.spec_height() == old(self).spec_height(),
                    self.spec_patterns() == old(self).spec_patterns(),
                    self.spec_rules() == old(self).spec_rules(),
                    width as int == self.spec_width(),
                    height as int == self.spec_height(),
                    0 <= width,
                    0 <= height,
                    0 <= x < width,
                    0 <= y <= height,
                    spec_same_walls(*old(self), *self),
                    self.spec_cells().to_multiset() == old(self).spec_cells().to_multiset(),
                    moves@.len() == old(moves)@.len() ==> *self == *old(self),
                    moves@.len() == old(moves)@.len() ==> (forall|p: Pos|
                        old(self).in_bounds(p) && ((p.x as int) < x as int || (p.x as int
                            == x as int && (p.y as int) < y as int)) && #[trigger] old(
                            self,
                        ).piece_at_pos(p) != Piece::Empty ==> !old(self).spec_diagonal_ok(p, true)
                            && !old(self).spec_diagonal_ok(p, false)),
                    spec_gravity_chain(*old(self), *self, moves@.skip(old(moves)@.len() as int)),
                    old(self).queue().is_prefix_of(self.queue()),
                    old(moves)@.is_prefix_of(moves@),
                decreases height - y,
            {
                let piece_pos = Pos::new(x, y);
                let ghost s_cell = *self;
                let ghost mv_cell = moves@;
                let mut previous = piece_pos;
                let mut current = self.trickle_piece(previous, moves);
                proof {
                    lemma_same_walls_chain(*old(self), s_cell, *self);
                    lemma_chain_extend(
                        *old(self),
                        s_cell,
                        *self,
                        mv_cell,
                        moves@,
                        old(moves)@.len() as int,
                    );
                    if moves@.len() == old(moves)@.len() {
                        assert(current == piece_pos);
                        assert(s_cell == *old(self));
                        assert forall|p: Pos|
                            old(self).in_bounds(p) && ((p.x as int) < x as int || (p.x as int
                                == x as int && (p.y as int) < y as int + 1)) && #[trigger] old(
                            self,
                        ).piece_at_pos(p) != Piece::Empty implies !old(self).spec_diagonal_ok(
                            p,
                            true,
                        ) && !old(self).spec_diagonal_ok(p, false) by {
                            if p == piece_pos {
                                assert((current == piece_pos) == (old(self).piece_at_pos(
                                    piece_pos,
                                ) == Piece::Empty || (!old(self).spec_diagonal_ok(piece_pos, true)
                                    && !old(self).spec_diagonal_ok(piece_pos, false))));
                            }
                        }
                    }
                }
                if !(current.x() == previous.x() && current.y() == previous.y()) {
                    let ghost s_moved = *self;
                    let ghost mv_moved = moves@;
                    self.trickle_column(x, moves);
                    proof {
                        lemma_same_walls_chain(*old(self), s_moved, *self);
                        lemma_chain_extend(
                            *old(self),
                            s_moved,
                            *self,
                            mv_moved,
                            moves@,
                            old(moves)@.len() as int,
                        );
                        assert forall|x2: int, y2: int|
                            self.in_bounds_xy(x2, y2) implies #[trigger] spec_cell_settled(
                            *self,
                            x2,
                            y2,
                        ) by {
                            if x2 == x as int {
                                assert(spec_cell_settled(*self, x2, y2));
                            } else {
                                assert(spec_cell_settled(s_moved, x2, y2));
                                assert(self.piece_at(x2, y2) == s_moved.piece_at(x2, y2));
                                if y2 > 0 {
                                    assert(self.piece_at(x2, y2 - 1) == s_moved.piece_at(
                                        x2,
                                        y2 - 1,
                                    ));
                                }
                            }
                        }
                        assert(spec_above_free(*self, current)) by {
                            assert(current.x as int != x as int);
                            assert(self.piece_at(current.x as int, current.y as int + 1)
                                == s_moved.piece_at(current.x as int, current.y as int + 1));
                        }
                        lemma_prefix_chain(old(self).queue(), s_moved.queue(), self.queue());
                        lemma_prefix_chain(old(moves)@, mv_moved, moves@);
                    }
                    while !(previous.x() == current.x() && previous.y() == current.y())
                        invariant
                            self.wf(),
                            spec_settled(*self),
                            self.spec_width() == old(self).spec_width(),
                            self.spec_height() == old(self).spec_height(),
                            self.spec_patterns() == old(self).spec_patterns(),
                            self.spec_rules() == old(self).spec_rules(),
                            self.in_bounds(current),
                            previous != current ==> spec_above_free(*self, current),
                            spec_same_walls(*old(self), *self),
                            self.spec_cells().to_multiset() == old(self).spec_cells().to_multiset(),
                            moves@.len() > old(moves)@.len(),
                            spec_gravity_chain(
                                *old(self),
                                *self,
                                moves@.skip(old(moves)@.len() as int),
                            ),
                            old(self).queue().is_prefix_of(self.queue()),
                            old(moves)@.is_prefix_of(moves@),
                        decreases current.y, (if previous == current { 0int } else { 1int }),
                    {
                        previous = current;
                        let ghost s_step = *self;
                        let ghost mv_step = moves@;
                        current = self.trickle_piece(previous, moves);
                        proof {
                            lemma_same_walls_chain(*old(self), s_step, *self);
                            lemma_chain_extend(
                                *old(self),
                                s_step,
                                *self,
                                mv_step,
                                moves@,
                                old(moves)@.len() as int,
                            );
                            if current != previous {
                                assert(spec_settled(*self));
                                assert(spec_above_free(*self, current));
                            }
                            lemma_prefix_chain(old(self).queue(), s_step.queue(), self.queue());
                            lemma_prefix_chain(old(moves)@, mv_step, moves@);
                        }
                    }
                }
                y = y + 1;
            }
            x = x + 1;
        }
        proof {
            if moves@.len() == old(moves)@.len() {
                assert forall|p: Pos|
                    old(self).in_bounds(p) && #[trigger] old(self).piece_at_pos(p)
                        != Piece::Empty implies !old(self).spec_diagonal_ok(p, true) && !old(
                    self,
                ).spec_diagonal_ok(p, false) by {
                    assert((p.x as int) < width as int);
                }
            }
        }
    }
    /// Simulates gravity over the whole board: first compacts every
    /// column, then diffuses pieces diagonally until nothing can move.
    ///
    /// Returns the moves performed, in execution order; the board
    /// itself already reflects the final positions when the call
    /// returns, and every moved cell has been enqueued for a match
    /// check. Afterwards no south-movable piece anywhere on the board
    /// has an empty cell directly beneath it.
    pub fn trickle(&mut self) -> (moves: Vec<(Pos, Pos)>)
        requires
            old(self).wf(),
        ensures
            final(self).wf(),
            final(self).spec_width() == old(self).spec_width(),
            final(self).spec_height() == old(self).spec_height(),
            final(self).spec_patterns() == old(self).spec_patterns(),
            final(self).spec_rules() == old(self).spec_rules(),
            spec_settled(*final(self)),
            spec_same_walls(*old(self), *final(self)),
            final(self).spec_cells().to_multiset() == old(self).spec_cells().to_multiset(),
            moves@.len() == 0 ==> *final(self) == *old(self),
            !spec_settled(*old(self)) ==> moves@.len() > 0,
            (exists|p: Pos|
                old(self).in_bounds(p) && #[trigger] old(self).piece_at_pos(p) != Piece::Empty
                    && (old(self).spec_diagonal_ok(p, true) || old(self).spec_diagonal_ok(
                    p,
                    false,
                ))) ==> moves@.len() > 0,
            spec_gravity_chain(*old(self), *final(self), moves@),
            old(self).queue().is_prefix_of(final(self).queue()),
    {
        let mut moves: Vec<(Pos, Pos)> = Vec::new();
        let width = self.width();
        let mut x: i32 = 0;
        while x < width
            invariant
                self.wf(),
                self.spec_width() == old(self).spec_width(),
                self.spec_height() == old(self).spec_height(),
                self.spec_patterns() == old(self).spec_patterns(),
                self.spec_rules() == old(self).spec_rules(),
                width as int == self.spec_width(),
                0 <= x <= width,
                spec_same_walls(*old(self), *self),
                self.spec_cells().to_multiset() == old(self).spec_cells().to_multiset(),
                moves@.len() == 0 ==> *self == *old(self) && (forall|c: int|
                    0 <= c < x as int ==> #[trigger] spec_column_settled(*old(self), c)),
                spec_gravity_chain(*old(self), *self, moves@),
                old(self).queue().is_prefix_of(self.queue()),
                forall|c: int| 0 <= c < x as int ==> #[trigger] spec_column_settled(*self, c),
            decreases width - x,
        {
            let ghost s0 = *self;
            let ghost mv0 = moves@;
            self.trickle_column(x, &mut moves);
            proof {
                assert forall|c: int|
                    0 <= c < x as int + 1 implies #[trigger] spec_column_settled(*self, c) by {
                    if c < x as int {
                        assert(spec_column_settled(s0, c));
                        assert forall|yy: int|
                            0 <= yy < self.spec_height() implies #[trigger] spec_cell_settled(
                            *self,
                            c,
                            yy,
                        ) by {
                            assert(spec_cell_settled(s0, c, yy));
                            assert(self.piece_at(c, yy) == s0.piece_at(c, yy));
                            if yy > 0 {
                                assert(self.piece_at(c, yy - 1) == s0.piece_at(c, yy - 1));
                            }
                        }
                    }
                }
                lemma_same_walls_chain(*old(self), s0, *self);
                lemma_prefix_chain(old(self).queue(), s0.queue(), self.queue());
                assert(mv0.skip(0) =~= mv0);
                lemma_chain_extend(*old(self), s0, *self, mv0, moves@, 0);
                assert(moves@.skip(0) =~= moves@);
            }
            x = x + 1;
        }
        proof {
            assert forall|x2: int, y2: int|
                self.in_bounds_xy(x2, y2) implies #[trigger] spec_cell_settled(*self, x2, y2) by {
                assert(spec_column_settled(*self, x2));
            }
            if moves@.len() == 0 {
                assert forall|x2: int, y2: int|
                    old(self).in_bounds_xy(x2, y2) implies #[trigger] spec_cell_settled(
                    *old(self),
                    x2,
                    y2,
                ) by {
                    assert(spec_column_settled(*old(self), x2));
                }
                assert(spec_settled(*old(self)));
            }
        }
        let ghost s1 = *self;
        let ghost compaction_moves = moves@;
        self.trickle_diagonally(&mut moves);
        proof {
            lemma_same_walls_chain(*old(self), s1, *self);
            lemma_prefix_chain(old(self).queue(), s1.queue(), self.queue());
            assert(compaction_moves.skip(0) =~= compaction_moves);
            lemma_chain_extend(*old(self), s1, *self, compaction_moves, moves@, 0);
            assert(moves@.skip(0) =~= moves@);
            if moves@.len() == 0 {
                assert(compaction_moves.len() == 0);
                assert(s1 == *old(self));
                assert(*self == s1);
            }
            if exists|p: Pos|
                old(self).in_bounds(p) && #[trigger] old(self).piece_at_pos(p) != Piece::Empty
                    && (old(self).spec_diagonal_ok(p, true) || old(self).spec_diagonal_ok(
                    p,
                    false,
                )) {
                if moves@.len() == 0 {
                    assert(false);
                }
            }
        }
        moves
    }

    /// Sets a piece as `set_piece` does, then trickles starting from
    /// that single piece only: the piece and its column fall, and the
    /// piece then diffuses diagonally until it can travel no further.
    ///
    /// Expects a board that gravity has already settled — the usual
    /// state after a `trickle` — and leaves it settled again. Returns
    /// the moves performed, in execution order.
    pub fn add_and_trickle(&mut self, pos: Pos, piece: Piece) -> (moves: Vec<(Pos, Pos)>)
        requires
            old(self).wf(),
            old(self).in_bounds(pos),
            spec_settled(*old(self)),
        ensures
            final(self).wf(),
            final(self).spec_width() == old(self).spec_width(),
            final(self).spec_height() == old(self).spec_height(),
            final(self).spec_patterns() == old(self).spec_patterns(),
            final(self).spec_rules() == old(self).spec_rules(),
            spec_settled(*final(self)),
            (final(self).piece_at_pos(pos) is Wall) == (piece is Wall),
            forall|x2: int, y2: int|
                !(x2 == pos.x as int && y2 == pos.y as int)
                    ==> ((#[trigger] final(self).piece_at(x2, y2)) is Wall) == (old(
                    self,
                ).piece_at(x2, y2) is Wall),
            final(self).spec_cells().to_multiset() == old(self).spec_cells().to_multiset().insert(
                piece,
            ).remove(old(self).piece_at_pos(pos)),
            (exists|mid: Board<R>|
                #![auto]
                spec_set_piece_post(*old(self), mid, pos, piece, old(self).piece_at_pos(pos))
                    && spec_gravity_chain(mid, *final(self), moves@)),
            old(self).queue().push(pos).is_prefix_of(final(self).queue()),
    {
        let mut moves: Vec<(Pos, Pos)> = Vec::new();
        self.set_piece(pos, piece);
        let ghost s_set = *self;
        proof {
            assert(spec_set_piece_post(
                *old(self),
                s_set,
                pos,
                piece,
                old(self).piece_at_pos(pos),
            ));
        }
        let mut landed = pos;
        if !self.is_empty_cell(pos) {
            landed = self.trickle_piece_down(pos, &mut moves);
            proof {
                assert(moves@.skip(0) =~= moves@);
                assert(spec_gravity_chain(s_set, *self, moves@));
            }
        } else {
            proof {
                assert(spec_boards_match(s_set, *self));
                assert(spec_gravity_chain(s_set, *self, moves@));
            }
        }
        let ghost s_fell = *self;
        let ghost mv_fell = moves@;
        self.trickle_column(pos.x(), &mut moves);
        proof {
            assert(mv_fell.skip(0) =~= mv_fell);
            lemma_chain_extend(s_set, s_fell, *self, mv_fell, moves@, 0);
            assert(moves@.skip(0) =~= moves@);
            lemma_same_walls_chain(s_set, s_fell, *self);
            assert forall|x2: int, y2: int|
                self.in_bounds_xy(x2, y2) implies #[trigger] spec_cell_settled(*self, x2, y2) by {
                if x2 == pos.x as int {
                    assert(spec_cell_settled(*self, x2, y2));
                } else {
                    assert(spec_cell_settled(*old(self), x2, y2));
                    assert(s_set.piece_at(x2, y2) == old(self).piece_at(x2, y2));
                    assert(s_fell.piece_at(x2, y2) == s_set.piece_at(x2, y2));
                    assert(self.piece_at(x2, y2) == s_fell.piece_at(x2, y2));
                    if y2 > 0 {
                        assert(s_set.piece_at(x2, y2 - 1) == old(self).piece_at(x2, y2 - 1));
                        assert(s_fell.piece_at(x2, y2 - 1) == s_set.piece_at(x2, y2 - 1));
                        assert(self.piece_at(x2, y2 - 1) == s_fell.piece_at(x2, y2 - 1));
                    }
                }
            }
            assert(old(self).queue().push(pos).is_prefix_of(self.queue())) by {
                lemma_prefix_chain(old(self).queue().push(pos), s_fell.queue(), self.queue()) ;
            }
        }
        let ghost s_compacted = *self;
        let ghost mv_compacted = moves@;
        let mut previous = landed;
        let mut current = self.trickle_piece(previous, &mut moves);
        proof {
            lemma_same_walls_chain(s_set, s_compacted, *self);
            assert(mv_compacted.skip(0) =~= mv_compacted);
            lemma_chain_extend(s_set, s_compacted, *self, mv_compacted, moves@, 0);
            assert(moves@.skip(0) =~= moves@);
        }
        if !(current.x() == previous.x() && current.y() == previous.y()) {
            let ghost s_moved = *self;
            let ghost mv_moved = moves@;
            self.trickle_column(pos.x(), &mut moves);
            proof {
                lemma_same_walls_chain(s_set, s_moved, *self);
                assert(mv_moved.skip(0) =~= mv_moved);
                lemma_chain_extend(s_set, s_moved, *self, mv_moved, moves@, 0);
                assert(moves@.skip(0) =~= moves@);
                assert forall|x2: int, y2: int|
                    self.in_bounds_xy(x2, y2) implies #[trigger] spec_cell_settled(
                    *self,
                    x2,
                    y2,
                ) by {
                    if x2 == pos.x as int {
                        assert(spec_cell_settled(*self, x2, y2));
                    } else {
                        assert(spec_cell_settled(s_moved, x2, y2));
                        assert(self.piece_at(x2, y2) == s_moved.piece_at(x2, y2));
                        if y2 > 0 {
                            assert(self.piece_at(x2, y2 - 1) == s_moved.piece_at(x2, y2 - 1));
                        }
                    }
                }
                assert(spec_above_free(*self, current)) by {
                    assert(current.x as int != pos.x as int);
                    assert(self.piece_at(current.x as int, current.y as int + 1)
                        == s_moved.piece_at(current.x as int, current.y as int + 1));
                }
                lemma_prefix_chain(
                    old(self).queue().push(pos),
                    s_moved.queue(),
                    self.queue(),
                );
            }
            while !(previous.x() == current.x() && previous.y() == current.y())
                invariant
                    self.wf(),
                    spec_settled(*self),
                    self.spec_width() == old(self).spec_width(),
                    self.spec_height() == old(self).spec_height(),
                    self.spec_patterns() == old(self).spec_patterns(),
                    self.spec_rules() == old(self).spec_rules(),
                    self.in_bounds(current),
                    previous != current ==> spec_above_free(*self, current),
                    spec_same_walls(s_set, *self),
                    self.spec_cells().to_multiset() == s_set.spec_cells().to_multiset(),
                    spec_gravity_chain(s_set, *self, moves@),
                    old(self).queue().push(pos).is_prefix_of(self.queue()),
                decreases current.y, (if previous == current { 0int } else { 1int }),
            {
                previous = current;
                let ghost s_step = *self;
                let ghost mv_step = moves@;
                current = self.trickle_piece(previous, &mut moves);
                proof {
                    lemma_same_walls_chain(s_set, s_step, *self);
                    assert(mv_step.skip(0) =~= mv_step);
                    lemma_chain_extend(s_set, s_step, *self, mv_step, moves@, 0);
                    assert(moves@.skip(0) =~= moves@);
                    if current != previous {
                        assert(spec_settled(*self));
                        assert(spec_above_free(*self, current));
                    }
                    lemma_prefix_chain(
                        old(self).queue().push(pos),
                        s_step.queue(),
                        self.queue(),
                    );
                }
            }
        }
        proof {
            assert((self.piece_at_pos(pos) is Wall) == (s_set.piece_at_pos(pos) is Wall));
            assert forall|x2: int, y2: int|
                !(x2 == pos.x as int && y2 == pos.y as int) implies ((#[trigger] self.piece_at(
                x2,
                y2,
            )) is Wall) == (old(self).piece_at(x2, y2) is Wall) by {
                assert((self.piece_at(x2, y2) is Wall) == (s_set.piece_at(x2, y2) is Wall));
                assert(s_set.piece_at(x2, y2) == old(self).piece_at(x2, y2));
            }
        }
        moves
    }
}

/// Gravity steps and chains read only the board model, so they
/// transfer between matching boards.
proof fn lemma_chain_from_matching<R: SwapRule>(
    a: Board<R>,
    b: Board<R>,
    post: Board<R>,
    moves: Seq<(Pos, Pos)>,
)
    requires
        spec_boards_match(a, b),
        spec_gravity_chain(b, post, moves),
    ensures
        spec_gravity_chain(a, post, moves),
    decreases moves.len(),
{
    assert forall|x: int, y: int| (#[trigger] a.piece_at(x, y)) == b.piece_at(x, y) by {
        assert(b.piece_at(x, y) == a.piece_at(x, y));
    }
    if moves.len() == 0 {
        assert(spec_boards_match(a, post));
    } else {
        let from = moves[0].0;
        let to = moves[0].1;
        let mid = choose|mid: Board<R>|
            #[trigger] spec_gravity_step(b, mid, from, to) && spec_gravity_chain(
                mid,
                post,
                moves.drop_first(),
            );
        assert(spec_gravity_step(a, mid, from, to)) by {
            if spec_fall_step(b, from, to) {
                assert(spec_fall_step(a, from, to)) by {
                    assert forall|yy: int|
                        to.y as int <= yy < from.y as int implies #[trigger] a.piece_at(
                        from.x as int,
                        yy,
                    ) == Piece::Empty by {
                        assert(b.piece_at(from.x as int, yy) == Piece::Empty);
                    }
                }
            } else {
                assert(spec_diagonal_move(b, from, to));
                assert(spec_diagonal_move(a, from, to));
            }
            assert(spec_move_applied(a, mid, from, to)) by {
                assert forall|x: int, y: int|
                    !(x == from.x as int && y == from.y as int) && !(x == to.x as int && y
                        == to.y as int) implies (#[trigger] mid.piece_at(x, y)) == a.piece_at(
                    x,
                    y,
                ) by {
                    assert(mid.piece_at(x, y) == b.piece_at(x, y));
                }
            }
        }
        assert(spec_gravity_chain(a, post, moves));
    }
}

/// Gravity chains compose end to end.
proof fn lemma_chain_append<R: SwapRule>(
    a: Board<R>,
    b: Board<R>,
    c: Board<R>,
    m1: Seq<(Pos, Pos)>,
    m2: Seq<(Pos, Pos)>,
)
    requires
        spec_gravity_chain(a, b, m1),
        spec_gravity_chain(b, c, m2),
    ensures
        spec_gravity_chain(a, c, m1 + m2),
    decreases m1.len(),
{
    if m1.len() == 0 {
        assert(m1 + m2 =~= m2);
        lemma_chain_from_matching(a, b, c, m2);
    } else {
        let from = m1[0].0;
        let to = m1[0].1;
        let mid = choose|mid: Board<R>|
            #[trigger] spec_gravity_step(a, mid, from, to) && spec_gravity_chain(
                mid,
                b,
                m1.drop_first(),
            );
        lemma_chain_append(mid, b, c, m1.drop_first(), m2);
        assert((m1 + m2).drop_first() =~= m1.drop_first() + m2);
        assert((m1 + m2)[0] == m1[0]);
        assert(spec_gravity_step(a, mid, (m1 + m2)[0].0, (m1 + m2)[0].1));
        assert(spec_gravity_chain(mid, c, (m1 + m2).drop_first()));
        assert(spec_gravity_chain(a, c, m1 + m2));
    }
}

/// A single performed gravity move is a chain of one entry.
proof fn lemma_chain_single<R: SwapRule>(a: Board<R>, b: Board<R>, from: Pos, to: Pos)
    requires
        spec_gravity_step(a, b, from, to),
    ensures
        spec_gravity_chain(a, b, seq![(from, to)]),
{
    let m = seq![(from, to)];
    assert(m[0] == (from, to));
    assert(m.drop_first() =~= Seq::<(Pos, Pos)>::empty());
    assert(spec_boards_match(b, b));
    assert(spec_gravity_chain(b, b, m.drop_first()));
    assert(spec_gravity_step(a, b, m[0].0, m[0].1));
    assert(spec_gravity_chain(a, b, m));
}

/// Extends an in-progress chain over one move list by a callee's chain
/// over the segment that the callee appended.
proof fn lemma_chain_extend<R: SwapRule>(
    a: Board<R>,
    b: Board<R>,
    c: Board<R>,
    mv_b: Seq<(Pos, Pos)>,
    mv_c: Seq<(Pos, Pos)>,
    base: int,
)
    requires
        0 <= base <= mv_b.len(),
        mv_b.is_prefix_of(mv_c),
        spec_gravity_chain(a, b, mv_b.skip(base)),
        spec_gravity_chain(b, c, mv_c.skip(mv_b.len() as int)),
    ensures
        spec_gravity_chain(a, c, mv_c.skip(base)),
{
    assert(mv_c.skip(base) =~= mv_b.skip(base) + mv_c.skip(mv_b.len() as int)) by {
        assert forall|i: int|
            0 <= i < mv_c.len() - base implies mv_c.skip(base)[i] == (mv_b.skip(base)
            + mv_c.skip(mv_b.len() as int))[i] by {
            if i < mv_b.len() - base {
                assert(mv_b[base + i] == mv_c.subrange(0, mv_b.len() as int)[base + i]);
            }
        }
    }
    lemma_chain_append(a, b, c, mv_b.skip(base), mv_c.skip(mv_b.len() as int));
}

/// Wall preservation composes across successive board states.
proof fn lemma_same_walls_chain<R: SwapRule>(a: Board<R>, b: Board<R>, c: Board<R>)
    requires
        spec_same_walls(a, b),
        spec_same_walls(b, c),
    ensures
        spec_same_walls(a, c),
{
    assert forall|x: int, y: int|
        ((#[trigger] c.piece_at(x, y)) is Wall) == (a.piece_at(x, y) is Wall) by {
        assert((c.piece_at(x, y) is Wall) == (b.piece_at(x, y) is Wall));
    }
}

/// A prefix of a prefix is a prefix.
proof fn lemma_prefix_chain<T>(a: Seq<T>, b: Seq<T>, c: Seq<T>)
    requires
        a.is_prefix_of(b),
        b.is_prefix_of(c),
    ensures
        a.is_prefix_of(c),
{
    assert(a =~= c.subrange(0, a.len() as int)) by {
        assert forall|i: int| 0 <= i < a.len() implies a[i] == c.subrange(
            0,
            a.len() as int,
        )[i] by {
            assert(a[i] == b.subrange(0, b.len() as int)[i]);
        }
    }
}

} // verus!
