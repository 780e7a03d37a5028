//! The board: per-cell state, mutation under swap rules, and the change
//! queue that drives match detection.

use vstd::prelude::*;
use vstd::multiset::Multiset;
use std::collections::VecDeque;
use crate::bitmap::GridBitmap;
use crate::matching::{
    spec_any_match_at, spec_first_match, spec_match_valid, spec_pattern_like,
    spec_pattern_matches_at, spec_positions_are_variant, spec_seq_translated,
    spec_variant_matches, Match, MatchPattern,
};
use crate::piece::{Direction, DirectionSet, Piece, PieceType};
use crate::position::Pos;

verus! {

/// One predicate of the swap-rule chain.
///
/// Rules receive read-only access to the board and the two positions of a
/// proposed swap; a swap is performed only when every registered rule
/// allows it. The built-in movability rule always runs first and is not
/// part of this trait.
pub trait SwapRule: Sized {
    /// Whether the pieces at `first` and `second` may be swapped.
    fn allows(&self, board: &Board<Self>, first: Pos, second: Pos) -> bool;
}

/// A swap rule that allows every swap; a board whose rule list is empty
/// or holds only this rule enforces just the built-in movability rule.
pub struct AllowAll;

impl SwapRule for AllowAll {
    fn allows(&self, _board: &Board<Self>, _first: Pos, _second: Pos) -> bool {
        true
    }
}

/// The state of one game: a grid of pieces, the registered match
/// patterns, the swap-rule chain, and a FIFO queue of positions awaiting
/// a match check.
///
/// Positions with larger y are higher on the board, positions with
/// larger x further right. Every cell holds a wall, an empty space or a
/// regular piece; by default the whole board is walls. The cell contents
/// are stored packed: one occupancy bitmap per piece type (created on
/// first use of the type), one bitmap of empty cells, and one bitmap per
/// cardinal direction of movability.
pub struct Board<R: SwapRule> {
    width: i32,
    height: i32,
    patterns: Vec<MatchPattern>,
    swap_rules: Vec<R>,
    type_boards: Vec<(PieceType, GridBitmap)>,
    empties: GridBitmap,
    movable_north: GridBitmap,
    movable_south: GridBitmap,
    movable_east: GridBitmap,
    movable_west: GridBitmap,
    last_changed: VecDeque<Pos>,
}

impl<R: SwapRule> Board<R> {
    /// The board's width.
    pub closed spec fn spec_width(self) -> int {
        self.width as int
    }

    /// The board's height.
    pub closed spec fn spec_height(self) -> int {
        self.height as int
    }

    /// Whether (x, y) lies on the board.
    pub open spec fn in_bounds_xy(self, x: int, y: int) -> bool {
        &&& 0 <= x < self.spec_width()
        &&& 0 <= y < self.spec_height()
    }

    /// Whether `pos` lies on the board.
    pub open spec fn in_bounds(self, pos: Pos) -> bool {
        self.in_bounds_xy(pos.x as int, pos.y as int)
    }

    /// The queue of positions awaiting a match check, oldest first.
    pub closed spec fn queue(self) -> Seq<Pos> {
        self.last_changed@
    }

    /// The registered match patterns, in the order they are tried.
    pub closed spec fn spec_patterns(self) -> Seq<MatchPattern> {
        self.patterns@
    }

    /// The user-supplied swap rules, in the order they are tried.
    pub closed spec fn spec_rules(self) -> Seq<R> {
        self.swap_rules@
    }

    /// The movability bitmap of one direction.
    spec fn dir_board(self, direction: Direction) -> GridBitmap {
        match direction {
            Direction::North => self.movable_north,
            Direction::South => self.movable_south,
            Direction::East => self.movable_east,
            Direction::West => self.movable_west,
        }
    }

    /// Whether the occupancy bitmap of the type at index `i` is set at
    /// (x, y).
    spec fn type_bit(self, i: int, x: int, y: int) -> bool {
        self.type_boards@[i].1.at(x, y)
    }

    /// Whether some type's occupancy bitmap is set at (x, y).
    spec fn some_type_at(self, x: int, y: int) -> bool {
        exists|i: int|
            0 <= i < self.type_boards@.len() && #[trigger] self.type_bit(i, x, y)
    }

    /// The type whose occupancy bitmap is set at (x, y), if any.
    pub closed spec fn type_at(self, x: int, y: int) -> Option<PieceType> {
        if self.some_type_at(x, y) {
            let i = choose|i: int|
                0 <= i < self.type_boards@.len() && #[trigger] self.type_bit(i, x, y);
            Some(self.type_boards@[i].0)
        } else {
            None
        }
    }

    /// The four movability bits at (x, y).
    pub closed spec fn dirs_at(self, x: int, y: int) -> DirectionSet {
        DirectionSet {
            north: self.movable_north.at(x, y),
            south: self.movable_south.at(x, y),
            east: self.movable_east.at(x, y),
            west: self.movable_west.at(x, y),
        }
    }

    /// The piece occupying the cell (x, y), as the packed bitmaps
    /// represent it; a wall everywhere off the board.
    pub closed spec fn piece_at(self, x: int, y: int) -> Piece {
        if self.empties.at(x, y) {
            Piece::Empty
        } else {
            match self.type_at(x, y) {
                Some(piece_type) => Piece::Regular(piece_type, self.dirs_at(x, y)),
                None => Piece::Wall,
            }
        }
    }

    /// The piece occupying the cell at `pos`.
    pub open spec fn piece_at_pos(self, pos: Pos) -> Piece {
        self.piece_at(pos.x as int, pos.y as int)
    }

    /// The board's cells as one row-major sequence, bottom row first.
    pub open spec fn spec_cells(self) -> Seq<Piece> {
        Seq::new(
            (self.spec_width() * self.spec_height()) as nat,
            |i: int| self.piece_at(i % self.spec_width(), i / self.spec_width()),
        )
    }

    /// A bitmap has this board's dimensions.
    spec fn fits(self, bitmap: GridBitmap) -> bool {
        &&& bitmap.wf()
        &&& bitmap.spec_width() == self.spec_width()
        &&& bitmap.spec_height() == self.spec_height()
    }

    /// Every bitmap has this board's dimensions, and those dimensions
    /// admit a backing vector.
    spec fn dims_ok(self) -> bool {
        &&& 0 <= self.width
        &&& 0 <= self.height
        &&& self.spec_width() * self.spec_height() <= usize::MAX
        &&& self.fits(self.empties)
        &&& self.fits(self.movable_north)
        &&& self.fits(self.movable_south)
        &&& self.fits(self.movable_east)
        &&& self.fits(self.movable_west)
        &&& forall|i: int|
            0 <= i < self.type_boards@.len() ==> self.fits(#[trigger] self.type_boards@[i].1)
    }

    /// Each piece type has at most one entry in the type table.
    spec fn keys_unique(self) -> bool {
        forall|i: int, j: int|
            0 <= i < self.type_boards@.len() && 0 <= j < self.type_boards@.len() && i != j
                ==> (#[trigger] self.type_boards@[i].0) != (#[trigger] self.type_boards@[j].0)
    }

    /// The per-cell invariants of the packed representation: at most one
    /// type occupies any cell; an empty cell is in no type's bitmap and
    /// is movable in all four directions; a cell that is neither empty
    /// nor occupied (a wall) is movable in none.
    spec fn cells_ok(self) -> bool {
        &&& forall|i: int, j: int, x: int, y: int|
            0 <= i < self.type_boards@.len() && 0 <= j < self.type_boards@.len()
                && #[trigger] self.type_bit(i, x, y) && #[trigger] self.type_bit(j, x, y) ==> i
                == j
        &&& forall|x: int, y: int, i: int|
            0 <= i < self.type_boards@.len() && #[trigger] self.empties.at(x, y)
                ==> !(#[trigger] self.type_bit(i, x, y))
        &&& forall|x: int, y: int|
            #[trigger] self.empties.at(x, y)
                ==> self.dirs_at(x, y) == (DirectionSet {
                north: true,
                south: true,
                east: true,
                west: true,
            })
        &&& forall|x: int, y: int|
            !(#[trigger] self.empties.at(x, y)) && !self.some_type_at(x, y)
                ==> self.dirs_at(x, y) == (DirectionSet {
                north: false,
                south: false,
                east: false,
                west: false,
            })
    }

    /// Every queued position lies on the board.
    spec fn queue_ok(self) -> bool {
        forall|k: int| 0 <= k < self.queue().len() ==> self.in_bounds(#[trigger] self.queue()[k])
    }

    /// The registered patterns are ordered by weakly decreasing rank.
    spec fn patterns_sorted(self) -> bool {
        forall|i: int, j: int|
            0 <= i <= j < self.spec_patterns().len() ==> (#[trigger] self.spec_patterns()[i]).rank
                >= (#[trigger] self.spec_patterns()[j]).rank
    }

    /// The packed per-cell state is consistent.
    ///
    /// Every bitmap has the board's dimensions; each piece type appears
    /// at most once in the type table; the per-cell invariants of
    /// `cells_ok` hold; queued positions lie on the board, and the
    /// patterns are ordered by weakly decreasing rank.
    pub closed spec fn wf(self) -> bool {
        &&& self.dims_ok()
        &&& self.keys_unique()
        &&& self.cells_ok()
        &&& self.queue_ok()
        &&& self.patterns_sorted()
    }

    /// Under `wf`, a set type bit determines the piece at its cell.
    proof fn lemma_piece_at_regular(self, i: int, x: int, y: int)
        requires
            self.wf(),
            0 <= i < self.type_boards@.len(),
            self.type_bit(i, x, y),
        ensures
            self.piece_at(x, y) == Piece::Regular(self.type_boards@[i].0, self.dirs_at(x, y)),
            self.type_at(x, y) == Some(self.type_boards@[i].0),
    {
        assert(!self.empties.at(x, y));
        assert(self.some_type_at(x, y));
        let j = choose|j: int|
            0 <= j < self.type_boards@.len() && #[trigger] self.type_bit(j, x, y);
        assert(i == j);
    }

    /// The registered patterns are ordered by weakly decreasing rank,
    /// so earlier patterns never have a smaller rank than later ones.
    pub proof fn lemma_patterns_sorted(self)
        requires
            self.wf(),
        ensures
            forall|i: int, j: int|
                0 <= i <= j < self.spec_patterns().len() ==> (#[trigger] self.spec_patterns()[i]).rank
                    >= (#[trigger] self.spec_patterns()[j]).rank,
    {
    }

    /// The reported type and the reported piece agree: a cell has type
    /// `t` exactly when the piece there is a regular piece of type `t`.
    pub proof fn lemma_type_at_piece_at(self, x: int, y: int)
        requires
            self.wf(),
        ensures
            forall|t: PieceType|
                (self.type_at(x, y) == Some(t)) == #[trigger] self.has_type(t, x, y),
            (self.type_at(x, y) is None) == !(self.piece_at(x, y) is Regular),
    {
        if self.some_type_at(x, y) {
            let i = choose|i: int|
                0 <= i < self.type_boards@.len() && #[trigger] self.type_bit(i, x, y);
            self.lemma_piece_at_regular(i, x, y);
        }
    }

    /// Creates a new board.
    ///
    /// All cells start as walls. The given match patterns are kept in
    /// descending rank order (patterns of equal rank in no guaranteed
    /// order); the given swap rules run, in order, after the built-in
    /// movability rule.
    pub fn new(width: i32, height: i32, patterns: Vec<MatchPattern>, swap_rules: Vec<R>) -> (r:
        Board<R>)
        requires
            0 <= width,
            0 <= height,
            width * height <= usize::MAX,
        ensures
            r.wf(),
            r.spec_width() == width,
            r.spec_height() == height,
            forall|x: int, y: int| r.piece_at(x, y) == Piece::Wall,
            r.queue() == Seq::<Pos>::empty(),
            r.spec_patterns().to_multiset() == patterns@.to_multiset(),
            r.spec_patterns().len() == patterns@.len(),
            forall|p: MatchPattern| #[trigger]
                r.spec_patterns().contains(p) == patterns@.contains(p),
            r.spec_rules() == swap_rules@,
    {
        let sorted = sort_patterns_descending(patterns);
        let r = Board {
            width,
            height,
            patterns: sorted,
            swap_rules,
            type_boards: Vec::new(),
            empties: GridBitmap::new(width, height),
            movable_north: GridBitmap::new(width, height),
            movable_south: GridBitmap::new(width, height),
            movable_east: GridBitmap::new(width, height),
            movable_west: GridBitmap::new(width, height),
            last_changed: VecDeque::new(),
        };
        proof {
            assert forall|x: int, y: int| r.piece_at(x, y) == Piece::Wall by {
                assert(!r.some_type_at(x, y));
            }
        }
        r
    }

    /// Gets the piece at `pos`.
    ///
    /// Returns the empty piece if the cell is in the empty bitmap,
    /// otherwise the regular piece of the one type whose bitmap holds
    /// the cell, otherwise a wall.
    pub fn piece(&self, pos: Pos) -> (r: Piece)
        requires
            self.wf(),
            self.in_bounds(pos),
        ensures
            r == self.piece_at_pos(pos),
    {
        if self.empties.is_set(pos) {
            return Piece::Empty;
        }
        match self.piece_type(pos) {
            None => Piece::Wall,
            Some(piece_type) => Piece::Regular(piece_type, self.movable_directions(pos)),
        }
    }

    /// Gets the type of the regular piece at `pos`, or `None` for an
    /// empty cell or a wall.
    pub fn piece_type(&self, pos: Pos) -> (r: Option<PieceType>)
        requires
            self.wf(),
            self.in_bounds(pos),
        ensures
            r == self.type_at(pos.x as int, pos.y as int),
    {
        let ghost x = pos.x as int;
        let ghost y = pos.y as int;
        let n = self.type_boards.len();
        let mut i: usize = 0;
        while i < n
            invariant
                self.wf(),
                self.in_bounds(pos),
                x == pos.x as int,
                y == pos.y as int,
                n == self.type_boards@.len(),
                i <= n,
                forall|k: int| 0 <= k < i ==> !(#[trigger] self.type_bit(k, x, y)),
            decreases n - i,
        {
            let entry = &self.type_boards[i];
            if entry.1.is_set(pos) {
                proof {
                    self.lemma_piece_at_regular(i as int, x, y);
                }
                return Some(entry.0);
            }
            i = i + 1;
        }
        proof {
            assert(!self.some_type_at(x, y));
        }
        None
    }

    /// Gets the four movability bits at `pos`: all set for an empty
    /// cell, none for a wall, a regular piece's own directions otherwise.
    pub fn movable_directions(&self, pos: Pos) -> (r: DirectionSet)
        requires
            self.wf(),
            self.in_bounds(pos),
        ensures
            r == self.dirs_at(pos.x as int, pos.y as int),
    {
        DirectionSet {
            north: self.movable_north.is_set(pos),
            south: self.movable_south.is_set(pos),
            east: self.movable_east.is_set(pos),
            west: self.movable_west.is_set(pos),
        }
    }

    /// A cell of `post` whose bits in every bitmap equal those of a cell
    /// of `pre` holds that cell's piece.
    proof fn lemma_piece_at_corresponds(pre: Board<R>, post: Board<R>, sx: int, sy: int, dx: int, dy: int)
        requires
            pre.cells_ok(),
            post.empties.at(dx, dy) == pre.empties.at(sx, sy),
            post.dirs_at(dx, dy) == pre.dirs_at(sx, sy),
            post.type_boards@.len() == pre.type_boards@.len(),
            forall|i: int|
                0 <= i < pre.type_boards@.len() ==> (#[trigger] post.type_boards@[i]).0
                    == pre.type_boards@[i].0,
            forall|i: int|
                0 <= i < pre.type_boards@.len() ==> #[trigger] post.type_bit(i, dx, dy)
                    == pre.type_bit(i, sx, sy),
        ensures
            post.piece_at(dx, dy) == pre.piece_at(sx, sy),
            post.type_at(dx, dy) == pre.type_at(sx, sy),
            post.some_type_at(dx, dy) == pre.some_type_at(sx, sy),
    {
        if pre.some_type_at(sx, sy) {
            let i = choose|i: int|
                0 <= i < pre.type_boards@.len() && #[trigger] pre.type_bit(i, sx, sy);
            assert(post.type_bit(i, dx, dy));
            assert(post.some_type_at(dx, dy));
            let j = choose|j: int|
                0 <= j < post.type_boards@.len() && #[trigger] post.type_bit(j, dx, dy);
            assert(pre.type_bit(j, sx, sy));
            assert(i == j);
        } else {
            assert forall|i: int|
                0 <= i < post.type_boards@.len() implies !(#[trigger] post.type_bit(i, dx, dy)) by {
                assert(!pre.type_bit(i, sx, sy));
            }
            assert(!post.some_type_at(dx, dy));
        }
    }

    /// Pieces at cells whose bits every bitmap keeps are unchanged.
    proof fn lemma_piece_at_unchanged(pre: Board<R>, post: Board<R>, x: int, y: int)
        requires
            pre.cells_ok(),
            post.empties.at(x, y) == pre.empties.at(x, y),
            post.dirs_at(x, y) == pre.dirs_at(x, y),
            pre.type_boards@.len() <= post.type_boards@.len(),
            forall|i: int|
                0 <= i < pre.type_boards@.len() ==> (#[trigger] post.type_boards@[i]).0
                    == pre.type_boards@[i].0,
            forall|i: int|
                0 <= i < pre.type_boards@.len() ==> #[trigger] post.type_bit(i, x, y)
                    == pre.type_bit(i, x, y),
            forall|i: int|
                pre.type_boards@.len() <= i < post.type_boards@.len()
                    ==> !(#[trigger] post.type_bit(i, x, y)),
        ensures
            post.piece_at(x, y) == pre.piece_at(x, y),
            post.type_at(x, y) == pre.type_at(x, y),
            post.some_type_at(x, y) == pre.some_type_at(x, y),
    {
        if pre.some_type_at(x, y) {
            let i = choose|i: int|
                0 <= i < pre.type_boards@.len() && #[trigger] pre.type_bit(i, x, y);
            assert(post.type_bit(i, x, y));
            assert(post.some_type_at(x, y));
            let j = choose|j: int|
                0 <= j < post.type_boards@.len() && #[trigger] post.type_bit(j, x, y);
            assert(j < pre.type_boards@.len());
            assert(pre.type_bit(j, x, y));
            assert(i == j);
        } else {
            assert forall|i: int|
                0 <= i < post.type_boards@.len() implies !(#[trigger] post.type_bit(i, x, y)) by {
                if i < pre.type_boards@.len() {
                    assert(!pre.type_bit(i, x, y));
                }
            }
            assert(!post.some_type_at(x, y));
        }
    }

    /// Clears every type's occupancy bit at `pos`.
    fn clear_type_bits(&mut self, pos: Pos)
        requires
            old(self).dims_ok(),
            old(self).in_bounds(pos),
        ensures
            final(self).dims_ok(),
            final(self).width == old(self).width,
            final(self).height == old(self).height,
            final(self).patterns == old(self).patterns,
            final(self).swap_rules == old(self).swap_rules,
            final(self).empties == old(self).empties,
            final(self).movable_north == old(self).movable_north,
            final(self).movable_south == old(self).movable_south,
            final(self).movable_east == old(self).movable_east,
            final(self).movable_west == old(self).movable_west,
            final(self).last_changed == old(self).last_changed,
            final(self).type_boards@.len() == old(self).type_boards@.len(),
            forall|i: int|
                0 <= i < old(self).type_boards@.len() ==> (#[trigger] final(self).type_boards@[i]).0
                    == old(self).type_boards@[i].0,
            forall|i: int|
                0 <= i < old(self).type_boards@.len()
                    ==> !(#[trigger] final(self).type_bit(i, pos.x as int, pos.y as int)),
            forall|i: int, x: int, y: int|
                0 <= i < old(self).type_boards@.len() && !(x == pos.x as int && y == pos.y as int)
                    ==> (#[trigger] final(self).type_bit(i, x, y)) == old(self).type_bit(i, x, y),
    {
        let n = self.type_boards.len();
        let mut i: usize = 0;
        while i < n
            invariant
                self.dims_ok(),
                self.in_bounds(pos),
                i <= n,
                n == self.type_boards@.len(),
                self.width == old(self).width,
                self.height == old(self).height,
                self.patterns == old(self).patterns,
                self.swap_rules == old(self).swap_rules,
                self.empties == old(self).empties,
                self.movable_north == old(self).movable_north,
                self.movable_south == old(self).movable_south,
                self.movable_east == old(self).movable_east,
                self.movable_west == old(self).movable_west,
                self.last_changed == old(self).last_changed,
                n == old(self).type_boards@.len(),
                forall|k: int|
                    0 <= k < n ==> (#[trigger] self.type_boards@[k]).0
                        == old(self).type_boards@[k].0,
                forall|k: int|
                    0 <= k < i ==> !(#[trigger] self.type_bit(k, pos.x as int, pos.y as int)),
                forall|k: int| i <= k < n ==> #[trigger] self.type_boards@[k]
                    == old(self).type_boards@[k],
                forall|k: int, x: int, y: int|
                    0 <= k < n && !(x == pos.x as int && y == pos.y as int)
                        ==> (#[trigger] self.type_bit(k, x, y)) == old(self).type_bit(k, x, y),
            decreases n - i,
        {
            let ghost before = *self;
            self.type_boards[i].1.unset(pos);
            proof {
                assert(self.type_boards@ =~= before.type_boards@.update(
                    i as int,
                    self.type_boards@[i as int],
                ));
                assert forall|k: int, x: int, y: int|
                    0 <= k < n && !(x == pos.x as int && y == pos.y as int) implies (
                #[trigger] self.type_bit(k, x, y)) == before.type_bit(k, x, y) by {
                    if k != i as int {
                        assert(self.type_boards@[k] == before.type_boards@[k]);
                    }
                }
                assert forall|k: int| 0 <= k < i + 1 implies !(#[trigger] self.type_bit(
                    k,
                    pos.x as int,
                    pos.y as int,
                )) by {
                    if k < i as int {
                        assert(self.type_boards@[k] == before.type_boards@[k]);
                        assert(!before.type_bit(k, pos.x as int, pos.y as int));
                    }
                }
            }
            i = i + 1;
        }
    }

    /// Writes the four movability bits at `pos`.
    fn set_movable_directions(&mut self, pos: Pos, directions: DirectionSet)
        requires
            old(self).dims_ok(),
            old(self).in_bounds(pos),
        ensures
            final(self).dims_ok(),
            final(self).width == old(self).width,
            final(self).height == old(self).height,
            final(self).patterns == old(self).patterns,
            final(self).swap_rules == old(self).swap_rules,
            final(self).empties == old(self).empties,
            final(self).type_boards == old(self).type_boards,
            final(self).last_changed == old(self).last_changed,
            final(self).dirs_at(pos.x as int, pos.y as int) == directions,
            forall|x: int, y: int|
                !(x == pos.x as int && y == pos.y as int) ==> (#[trigger] final(self).dirs_at(x, y))
                    == old(self).dirs_at(x, y),
    {
        self.movable_north.write(pos, directions.north);
        self.movable_south.write(pos, directions.south);
        self.movable_east.write(pos, directions.east);
        self.movable_west.write(pos, directions.west);
    }

    /// Finds the type table entry for `piece_type`, creating an empty
    /// bitmap for it on first use.
    fn ensure_type_board(&mut self, piece_type: PieceType) -> (idx: usize)
        requires
            old(self).dims_ok(),
            old(self).keys_unique(),
        ensures
            final(self).dims_ok(),
            final(self).keys_unique(),
            final(self).width == old(self).width,
            final(self).height == old(self).height,
            final(self).patterns == old(self).patterns,
            final(self).swap_rules == old(self).swap_rules,
            final(self).empties == old(self).empties,
            final(self).movable_north == old(self).movable_north,
            final(self).movable_south == old(self).movable_south,
            final(self).movable_east == old(self).movable_east,
            final(self).movable_west == old(self).movable_west,
            final(self).last_changed == old(self).last_changed,
            idx < final(self).type_boards@.len(),
            final(self).type_boards@[idx as int].0 == piece_type,
            old(self).type_boards@.len() <= final(self).type_boards@.len() <= old(
                self,
            ).type_boards@.len() + 1,
            forall|i: int|
                0 <= i < old(self).type_boards@.len() ==> (#[trigger] final(self).type_boards@[i])
                    == old(self).type_boards@[i],
            forall|i: int, x: int, y: int|
                old(self).type_boards@.len() <= i < final(self).type_boards@.len()
                    ==> !(#[trigger] final(self).type_bit(i, x, y)),
    {
        let n = self.type_boards.len();
        let mut i: usize = 0;
        while i < n
            invariant
                *self == *old(self),
                old(self).dims_ok(),
                old(self).keys_unique(),
                n == self.type_boards@.len(),
                i <= n,
                forall|k: int| 0 <= k < i ==> (#[trigger] self.type_boards@[k]).0 != piece_type,
            decreases n - i,
        {
            if self.type_boards[i].0 == piece_type {
                return i;
            }
            i = i + 1;
        }
        let bitmap = GridBitmap::new(self.width, self.height);
        self.type_boards.push((piece_type, bitmap));
        proof {
            assert(self.type_boards@ =~= old(self).type_boards@.push(
                (piece_type, bitmap),
            ));
            assert forall|a: int, b: int|
                0 <= a < self.type_boards@.len() && 0 <= b < self.type_boards@.len() && a != b
                implies (#[trigger] self.type_boards@[a]).0 != (
            #[trigger] self.type_boards@[b]).0 by {
                if a < n && b < n {
                    assert(old(self).type_boards@[a].0 != old(self).type_boards@[b].0);
                }
            }
        }
        n
    }

    /// Two boards with the same grids and patterns satisfy the same
    /// grid invariants and hold the same pieces.
    proof fn lemma_same_grid(a: Board<R>, b: Board<R>)
        requires
            b.width == a.width,
            b.height == a.height,
            b.patterns == a.patterns,
            b.type_boards == a.type_boards,
            b.empties == a.empties,
            b.movable_north == a.movable_north,
            b.movable_south == a.movable_south,
            b.movable_east == a.movable_east,
            b.movable_west == a.movable_west,
            a.dims_ok(),
            a.keys_unique(),
            a.cells_ok(),
            a.patterns_sorted(),
        ensures
            b.dims_ok(),
            b.keys_unique(),
            b.cells_ok(),
            b.patterns_sorted(),
            forall|i: int, x: int, y: int| #[trigger] b.type_bit(i, x, y) == a.type_bit(i, x, y),
            forall|x: int, y: int| #[trigger] b.dirs_at(x, y) == a.dirs_at(x, y),
            forall|x: int, y: int| #[trigger] b.piece_at(x, y) == a.piece_at(x, y),
            forall|x: int, y: int| #[trigger] b.type_at(x, y) == a.type_at(x, y),
    {
        assert forall|i: int, x: int, y: int| #[trigger]
            b.type_bit(i, x, y) == a.type_bit(i, x, y) by {}
        assert forall|x: int, y: int| #[trigger] b.dirs_at(x, y) == a.dirs_at(x, y) by {}
        assert forall|x: int, y: int| #[trigger] b.piece_at(x, y) == a.piece_at(x, y) by {
            Self::lemma_piece_at_unchanged(a, b, x, y);
        }
        assert forall|x: int, y: int| #[trigger] b.type_at(x, y) == a.type_at(x, y) by {
            Self::lemma_piece_at_unchanged(a, b, x, y);
        }
        assert(b.spec_patterns() == a.spec_patterns());
        assert(b.patterns_sorted());
        assert(b.cells_ok()) by {
            assert forall|i: int, j: int, x: int, y: int|
                0 <= i < b.type_boards@.len() && 0 <= j < b.type_boards@.len()
                    && #[trigger] b.type_bit(i, x, y) && #[trigger] b.type_bit(j, x, y) implies i
                == j by {
                assert(a.type_bit(i, x, y) && a.type_bit(j, x, y));
            }
            assert forall|x: int, y: int, i: int|
                0 <= i < b.type_boards@.len() && #[trigger] b.empties.at(x, y) implies !(
            #[trigger] b.type_bit(i, x, y)) by {
                assert(b.type_bit(i, x, y) == a.type_bit(i, x, y));
            }
            assert forall|x: int, y: int|
                !(#[trigger] b.empties.at(x, y)) && !b.some_type_at(x, y) implies b.dirs_at(x, y)
                == (DirectionSet { north: false, south: false, east: false, west: false }) by {
                assert(b.some_type_at(x, y) == a.some_type_at(x, y)) by {
                    Self::lemma_piece_at_unchanged(a, b, x, y);
                }
                assert(b.dirs_at(x, y) == a.dirs_at(x, y));
            }
        }
    }

    /// The row-major index of an in-bounds cell recovers its
    /// coordinates.
    proof fn lemma_cell_index(self, x: int, y: int)
        requires
            0 <= x < self.spec_width(),
            0 <= y < self.spec_height(),
        ensures
            0 <= y * self.spec_width() + x < self.spec_width() * self.spec_height(),
            (y * self.spec_width() + x) % self.spec_width() == x,
            (y * self.spec_width() + x) / self.spec_width() == y,
    {
        let w = self.spec_width();
        let h = self.spec_height();
        assert(0 <= y * w + x < w * h) by (nonlinear_arith)
            requires
                0 <= x < w,
                0 <= y < h,
        ;
        vstd::arithmetic::div_mod::lemma_fundamental_div_mod_converse(y * w + x, w, y, x);
    }

    /// Exchanging the contents of two cells permutes the board's cells:
    /// the multiset of pieces on the board is unchanged.
    proof fn lemma_cells_swap(pre: Board<R>, post: Board<R>, first: Pos, second: Pos)
        requires
            0 <= pre.spec_width(),
            0 <= pre.spec_height(),
            post.spec_width() == pre.spec_width(),
            post.spec_height() == pre.spec_height(),
            pre.in_bounds(first),
            pre.in_bounds(second),
            post.piece_at_pos(first) == pre.piece_at_pos(second),
            post.piece_at_pos(second) == pre.piece_at_pos(first),
            forall|x: int, y: int|
                !(x == first.x as int && y == first.y as int) && !(x == second.x as int && y
                    == second.y as int) ==> (#[trigger] post.piece_at(x, y)) == pre.piece_at(x, y),
        ensures
            post.spec_cells().to_multiset() == pre.spec_cells().to_multiset(),
    {
        broadcast use vstd::seq_lib::group_to_multiset_ensures;
        broadcast use vstd::multiset::group_multiset_axioms;

        let w = pre.spec_width();
        let s1 = pre.spec_cells();
        let s2 = post.spec_cells();
        pre.lemma_cell_index(first.x as int, first.y as int);
        pre.lemma_cell_index(second.x as int, second.y as int);
        let ia = first.y as int * w + first.x as int;
        let ib = second.y as int * w + second.x as int;
        if first == second {
            assert(s2 =~= s1) by {
                assert forall|i: int| 0 <= i < s1.len() implies s2[i] == s1[i] by {
                    vstd::arithmetic::div_mod::lemma_fundamental_div_mod(i, w);
                    if i % w == first.x as int && i / w == first.y as int {
                        assert(s2[i] == post.piece_at_pos(first));
                    }
                }
            }
        } else {
            assert(ia != ib) by {
                if ia == ib {
                    assert(first.x as int == ia % w && first.y as int == ia / w);
                    assert(second.x as int == ib % w && second.y as int == ib / w);
                }
            }
            assert(s2 =~= s1.update(ia, s1[ib]).update(ib, s1[ia])) by {
                assert(s1[ia] == pre.piece_at_pos(first));
                assert(s1[ib] == pre.piece_at_pos(second));
                assert forall|i: int|
                    0 <= i < s1.len() implies s2[i] == s1.update(ia, s1[ib]).update(
                    ib,
                    s1[ia],
                )[i] by {
                    vstd::arithmetic::div_mod::lemma_fundamental_div_mod(i, w);
                    if i == ia {
                        assert(s2[i] == post.piece_at_pos(first));
                    } else if i == ib {
                        assert(s2[i] == post.piece_at_pos(second));
                    } else {
                        if i % w == first.x as int && i / w == first.y as int {
                            vstd::arithmetic::mul::lemma_mul_is_commutative(w, first.y as int);
                            assert(i == ia);
                        }
                        if i % w == second.x as int && i / w == second.y as int {
                            vstd::arithmetic::mul::lemma_mul_is_commutative(w, second.y as int);
                            assert(i == ib);
                        }
                        assert(post.piece_at(i % w, i / w) == pre.piece_at(i % w, i / w));
                    }
                }
            }
            let a = s1[ia];
            let b = s1[ib];
            let mid = s1.update(ia, b);
            assert(mid.to_multiset() == s1.to_multiset().insert(b).remove(a));
            assert(mid[ib] == b);
            assert(s2.to_multiset() == mid.to_multiset().insert(a).remove(b));
            assert(s1.contains(a));
            assert(s1.to_multiset().count(a) > 0);
            assert(s2.to_multiset() =~= s1.to_multiset());
        }
    }

    /// Overwriting one cell replaces exactly one entry in the board's
    /// cells: the new multiset is the old with the previous piece
    /// removed and the written piece added.
    proof fn lemma_cells_set(pre: Board<R>, post: Board<R>, pos: Pos, piece: Piece)
        requires
            0 <= pre.spec_width(),
            0 <= pre.spec_height(),
            post.spec_width() == pre.spec_width(),
            post.spec_height() == pre.spec_height(),
            pre.in_bounds(pos),
            post.piece_at_pos(pos) == piece,
            forall|x: int, y: int|
                !(x == pos.x as int && y == pos.y as int) ==> (#[trigger] post.piece_at(x, y))
                    == pre.piece_at(x, y),
        ensures
            post.spec_cells().to_multiset() == pre.spec_cells().to_multiset().insert(
                piece,
            ).remove(pre.piece_at_pos(pos)),
    {
        broadcast use vstd::seq_lib::group_to_multiset_ensures;
        broadcast use vstd::multiset::group_multiset_axioms;

        let w = pre.spec_width();
        let s1 = pre.spec_cells();
        let s2 = post.spec_cells();
        pre.lemma_cell_index(pos.x as int, pos.y as int);
        let ip = pos.y as int * w + pos.x as int;
        assert(s1[ip] == pre.piece_at_pos(pos));
        assert(s2 =~= s1.update(ip, piece)) by {
            assert forall|i: int| 0 <= i < s1.len() implies s2[i] == s1.update(ip, piece)[i] by {
                vstd::arithmetic::div_mod::lemma_fundamental_div_mod(i, w);
                if i == ip {
                    assert(s2[i] == post.piece_at_pos(pos));
                } else {
                    if i % w == pos.x as int && i / w == pos.y as int {
                        vstd::arithmetic::mul::lemma_mul_is_commutative(w, pos.y as int);
                        assert(i == ip);
                    }
                    assert(post.piece_at(i % w, i / w) == pre.piece_at(i % w, i / w));
                }
            }
        }
    }

    /// Replaces the piece at `pos` and returns the previous piece.
    ///
    /// The replacement is unconditional: no swap rule applies. The cell
    /// is marked as needing a match check, so `pos` is appended to the
    /// change queue.
    pub fn set_piece(&mut self, pos: Pos, piece: Piece) -> (r: Piece)
        requires
            old(self).wf(),
            old(self).in_bounds(pos),
        ensures
            final(self).wf(),
            final(self).spec_width() == old(self).spec_width(),
            final(self).spec_height() == old(self).spec_height(),
            final(self).spec_patterns() == old(self).spec_patterns(),
            final(self).spec_rules() == old(self).spec_rules(),
            r == old(self).piece_at_pos(pos),
            final(self).piece_at_pos(pos) == piece,
            forall|x: int, y: int|
                !(x == pos.x as int && y == pos.y as int) ==> (#[trigger] final(self).piece_at(
                    x,
                    y,
                )) == old(self).piece_at(x, y),
            final(self).spec_cells().to_multiset() == old(self).spec_cells().to_multiset().insert(
                piece,
            ).remove(r),
            final(self).queue() == old(self).queue().push(pos),
    {
        let old_piece = self.piece(pos);
        let ghost pre = *self;
        let ghost px = pos.x as int;
        let ghost py = pos.y as int;
        self.clear_type_bits(pos);
        let ghost cleared = *self;
        match piece {
            Piece::Regular(piece_type, directions) => {
                let idx = self.ensure_type_board(piece_type);
                let ghost mid = *self;
                self.type_boards[idx].1.set(pos);
                proof {
                    assert(self.type_boards@ =~= mid.type_boards@.update(
                        idx as int,
                        self.type_boards@[idx as int],
                    ));
                }
                self.empties.unset(pos);
                self.set_movable_directions(pos, directions);
                proof {
                    let n = self.type_boards@.len() as int;
                    assert forall|i: int, x: int, y: int|
                        0 <= i < n && !(x == px && y == py) implies (#[trigger] self.type_bit(
                        i,
                        x,
                        y,
                    )) == mid.type_bit(i, x, y) by {
                        if i == idx as int {
                            assert(self.type_boards@[i].1.at(x, y) == mid.type_boards@[i].1.at(
                                x,
                                y,
                            ));
                        } else {
                            assert(self.type_boards@[i] == mid.type_boards@[i]);
                        }
                    }
                    assert forall|i: int, x: int, y: int|
                        0 <= i < pre.type_boards@.len() && !(x == px && y == py) implies (
                    #[trigger] self.type_bit(i, x, y)) == pre.type_bit(i, x, y) by {
                        assert(self.type_bit(i, x, y) == mid.type_bit(i, x, y));
                        assert(mid.type_boards@[i] == cleared.type_boards@[i]);
                        assert(mid.type_bit(i, x, y) == cleared.type_bit(i, x, y));
                        assert(cleared.type_bit(i, x, y) == pre.type_bit(i, x, y));
                    }
                    assert forall|i: int, x: int, y: int|
                        pre.type_boards@.len() <= i < n && !(x == px && y == py) implies !(
                    #[trigger] self.type_bit(i, x, y)) by {
                        assert(self.type_bit(i, x, y) == mid.type_bit(i, x, y));
                        assert(!mid.type_bit(i, x, y));
                    }
                    assert forall|i: int|
                        0 <= i < n implies (#[trigger] self.type_bit(i, px, py)) == (i
                        == idx as int) by {
                        if i == idx as int {
                            assert(self.type_bit(i, px, py));
                        } else {
                            assert(self.type_boards@[i] == mid.type_boards@[i]);
                            assert(self.type_bit(i, px, py) == mid.type_bit(i, px, py));
                            if i < pre.type_boards@.len() {
                                assert(mid.type_boards@[i] == cleared.type_boards@[i]);
                                assert(mid.type_bit(i, px, py) == cleared.type_bit(i, px, py));
                                assert(!cleared.type_bit(i, px, py));
                            } else {
                                assert(!mid.type_bit(i, px, py));
                            }
                        }
                    }
                    assert(self.spec_cell_profile(pos, piece));
                    Self::lemma_set_piece_finish(pre, *self, pos, piece);
                }
            },
            Piece::Empty => {
                self.empties.set(pos);
                self.set_movable_directions(pos, DirectionSet::all());
                proof {
                    Self::lemma_cleared_arm(pre, cleared, *self, pos);
                    assert(self.spec_cell_profile(pos, piece));
                    Self::lemma_set_piece_finish(pre, *self, pos, piece);
                }
            },
            Piece::Wall => {
                self.empties.unset(pos);
                self.set_movable_directions(pos, DirectionSet::none());
                proof {
                    Self::lemma_cleared_arm(pre, cleared, *self, pos);
                    assert(self.spec_cell_profile(pos, piece));
                    Self::lemma_set_piece_finish(pre, *self, pos, piece);
                }
            },
        }
        let ghost placed = *self;
        self.last_changed.push_back(pos);
        proof {
            assert(self.queue() =~= old(self).queue().push(pos));
            Self::lemma_same_grid(placed, *self);
            assert forall|k: int| 0 <= k < self.queue().len() implies self.in_bounds(
                #[trigger] self.queue()[k],
            ) by {
                if k < old(self).queue().len() {
                    assert(self.queue()[k] == old(self).queue()[k]);
                } else {
                    assert(self.queue()[k] == pos);
                }
            }
            assert(self.wf());
            assert(self.piece_at_pos(pos) == placed.piece_at_pos(pos));
            Self::lemma_cells_set(*old(self), *self, pos, piece);
        }
        old_piece
    }

    /// After `clear_type_bits` on a board whose queue, type table and
    /// grids are otherwise untouched, no type occupies the cleared cell
    /// and every other cell's type bits are as before.
    proof fn lemma_cleared_arm(pre: Board<R>, cleared: Board<R>, post: Board<R>, pos: Pos)
        requires
            post.type_boards == cleared.type_boards,
            cleared.type_boards@.len() == pre.type_boards@.len(),
            forall|i: int|
                0 <= i < pre.type_boards@.len() ==> (#[trigger] cleared.type_boards@[i]).0
                    == pre.type_boards@[i].0,
            forall|i: int|
                0 <= i < pre.type_boards@.len()
                    ==> !(#[trigger] cleared.type_bit(i, pos.x as int, pos.y as int)),
            forall|i: int, x: int, y: int|
                0 <= i < pre.type_boards@.len() && !(x == pos.x as int && y == pos.y as int)
                    ==> (#[trigger] cleared.type_bit(i, x, y)) == pre.type_bit(i, x, y),
        ensures
            forall|i: int|
                0 <= i < post.type_boards@.len()
                    ==> !(#[trigger] post.type_bit(i, pos.x as int, pos.y as int)),
            forall|i: int, x: int, y: int|
                0 <= i < pre.type_boards@.len() && !(x == pos.x as int && y == pos.y as int)
                    ==> (#[trigger] post.type_bit(i, x, y)) == pre.type_bit(i, x, y),
            forall|i: int|
                0 <= i < pre.type_boards@.len() ==> (#[trigger] post.type_boards@[i]).0
                    == pre.type_boards@[i].0,
    {
        assert forall|i: int, x: int, y: int| #[trigger]
            post.type_bit(i, x, y) == cleared.type_bit(i, x, y) by {}
    }

    /// After an overwrite of `pos` by `piece`, the packed bitmaps hold
    /// exactly the bits that represent `piece` in that cell.
    spec fn spec_cell_profile(self, pos: Pos, piece: Piece) -> bool {
        let px = pos.x as int;
        let py = pos.y as int;
        match piece {
            Piece::Regular(piece_type, directions) => exists|idx: int|
                #![auto]
                {
                    &&& 0 <= idx < self.type_boards@.len()
                    &&& self.type_boards@[idx].0 == piece_type
                    &&& forall|i: int|
                        0 <= i < self.type_boards@.len() ==> (#[trigger] self.type_bit(i, px, py))
                            == (i == idx)
                    &&& !self.empties.at(px, py)
                    &&& self.dirs_at(px, py) == directions
                },
            Piece::Empty => {
                &&& forall|i: int|
                    0 <= i < self.type_boards@.len() ==> !(#[trigger] self.type_bit(i, px, py))
                &&& self.empties.at(px, py)
                &&& self.dirs_at(px, py) == (DirectionSet {
                    north: true,
                    south: true,
                    east: true,
                    west: true,
                })
            },
            Piece::Wall => {
                &&& forall|i: int|
                    0 <= i < self.type_boards@.len() ==> !(#[trigger] self.type_bit(i, px, py))
                &&& !self.empties.at(px, py)
                &&& self.dirs_at(px, py) == (DirectionSet {
                    north: false,
                    south: false,
                    east: false,
                    west: false,
                })
            },
        }
    }

    /// An overwrite that reaches `spec_cell_profile` and left every
    /// other cell's bits alone is a well-formed board whose one changed
    /// cell now holds `piece`.
    proof fn lemma_set_piece_finish(pre: Board<R>, post: Board<R>, pos: Pos, piece: Piece)
        requires
            pre.wf(),
            pre.in_bounds(pos),
            post.width == pre.width,
            post.height == pre.height,
            post.patterns == pre.patterns,
            post.queue() == pre.queue(),
            post.dims_ok(),
            post.keys_unique(),
            pre.type_boards@.len() <= post.type_boards@.len(),
            forall|i: int|
                0 <= i < pre.type_boards@.len() ==> (#[trigger] post.type_boards@[i]).0
                    == pre.type_boards@[i].0,
            forall|i: int, x: int, y: int|
                0 <= i < pre.type_boards@.len() && !(x == pos.x as int && y == pos.y as int)
                    ==> (#[trigger] post.type_bit(i, x, y)) == pre.type_bit(i, x, y),
            forall|i: int, x: int, y: int|
                pre.type_boards@.len() <= i < post.type_boards@.len() && !(x == pos.x as int && y
                    == pos.y as int) ==> !(#[trigger] post.type_bit(i, x, y)),
            forall|x: int, y: int|
                !(x == pos.x as int && y == pos.y as int) ==> (#[trigger] post.empties.at(x, y))
                    == pre.empties.at(x, y),
            forall|x: int, y: int|
                !(x == pos.x as int && y == pos.y as int) ==> (#[trigger] post.dirs_at(x, y))
                    == pre.dirs_at(x, y),
            post.spec_cell_profile(pos, piece),
        ensures
            post.wf(),
            post.piece_at_pos(pos) == piece,
            forall|x: int, y: int|
                !(x == pos.x as int && y == pos.y as int) ==> (#[trigger] post.piece_at(x, y))
                    == pre.piece_at(x, y),
    {
        let px = pos.x as int;
        let py = pos.y as int;
        assert forall|x: int, y: int|
            !(x == px && y == py) implies (#[trigger] post.piece_at(x, y)) == pre.piece_at(x, y)
            && post.some_type_at(x, y) == pre.some_type_at(x, y) by {
            Self::lemma_piece_at_unchanged(pre, post, x, y);
        }
        // the piece now at the cell
        match piece {
            Piece::Regular(piece_type, directions) => {
                let idx = choose|idx: int|
                    #![auto]
                    {
                        &&& 0 <= idx < post.type_boards@.len()
                        &&& post.type_boards@[idx].0 == piece_type
                        &&& forall|i: int|
                            0 <= i < post.type_boards@.len() ==> (#[trigger] post.type_bit(
                                i,
                                px,
                                py,
                            )) == (i == idx)
                        &&& !post.empties.at(px, py)
                        &&& post.dirs_at(px, py) == directions
                    };
                assert(post.type_bit(idx, px, py));
                assert(post.some_type_at(px, py));
                let j = choose|j: int|
                    0 <= j < post.type_boards@.len() && #[trigger] post.type_bit(j, px, py);
                assert(j == idx);
                assert(post.piece_at(px, py) == piece);
            },
            Piece::Empty => {
                assert(post.piece_at(px, py) == piece);
            },
            Piece::Wall => {
                assert(!post.some_type_at(px, py));
                assert(post.piece_at(px, py) == piece);
            },
        }
        // per-cell invariants
        assert forall|i: int, j: int, x: int, y: int|
            0 <= i < post.type_boards@.len() && 0 <= j < post.type_boards@.len()
                && #[trigger] post.type_bit(i, x, y) && #[trigger] post.type_bit(j, x, y) implies i
            == j by {
            if x == px && y == py {
                assert(post.piece_at(px, py) == piece);
            } else {
                if i < pre.type_boards@.len() && j < pre.type_boards@.len() {
                    assert(pre.type_bit(i, x, y) && pre.type_bit(j, x, y));
                }
            }
        }
        assert forall|x: int, y: int, i: int|
            0 <= i < post.type_boards@.len() && #[trigger] post.empties.at(x, y) implies !(
        #[trigger] post.type_bit(i, x, y)) by {
            if x == px && y == py {
            } else {
                if i < pre.type_boards@.len() {
                    assert(pre.empties.at(x, y));
                    assert(!pre.type_bit(i, x, y));
                }
            }
        }
        assert forall|x: int, y: int| #[trigger]
            post.empties.at(x, y) implies post.dirs_at(x, y) == (DirectionSet {
            north: true,
            south: true,
            east: true,
            west: true,
        }) by {
            if !(x == px && y == py) {
                assert(pre.empties.at(x, y));
            }
        }
        assert forall|x: int, y: int|
            !(#[trigger] post.empties.at(x, y)) && !post.some_type_at(x, y) implies post.dirs_at(
            x,
            y,
        ) == (DirectionSet { north: false, south: false, east: false, west: false }) by {
            if x == px && y == py {
                if post.some_type_at(px, py) == false {
                    assert(!(piece is Regular));
                }
            } else {
                Self::lemma_piece_at_unchanged(pre, post, x, y);
                assert(!pre.empties.at(x, y) && !pre.some_type_at(x, y));
            }
        }
        assert(post.cells_ok());
        assert forall|k: int| 0 <= k < post.queue().len() implies post.in_bounds(
            #[trigger] post.queue()[k],
        ) by {
            if k < pre.queue().len() {
                assert(pre.in_bounds(pre.queue()[k]));
            }
        }
        assert(post.queue_ok());
        assert(post.spec_patterns() == pre.spec_patterns());
        assert(post.patterns_sorted());
        assert(post.wf());
    }


    /// The board's width.
    pub fn width(&self) -> (r: i32)
        requires
            self.wf(),
        ensures
            r as int == self.spec_width(),
            0 <= r,
    {
        self.width
    }

    /// The board's height.
    pub fn height(&self) -> (r: i32)
        requires
            self.wf(),
        ensures
            r as int == self.spec_height(),
            0 <= r,
    {
        self.height
    }

    /// Whether the cell (x, y) holds a regular piece of type
    /// `piece_type`; false off the board and for empty cells and walls.
    pub open spec fn has_type(self, piece_type: PieceType, x: int, y: int) -> bool {
        self.piece_at(x, y) matches Piece::Regular(t, _) && t == piece_type
    }

    /// Off the board every cell reads as a wall.
    pub proof fn lemma_outside_is_wall(self, x: int, y: int)
        requires
            self.wf(),
            !self.in_bounds_xy(x, y),
        ensures
            self.piece_at(x, y) == Piece::Wall,
    {
        self.empties.lemma_out_of_range(x, y);
        assert forall|i: int|
            0 <= i < self.type_boards@.len() implies !(#[trigger] self.type_bit(i, x, y)) by {
            self.type_boards@[i].1.lemma_out_of_range(x, y);
        }
        assert(!self.some_type_at(x, y));
    }

    /// Checks whether the cell (x, y) holds a regular piece of type
    /// `piece_type`; any coordinates may be given, and cells off the
    /// board hold none.
    fn has_type_cell(&self, piece_type: PieceType, x: i64, y: i64) -> (r: bool)
        requires
            self.wf(),
        ensures
            r == self.has_type(piece_type, x as int, y as int),
    {
        if x < 0 || y < 0 || x >= self.width as i64 || y >= self.height as i64 {
            proof {
                self.lemma_outside_is_wall(x as int, y as int);
            }
            return false;
        }
        let pos = Pos::new(x as i32, y as i32);
        let n = self.type_boards.len();
        let mut i: usize = 0;
        while i < n
            invariant
                self.wf(),
                self.in_bounds(pos),
                pos.x as int == x as int,
                pos.y as int == y as int,
                n == self.type_boards@.len(),
                i <= n,
                forall|k: int| 0 <= k < i ==> (#[trigger] self.type_boards@[k]).0 != piece_type,
            decreases n - i,
        {
            let entry = &self.type_boards[i];
            if entry.0 == piece_type {
                let r = entry.1.is_set(pos);
                proof {
                    if r {
                        self.lemma_piece_at_regular(i as int, x as int, y as int);
                    } else {
                        if self.has_type(piece_type, x as int, y as int) {
                            assert(self.some_type_at(x as int, y as int));
                            let j = choose|j: int|
                                0 <= j < self.type_boards@.len() && #[trigger] self.type_bit(
                                    j,
                                    x as int,
                                    y as int,
                                );
                            self.lemma_piece_at_regular(j, x as int, y as int);
                            assert(self.type_boards@[j].0 == piece_type);
                            assert(j == i as int);
                        }
                    }
                }
                return r;
            }
            i = i + 1;
        }
        proof {
            if self.has_type(piece_type, x as int, y as int) {
                assert(self.some_type_at(x as int, y as int));
                let j = choose|j: int|
                    0 <= j < self.type_boards@.len() && #[trigger] self.type_bit(j, x as int, y as int);
                self.lemma_piece_at_regular(j, x as int, y as int);
            }
        }
        false
    }

    /// A pattern cannot match at a cell that does not hold a piece of
    /// its type: the cell itself belongs to every variant.
    proof fn lemma_no_match_without_type(self, pattern: MatchPattern, pos: Pos)
        requires
            !self.has_type(pattern.piece_type, pos.x as int, pos.y as int),
        ensures
            !spec_pattern_matches_at(self, pattern, pos),
    {
        if spec_pattern_matches_at(self, pattern, pos) {
            let k = choose|k: int|
                0 <= k < pattern.spaces@.len() && spec_variant_matches(
                    self,
                    pattern,
                    pos.x - (#[trigger] pattern.spaces@[k]).x,
                    pos.y - pattern.spaces@[k].y,
                );
            assert(self.has_type(
                pattern.piece_type,
                pattern.spaces@[k].x + (pos.x - pattern.spaces@[k].x),
                pattern.spaces@[k].y + (pos.y - pattern.spaces@[k].y),
            ));
            assert(false);
        }
    }

    /// Checks one variant of the registered pattern at index `pi`: all
    /// of its offsets translated by the anchor (ax, ay). Returns the
    /// translated positions when every one holds a piece of the
    /// pattern's type.
    pub fn check_variant(&self, pi: usize, ax: i64, ay: i64) -> (r: Option<Vec<Pos>>)
        requires
            self.wf(),
            pi < self.spec_patterns().len(),
            -0x1_0000_0000 <= ax <= 0x1_0000_0000,
            -0x1_0000_0000 <= ay <= 0x1_0000_0000,
        ensures
            (match r {
                Some(positions) => spec_variant_matches(
                    *self,
                    self.spec_patterns()[pi as int],
                    ax as int,
                    ay as int,
                ) && spec_seq_translated(
                    positions@,
                    self.spec_patterns()[pi as int].spaces@,
                    ax as int,
                    ay as int,
                ),
                None => !spec_variant_matches(
                    *self,
                    self.spec_patterns()[pi as int],
                    ax as int,
                    ay as int,
                ),
            }),
    {
        let count = self.patterns[pi].spaces.len();
        let mut positions: Vec<Pos> = Vec::new();
        let mut j: usize = 0;
        while j < count
            invariant
                self.wf(),
                pi < self.spec_patterns().len(),
                -0x1_0000_0000 <= ax <= 0x1_0000_0000,
                -0x1_0000_0000 <= ay <= 0x1_0000_0000,
                count == self.spec_patterns()[pi as int].spaces@.len(),
                j <= count,
                positions@.len() == j,
                forall|k: int|
                    0 <= k < j ==> self.has_type(
                        self.spec_patterns()[pi as int].piece_type,
                        (#[trigger] self.spec_patterns()[pi as int].spaces@[k]).x + ax as int,
                        self.spec_patterns()[pi as int].spaces@[k].y + ay as int,
                    ),
                forall|k: int|
                    0 <= k < j ==> ((#[trigger] positions@[k]).x == self.spec_patterns()[pi as int].spaces@[k].x
                        + ax as int && positions@[k].y == self.spec_patterns()[pi as int].spaces@[k].y
                        + ay as int),
            decreases count - j,
        {
            let space = self.patterns[pi].spaces[j];
            let tx = space.x() as i64 + ax;
            let ty = space.y() as i64 + ay;
            if !self.has_type_cell(self.patterns[pi].piece_type, tx, ty) {
                return None;
            }
            proof {
                if !self.in_bounds_xy(tx as int, ty as int) {
                    self.lemma_outside_is_wall(tx as int, ty as int);
                }
                assert(self.in_bounds_xy(tx as int, ty as int));
            }
            positions.push(Pos::new(tx as i32, ty as i32));
            j = j + 1;
        }
        Some(positions)
    }

    /// Checks for any variant of the registered pattern at index `pi`
    /// that covers `pos`: each of the pattern's offsets in turn is
    /// anchored at `pos`. Returns the positions of the first satisfied
    /// variant.
    pub fn check_pattern(&self, pi: usize, pos: Pos) -> (r: Option<Vec<Pos>>)
        requires
            self.wf(),
            pi < self.spec_patterns().len(),
            self.in_bounds(pos),
        ensures
            (match r {
                Some(positions) => spec_pattern_matches_at(
                    *self,
                    self.spec_patterns()[pi as int],
                    pos,
                ) && (exists|k: int|
                    0 <= k < self.spec_patterns()[pi as int].spaces@.len() && spec_variant_matches(
                        *self,
                        self.spec_patterns()[pi as int],
                        pos.x - (#[trigger] self.spec_patterns()[pi as int].spaces@[k]).x,
                        pos.y - self.spec_patterns()[pi as int].spaces@[k].y,
                    ) && spec_seq_translated(
                        positions@,
                        self.spec_patterns()[pi as int].spaces@,
                        pos.x - self.spec_patterns()[pi as int].spaces@[k].x,
                        pos.y - self.spec_patterns()[pi as int].spaces@[k].y,
                    )),
                None => !spec_pattern_matches_at(*self, self.spec_patterns()[pi as int], pos),
            }),
    {
        let count = self.patterns[pi].spaces.len();
        let mut k: usize = 0;
        while k < count
            invariant
                self.wf(),
                pi < self.spec_patterns().len(),
                self.in_bounds(pos),
                count == self.spec_patterns()[pi as int].spaces@.len(),
                k <= count,
                forall|k2: int|
                    0 <= k2 < k ==> !spec_variant_matches(
                        *self,
                        self.spec_patterns()[pi as int],
                        pos.x - (#[trigger] self.spec_patterns()[pi as int].spaces@[k2]).x,
                        pos.y - self.spec_patterns()[pi as int].spaces@[k2].y,
                    ),
            decreases count - k,
        {
            let space = self.patterns[pi].spaces[k];
            let ax = pos.x() as i64 - space.x() as i64;
            let ay = pos.y() as i64 - space.y() as i64;
            let attempt = self.check_variant(pi, ax, ay);
            if let Some(positions) = attempt {
                return Some(positions);
            }
            k = k + 1;
        }
        None
    }

    /// Looks for the first registered pattern, in registration order,
    /// with a satisfied variant covering `pos`, and builds its match.
    fn match_at(&self, pos: Pos) -> (r: Option<Match>)
        requires
            self.wf(),
            self.in_bounds(pos),
        ensures
            (match r {
                Some(m) => m.changed_pos == pos && spec_first_match(*self, m),
                None => !spec_any_match_at(*self, pos),
            }),
    {
        let possible_type = self.piece_type(pos);
        let pattern_count = self.patterns.len();
        let mut pi: usize = 0;
        while pi < pattern_count
            invariant
                self.wf(),
                self.in_bounds(pos),
                possible_type == self.type_at(pos.x as int, pos.y as int),
                pattern_count == self.spec_patterns().len(),
                pi <= pattern_count,
                forall|pj: int|
                    0 <= pj < pi ==> !spec_pattern_matches_at(
                        *self,
                        #[trigger] self.spec_patterns()[pj],
                        pos,
                    ),
            decreases pattern_count - pi,
        {
            let type_applies = (match possible_type {
                Some(piece_type) => self.patterns[pi].piece_type == piece_type,
                None => false,
            });
            if type_applies {
                let attempt = self.check_pattern(pi, pos);
                if let Some(positions) = attempt {
                    let m = Match::new(self.patterns[pi].duplicate(), pos, positions);
                    proof {
                        assert(m.pattern.spaces@ == self.spec_patterns()[pi as int].spaces@);
                        assert(spec_pattern_like(self.spec_patterns()[pi as int], m.pattern));
                        let k = choose|k: int|
                            0 <= k < self.spec_patterns()[pi as int].spaces@.len()
                                && spec_variant_matches(
                                *self,
                                self.spec_patterns()[pi as int],
                                pos.x - (#[trigger] self.spec_patterns()[pi as int].spaces@[k]).x,
                                pos.y - self.spec_patterns()[pi as int].spaces@[k].y,
                            ) && spec_seq_translated(
                                positions@,
                                self.spec_patterns()[pi as int].spaces@,
                                pos.x - self.spec_patterns()[pi as int].spaces@[k].x,
                                pos.y - self.spec_patterns()[pi as int].spaces@[k].y,
                            );
                        let ax = pos.x - m.pattern.spaces@[k].x;
                        let ay = pos.y - m.pattern.spaces@[k].y;
                        assert forall|j: int|
                            0 <= j < m.pattern.spaces@.len() implies self.has_type(
                            m.pattern.piece_type,
                            (#[trigger] m.pattern.spaces@[j]).x + ax,
                            m.pattern.spaces@[j].y + ay,
                        ) by {
                            assert(m.pattern.spaces@[j] == self.spec_patterns()[pi as int].spaces@[j]);
                        }
                        assert(spec_variant_matches(*self, m.pattern, ax, ay));
                        assert(spec_seq_translated(m.positions@, m.pattern.spaces@, ax, ay));
                        assert(spec_positions_are_variant(m, ax, ay));
                        assert(spec_match_valid(*self, m));
                        assert(spec_first_match(*self, m));
                    }
                    return Some(m);
                }
            } else {
                proof {
                    assert(!self.has_type(
                        self.spec_patterns()[pi as int].piece_type,
                        pos.x as int,
                        pos.y as int,
                    ));
                    self.lemma_no_match_without_type(self.spec_patterns()[pi as int], pos);
                }
            }
            pi = pi + 1;
        }
        proof {
            assert(!spec_any_match_at(*self, pos));
        }
        None
    }

    /// Gets the next match on the board.
    ///
    /// Queued positions are checked oldest first, always against the
    /// current board state. A position that produces no match is
    /// discarded; the first one that does yields a match for its
    /// highest-priority pattern, leaving the younger queue entries for
    /// later calls. Returns `None` exactly when the queue drains with
    /// no match found.
    #[verifier::rlimit(60)]
    pub fn next_match(&mut self) -> (r: Option<Match>)
        requires
            old(self).wf(),
        ensures
            final(self).wf(),
            final(self).spec_width() == old(self).spec_width(),
            final(self).spec_height() == old(self).spec_height(),
            final(self).spec_patterns() == old(self).spec_patterns(),
            final(self).spec_rules() == old(self).spec_rules(),
            forall|x: int, y: int| #[trigger]
                final(self).piece_at(x, y) == old(self).piece_at(x, y),
            (match r {
                Some(m) => exists|c: int|
                    #![auto]
                    {
                        &&& 0 <= c < old(self).queue().len()
                        &&& m.changed_pos == old(self).queue()[c]
                        &&& final(self).queue() == old(self).queue().skip(c + 1)
                        &&& forall|k: int|
                            0 <= k < c ==> !spec_any_match_at(
                                *old(self),
                                #[trigger] old(self).queue()[k],
                            )
                        &&& spec_first_match(*old(self), m)
                    },
                None => final(self).queue().len() == 0 && (forall|k: int|
                    0 <= k < old(self).queue().len() ==> !spec_any_match_at(
                        *old(self),
                        #[trigger] old(self).queue()[k],
                    )),
            }),
    {
        let ghost q0 = old(self).queue();
        let total = self.last_changed.len();
        let mut c: usize = 0;
        let mut found: Option<Match> = None;
        while c < total && found.is_none()
            invariant
                *self == *old(self),
                self.wf(),
                total == self.queue().len(),
                c <= total,
                q0 == self.queue(),
                forall|k: int| 0 <= k < c ==> !spec_any_match_at(*old(self), #[trigger] q0[k]),
                (match found {
                    Some(m) => c < total && m.changed_pos == q0[c as int] && spec_first_match(
                        *old(self),
                        m,
                    ),
                    None => true,
                }),
            decreases total - c, (if found is None { 1int } else { 0int }),
        {
            let next_pos = self.last_changed[c];
            proof {
                assert(self.in_bounds(self.queue()[c as int]));
            }
            let attempt = self.match_at(next_pos);
            match attempt {
                Some(m) => {
                    found = Some(m);
                },
                None => {
                    c = c + 1;
                },
            }
        }
        match found {
            None => {
                proof {
                    assert(c == total);
                }
                let ghost scanned = *self;
                self.last_changed.clear();
                proof {
                    Self::lemma_same_grid(scanned, *self);
                    assert(self.queue().len() == 0);
                    assert(self.wf());
                }
                None
            },
            Some(m) => {
                let ghost scanned = *self;
                let limit = c + 1;
                let mut d: usize = 0;
                while d < limit
                    invariant
                        scanned == *old(self),
                        old(self).wf(),
                        c < q0.len(),
                        limit == c + 1,
                        q0 == old(self).queue(),
                        d <= c + 1,
                        self.width == old(self).width,
                        self.height == old(self).height,
                        self.patterns == old(self).patterns,
                        self.swap_rules == old(self).swap_rules,
                        self.type_boards == old(self).type_boards,
                        self.empties == old(self).empties,
                        self.movable_north == old(self).movable_north,
                        self.movable_south == old(self).movable_south,
                        self.movable_east == old(self).movable_east,
                        self.movable_west == old(self).movable_west,
                        self.queue() == q0.skip(d as int),
                    decreases c + 1 - d,
                {
                    let ghost before = self.queue();
                    let popped = self.last_changed.pop_front();
                    proof {
                        assert(before.len() == q0.len() - d > 0);
                        assert(popped is Some);
                        assert(self.queue() =~= q0.skip(d as int + 1));
                    }
                    d = d + 1;
                }
                proof {
                    assert(self.queue() == q0.skip(c as int + 1));
                    Self::lemma_same_grid(*old(self), *self);
                    assert forall|k: int| 0 <= k < self.queue().len() implies self.in_bounds(
                        #[trigger] self.queue()[k],
                    ) by {
                        assert(self.queue()[k] == q0[k + c + 1]);
                        assert(old(self).in_bounds(q0[k + c + 1]));
                    }
                    assert(self.wf());
                }
                Some(m)
            },
        }
    }

    /// Whether the cell at `pos` is empty.
    pub(crate) fn is_empty_cell(&self, pos: Pos) -> (r: bool)
        requires
            self.wf(),
            self.in_bounds(pos),
        ensures
            r == (self.piece_at_pos(pos) == Piece::Empty),
    {
        self.empties.is_set(pos)
    }

    /// Whether the piece at `pos` may travel in `direction`, read from
    /// the packed movability masks.
    pub(crate) fn movable_in(&self, pos: Pos, direction: Direction) -> (r: bool)
        requires
            self.wf(),
            self.in_bounds(pos),
        ensures
            r == self.piece_at_pos(pos).spec_is_movable(direction),
    {
        proof {
            self.lemma_movable_mask(pos.x as int, pos.y as int, direction);
        }
        match direction {
            Direction::North => self.movable_north.is_set(pos),
            Direction::South => self.movable_south.is_set(pos),
            Direction::East => self.movable_east.is_set(pos),
            Direction::West => self.movable_west.is_set(pos),
        }
    }

    /// Whether the piece at `from` may travel vertically toward `to`:
    /// trivially true when the two positions share a row.
    pub open spec fn spec_vertically_movable(self, from: Pos, to: Pos) -> bool {
        if to.y > from.y {
            self.piece_at_pos(from).spec_is_movable(Direction::North)
        } else if to.y < from.y {
            self.piece_at_pos(from).spec_is_movable(Direction::South)
        } else {
            true
        }
    }

    /// Whether the piece at `from` may travel horizontally toward `to`:
    /// trivially true when the two positions share a column.
    pub open spec fn spec_horizontally_movable(self, from: Pos, to: Pos) -> bool {
        if to.x > from.x {
            self.piece_at_pos(from).spec_is_movable(Direction::East)
        } else if to.x < from.x {
            self.piece_at_pos(from).spec_is_movable(Direction::West)
        } else {
            true
        }
    }

    /// Whether the piece at `from` may travel toward `to` in both axes.
    pub open spec fn spec_movable_from(self, from: Pos, to: Pos) -> bool {
        self.spec_vertically_movable(from, to) && self.spec_horizontally_movable(from, to)
    }

    /// The built-in swap rule: each piece must be movable in the
    /// direction it would travel.
    pub open spec fn spec_are_pieces_movable(self, first: Pos, second: Pos) -> bool {
        self.spec_movable_from(first, second) && self.spec_movable_from(second, first)
    }

    /// Under `wf`, a direction mask bit agrees with the movability of
    /// the piece at its cell.
    proof fn lemma_movable_mask(self, x: int, y: int, direction: Direction)
        requires
            self.wf(),
        ensures
            self.dir_board(direction).at(x, y) == self.piece_at(x, y).spec_is_movable(direction),
    {
        if self.empties.at(x, y) {
            assert(self.dirs_at(x, y) == (DirectionSet {
                north: true,
                south: true,
                east: true,
                west: true,
            }));
        } else if self.some_type_at(x, y) {
            let i = choose|i: int|
                0 <= i < self.type_boards@.len() && #[trigger] self.type_bit(i, x, y);
            self.lemma_piece_at_regular(i, x, y);
        } else {
            assert(self.dirs_at(x, y) == (DirectionSet {
                north: false,
                south: false,
                east: false,
                west: false,
            }));
        }
    }

    /// Checks if a piece is vertically movable from one position toward
    /// another; no vertical change counts as movable.
    pub fn is_vertically_movable(&self, from: Pos, to: Pos) -> (r: bool)
        requires
            self.wf(),
            self.in_bounds(from),
        ensures
            r == self.spec_vertically_movable(from, to),
    {
        proof {
            self.lemma_movable_mask(from.x as int, from.y as int, Direction::North);
            self.lemma_movable_mask(from.x as int, from.y as int, Direction::South);
        }
        if to.y() > from.y() {
            return self.movable_north.is_set(from);
        } else if to.y() < from.y() {
            return self.movable_south.is_set(from);
        }
        true
    }

    /// Checks if a piece is horizontally movable from one position
    /// toward another; no horizontal change counts as movable.
    pub fn is_horizontally_movable(&self, from: Pos, to: Pos) -> (r: bool)
        requires
            self.wf(),
            self.in_bounds(from),
        ensures
            r == self.spec_horizontally_movable(from, to),
    {
        proof {
            self.lemma_movable_mask(from.x as int, from.y as int, Direction::East);
            self.lemma_movable_mask(from.x as int, from.y as int, Direction::West);
        }
        if to.x() > from.x() {
            return self.movable_east.is_set(from);
        } else if to.x() < from.x() {
            return self.movable_west.is_set(from);
        }
        true
    }

    /// Checks if a piece is movable both vertically and horizontally
    /// from one position toward another.
    pub fn is_movable(&self, from: Pos, to: Pos) -> (r: bool)
        requires
            self.wf(),
            self.in_bounds(from),
        ensures
            r == self.spec_movable_from(from, to),
    {
        self.is_vertically_movable(from, to) && self.is_horizontally_movable(from, to)
    }

    /// The built-in swap rule: checks that the pieces at two positions
    /// are both movable in the direction in which they would travel.
    pub fn are_pieces_movable(&self, first: Pos, second: Pos) -> (r: bool)
        requires
            self.wf(),
            self.in_bounds(first),
            self.in_bounds(second),
        ensures
            r == self.spec_are_pieces_movable(first, second),
    {
        let is_first_movable = self.is_movable(first, second);
        let is_second_movable = self.is_movable(second, first);
        is_first_movable && is_second_movable
    }

    /// Exchanges the contents of two cells unconditionally: the empty
    /// bit, the four movability bits and the type occupancy bits all
    /// swap. When the positions differ, both are enqueued for a match
    /// check.
    pub(crate) fn swap_always(&mut self, first: Pos, second: Pos)
        requires
            old(self).wf(),
            old(self).in_bounds(first),
            old(self).in_bounds(second),
        ensures
            final(self).wf(),
            final(self).spec_width() == old(self).spec_width(),
            final(self).spec_height() == old(self).spec_height(),
            final(self).spec_patterns() == old(self).spec_patterns(),
            final(self).spec_rules() == old(self).spec_rules(),
            final(self).piece_at_pos(first) == old(self).piece_at_pos(second),
            final(self).piece_at_pos(second) == old(self).piece_at_pos(first),
            forall|x: int, y: int|
                !(x == first.x as int && y == first.y as int) && !(x == second.x as int && y
                    == second.y as int) ==> (#[trigger] final(self).piece_at(x, y)) == old(
                    self,
                ).piece_at(x, y),
            final(self).spec_cells().to_multiset() == old(self).spec_cells().to_multiset(),
            first != second ==> final(self).queue() == old(self).queue().push(first).push(second),
            first == second ==> final(self).queue() == old(self).queue(),
    {
        let ghost pre = *self;
        let ghost fx = first.x as int;
        let ghost fy = first.y as int;
        let ghost sx = second.x as int;
        let ghost sy = second.y as int;
        let n = self.type_boards.len();
        let mut i: usize = 0;
        while i < n
            invariant
                self.dims_ok(),
                pre.wf(),
                pre.in_bounds(first),
                pre.in_bounds(second),
                fx == first.x as int,
                fy == first.y as int,
                sx == second.x as int,
                sy == second.y as int,
                i <= n,
                n == self.type_boards@.len(),
                n == pre.type_boards@.len(),
                self.width == pre.width,
                self.height == pre.height,
                self.patterns == pre.patterns,
                self.swap_rules == pre.swap_rules,
                self.empties == pre.empties,
                self.movable_north == pre.movable_north,
                self.movable_south == pre.movable_south,
                self.movable_east == pre.movable_east,
                self.movable_west == pre.movable_west,
                self.last_changed == pre.last_changed,
                forall|k: int|
                    0 <= k < n ==> (#[trigger] self.type_boards@[k]).0 == pre.type_boards@[k].0,
                forall|k: int|
                    0 <= k < i ==> (#[trigger] self.type_bit(k, fx, fy)) == pre.type_bit(k, sx, sy),
                forall|k: int|
                    0 <= k < i ==> (#[trigger] self.type_bit(k, sx, sy)) == pre.type_bit(k, fx, fy),
                forall|k: int| i <= k < n ==> #[trigger] self.type_boards@[k]
                    == pre.type_boards@[k],
                forall|k: int, x: int, y: int|
                    0 <= k < n && !(x == fx && y == fy) && !(x == sx && y == sy)
                        ==> (#[trigger] self.type_bit(k, x, y)) == pre.type_bit(k, x, y),
            decreases n - i,
        {
            let ghost before = *self;
            self.type_boards[i].1.swap(first, second);
            proof {
                assert(self.type_boards@ =~= before.type_boards@.update(
                    i as int,
                    self.type_boards@[i as int],
                ));
                assert forall|k: int, x: int, y: int|
                    0 <= k < n && !(x == fx && y == fy) && !(x == sx && y == sy) implies (
                #[trigger] self.type_bit(k, x, y)) == before.type_bit(k, x, y) by {
                    if k != i as int {
                        assert(self.type_boards@[k] == before.type_boards@[k]);
                    }
                }
                assert forall|k: int| 0 <= k < i + 1 implies (#[trigger] self.type_bit(k, fx, fy))
                    == pre.type_bit(k, sx, sy) by {
                    if k < i as int {
                        assert(self.type_boards@[k] == before.type_boards@[k]);
                        assert(before.type_bit(k, fx, fy) == pre.type_bit(k, sx, sy));
                    } else {
                        assert(before.type_boards@[k] == pre.type_boards@[k]);
                    }
                }
                assert forall|k: int| 0 <= k < i + 1 implies (#[trigger] self.type_bit(k, sx, sy))
                    == pre.type_bit(k, fx, fy) by {
                    if k < i as int {
                        assert(self.type_boards@[k] == before.type_boards@[k]);
                        assert(before.type_bit(k, sx, sy) == pre.type_bit(k, fx, fy));
                    } else {
                        assert(before.type_boards@[k] == pre.type_boards@[k]);
                    }
                }
            }
            i = i + 1;
        }
        let ghost typeswapped = *self;
        self.empties.swap(first, second);
        self.movable_north.swap(first, second);
        self.movable_south.swap(first, second);
        self.movable_east.swap(first, second);
        self.movable_west.swap(first, second);
        proof {
            assert forall|k: int, x: int, y: int| #[trigger]
                self.type_bit(k, x, y) == typeswapped.type_bit(k, x, y) by {}
            assert(self.dirs_at(fx, fy) == pre.dirs_at(sx, sy));
            assert(self.dirs_at(sx, sy) == pre.dirs_at(fx, fy));
            assert forall|x: int, y: int|
                !(x == fx && y == fy) && !(x == sx && y == sy) implies (#[trigger] self.dirs_at(
                x,
                y,
            )) == pre.dirs_at(x, y) by {}
            Self::lemma_piece_at_corresponds(pre, *self, sx, sy, fx, fy);
            Self::lemma_piece_at_corresponds(pre, *self, fx, fy, sx, sy);
            assert forall|x: int, y: int|
                !(x == fx && y == fy) && !(x == sx && y == sy) implies (#[trigger] self.piece_at(
                x,
                y,
            )) == pre.piece_at(x, y) by {
                Self::lemma_piece_at_unchanged(pre, *self, x, y);
            }
            assert(self.cells_ok()) by {
                assert forall|i2: int, j2: int, x: int, y: int|
                    0 <= i2 < self.type_boards@.len() && 0 <= j2 < self.type_boards@.len()
                        && #[trigger] self.type_bit(i2, x, y) && #[trigger] self.type_bit(
                        j2,
                        x,
                        y,
                    ) implies i2 == j2 by {
                    if x == fx && y == fy {
                        assert(pre.type_bit(i2, sx, sy) && pre.type_bit(j2, sx, sy));
                    } else if x == sx && y == sy {
                        assert(pre.type_bit(i2, fx, fy) && pre.type_bit(j2, fx, fy));
                    } else {
                        assert(pre.type_bit(i2, x, y) && pre.type_bit(j2, x, y));
                    }
                }
                assert forall|x: int, y: int, i2: int|
                    0 <= i2 < self.type_boards@.len() && #[trigger] self.empties.at(x, y) implies !(
                #[trigger] self.type_bit(i2, x, y)) by {
                    if x == fx && y == fy {
                        assert(pre.empties.at(sx, sy));
                        assert(!pre.type_bit(i2, sx, sy));
                    } else if x == sx && y == sy {
                        assert(pre.empties.at(fx, fy));
                        assert(!pre.type_bit(i2, fx, fy));
                    } else {
                        assert(pre.empties.at(x, y));
                        assert(!pre.type_bit(i2, x, y));
                    }
                }
                assert forall|x: int, y: int| #[trigger]
                    self.empties.at(x, y) implies self.dirs_at(x, y) == (DirectionSet {
                    north: true,
                    south: true,
                    east: true,
                    west: true,
                }) by {
                    if x == fx && y == fy {
                        assert(pre.empties.at(sx, sy));
                    } else if x == sx && y == sy {
                        assert(pre.empties.at(fx, fy));
                    } else {
                        assert(pre.empties.at(x, y));
                        assert(self.dirs_at(x, y) == pre.dirs_at(x, y));
                    }
                }
                assert forall|x: int, y: int|
                    !(#[trigger] self.empties.at(x, y)) && !self.some_type_at(x, y)
                    implies self.dirs_at(x, y) == (DirectionSet {
                    north: false,
                    south: false,
                    east: false,
                    west: false,
                }) by {
                    if x == fx && y == fy {
                        assert(self.some_type_at(fx, fy) == pre.some_type_at(sx, sy));
                        assert(!pre.empties.at(sx, sy) && !pre.some_type_at(sx, sy));
                    } else if x == sx && y == sy {
                        assert(self.some_type_at(sx, sy) == pre.some_type_at(fx, fy));
                        assert(!pre.empties.at(fx, fy) && !pre.some_type_at(fx, fy));
                    } else {
                        Self::lemma_piece_at_unchanged(pre, *self, x, y);
                        assert(!pre.empties.at(x, y) && !pre.some_type_at(x, y));
                        assert(self.dirs_at(x, y) == pre.dirs_at(x, y));
                    }
                }
            }
            assert(self.spec_patterns() == pre.spec_patterns());
            assert(self.patterns_sorted());
            assert(self.dims_ok());
            assert(self.keys_unique());
            assert(self.queue() == pre.queue());
            assert forall|k: int| 0 <= k < self.queue().len() implies self.in_bounds(
                #[trigger] self.queue()[k],
            ) by {
                assert(pre.in_bounds(pre.queue()[k]));
            }
            assert(self.queue_ok());
            assert(self.wf());
        }
        proof {
            Self::lemma_cells_swap(pre, *self, first, second);
        }
        let ghost swapped = *self;
        if first != second {
            self.last_changed.push_back(first);
            self.last_changed.push_back(second);
            proof {
                assert(self.queue() =~= swapped.queue().push(first).push(second));
                Self::lemma_same_grid(swapped, *self);
                assert(self.spec_cells() =~= swapped.spec_cells());
                assert forall|k: int| 0 <= k < self.queue().len() implies self.in_bounds(
                    #[trigger] self.queue()[k],
                ) by {
                    if k < swapped.queue().len() {
                        assert(self.queue()[k] == swapped.queue()[k]);
                    } else if k == swapped.queue().len() {
                        assert(self.queue()[k] == first);
                    } else {
                        assert(self.queue()[k] == second);
                    }
                }
                assert(self.wf());
            }
        }
    }

    /// Attempts to swap two pieces on the board.
    ///
    /// A swap of a position with itself always succeeds and changes
    /// nothing, without enqueueing a match check. Otherwise the built-in
    /// movability rule runs first, then every user-supplied rule in
    /// order; if any of them refuses, the board is unchanged and the
    /// call returns false. An allowed swap exchanges the two cells'
    /// contents and enqueues both positions for a match check.
    #[must_use]
    pub fn swap_pieces(&mut self, first: Pos, second: Pos) -> (r: bool)
        requires
            old(self).wf(),
            old(self).in_bounds(first),
            old(self).in_bounds(second),
        ensures
            final(self).wf(),
            final(self).spec_width() == old(self).spec_width(),
            final(self).spec_height() == old(self).spec_height(),
            final(self).spec_patterns() == old(self).spec_patterns(),
            final(self).spec_rules() == old(self).spec_rules(),
            first == second ==> r && *final(self) == *old(self),
            !r ==> *final(self) == *old(self),
            first != second && !old(self).spec_are_pieces_movable(first, second) ==> !r,
            r && first != second ==> old(self).spec_are_pieces_movable(first, second),
            r && first != second ==> final(self).piece_at_pos(first) == old(self).piece_at_pos(
                second,
            ) && final(self).piece_at_pos(second) == old(self).piece_at_pos(first),
            r && first != second ==> (forall|x: int, y: int|
                !(x == first.x as int && y == first.y as int) && !(x == second.x as int && y
                    == second.y as int) ==> (#[trigger] final(self).piece_at(x, y)) == old(
                    self,
                ).piece_at(x, y)),
            r && first != second ==> final(self).queue() == old(self).queue().push(first).push(
                second,
            ),
            final(self).spec_cells().to_multiset() == old(self).spec_cells().to_multiset(),
            old(self).spec_rules().len() == 0 && first != second && old(
                self,
            ).spec_are_pieces_movable(first, second) ==> r,
    {
        if first == second {
            return true;
        }
        if !self.are_pieces_movable(first, second) {
            return false;
        }
        let rule_count = self.swap_rules.len();
        let mut k: usize = 0;
        while k < rule_count
            invariant
                *self == *old(self),
                self.wf(),
                self.in_bounds(first),
                self.in_bounds(second),
                first != second,
                old(self).spec_are_pieces_movable(first, second),
                rule_count == self.swap_rules@.len(),
                k <= rule_count,
            decreases rule_count - k,
        {
            if !self.swap_rules[k].allows(self, first, second) {
                return false;
            }
            k = k + 1;
        }
        self.swap_always(first, second);
        true
    }
}

/// Reorders `patterns` so that ranks weakly decrease, keeping exactly
/// the same patterns.
fn sort_patterns_descending(patterns: Vec<MatchPattern>) -> (r: Vec<MatchPattern>)
    ensures
        r@.to_multiset() == patterns@.to_multiset(),
        r@.len() == patterns@.len(),
        forall|p: MatchPattern| #[trigger] r@.contains(p) == patterns@.contains(p),
        forall|i: int, j: int|
            0 <= i <= j < r@.len() ==> (#[trigger] r@[i]).rank >= (#[trigger] r@[j]).rank,
{
    broadcast use vstd::seq_lib::group_to_multiset_ensures;

    let mut rest = patterns;
    let mut sorted: Vec<MatchPattern> = Vec::new();
    while rest.len() > 0
        invariant
            sorted@.to_multiset().add(rest@.to_multiset()) == patterns@.to_multiset(),
            forall|i: int, j: int|
                0 <= i <= j < sorted@.len() ==> (#[trigger] sorted@[i]).rank
                    >= (#[trigger] sorted@[j]).rank,
            forall|i: int, k: int|
                0 <= i < sorted@.len() && 0 <= k < rest@.len() ==> (#[trigger] sorted@[i]).rank
                    >= (#[trigger] rest@[k]).rank,
        decreases rest@.len(),
    {
        let n = rest.len();
        let mut best: usize = 0;
        let mut k: usize = 1;
        while k < n
            invariant
                n == rest@.len(),
                0 < n,
                best < k <= n,
                forall|m: int| 0 <= m < k ==> rest@[best as int].rank >= (#[trigger] rest@[m]).rank,
            decreases n - k,
        {
            if rest[k].rank() > rest[best].rank() {
                best = k;
            }
            k = k + 1;
        }
        let ghost rest0 = rest@;
        let ghost sorted0 = sorted@;
        let picked = rest.remove(best);
        sorted.push(picked);
        proof {
            broadcast use vstd::seq_lib::group_to_multiset_ensures;
            broadcast use vstd::multiset::group_multiset_axioms;

            assert(rest0.contains(rest0[best as int]));
            assert(rest0.to_multiset().count(picked) > 0);
            assert(rest@.to_multiset().insert(picked) =~= rest0.to_multiset());
            assert(sorted@.to_multiset() =~= sorted0.to_multiset().insert(picked));
            assert(sorted@.to_multiset().add(rest@.to_multiset()) =~= sorted0.to_multiset().add(
                rest0.to_multiset(),
            ));
            assert forall|m: int| 0 <= m < rest@.len() implies picked.rank >= (#[trigger] rest@[m]).rank by {
                if m < best {
                    assert(rest@[m] == rest0[m]);
                } else {
                    assert(rest@[m] == rest0[m + 1]);
                }
            }
        }
    }
    proof {
        broadcast use vstd::seq_lib::group_to_multiset_ensures;
        broadcast use vstd::multiset::group_multiset_axioms;

        assert(rest@.to_multiset() =~= Multiset::<MatchPattern>::empty());
        assert(sorted@.to_multiset() =~= patterns@.to_multiset());
        assert(sorted@.to_multiset().len() == patterns@.to_multiset().len());
        assert(sorted@.len() == sorted@.to_multiset().len());
        assert(patterns@.len() == patterns@.to_multiset().len());
        assert(sorted@.len() == patterns@.len());
        assert forall|p: MatchPattern| #[trigger]
            sorted@.contains(p) == patterns@.contains(p) by {
            assert(sorted@.contains(p) == (sorted@.to_multiset().count(p) > 0));
            assert(patterns@.contains(p) == (patterns@.to_multiset().count(p) > 0));
        }
    }
    sorted
}


} // verus!

