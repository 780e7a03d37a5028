//! User-supplied match patterns and the matches they produce.

use vstd::prelude::*;
use crate::board::{Board, SwapRule};
use crate::piece::PieceType;
use crate::position::Pos;

verus! {

/// A geometric shape the board looks for among pieces of one type.
///
/// The shape is the set of relative offsets in `spaces`, anchored at no
/// fixed origin: a pattern matches wherever some translation of all its
/// offsets lands on cells that all hold pieces of the pattern's type.
/// Patterns with a higher rank are preferred over those with a lower
/// rank.
pub struct MatchPattern {
    /// The type of piece this pattern applies to.
    pub piece_type: PieceType,
    /// The relative offsets that make up the shape.
    pub spaces: Vec<Pos>,
    /// The pattern's priority: higher ranks are checked first.
    pub rank: i32,
}

impl MatchPattern {
    /// Creates a pattern from its type, shape and rank.
    pub fn new(piece_type: PieceType, spaces: Vec<Pos>, rank: i32) -> (r: MatchPattern)
        ensures
            r.piece_type == piece_type,
            r.spaces == spaces,
            r.rank == rank,
    {
        MatchPattern { piece_type, spaces, rank }
    }

    /// The pattern's rank.
    pub fn rank(&self) -> (r: i32)
        ensures
            r == self.rank,
    {
        self.rank
    }

    /// The relative offsets that make up the shape.
    pub fn spaces(&self) -> (r: &Vec<Pos>)
        ensures
            r == &self.spaces,
    {
        &self.spaces
    }

    /// An exact copy of this pattern.
    pub fn duplicate(&self) -> (r: MatchPattern)
        ensures
            r.piece_type == self.piece_type,
            r.spaces@ == self.spaces@,
            r.rank == self.rank,
    {
        let mut spaces: Vec<Pos> = Vec::new();
        let mut i: usize = 0;
        while i < self.spaces.len()
            invariant
                i <= self.spaces@.len(),
                spaces@ == self.spaces@.subrange(0, i as int),
            decreases self.spaces@.len() - i,
        {
            spaces.push(self.spaces[i]);
            proof {
                assert(spaces@ == self.spaces@.subrange(0, i as int + 1));
            }
            i = i + 1;
        }
        proof {
            assert(spaces@ == self.spaces@);
        }
        MatchPattern { piece_type: self.piece_type, spaces, rank: self.rank }
    }
}

/// One detected match: the pattern that matched, the changed position
/// that triggered the check, and the absolute board positions that
/// satisfy the pattern.
pub struct Match {
    /// The pattern that matched.
    pub pattern: MatchPattern,
    /// The changed position whose check produced this match.
    pub changed_pos: Pos,
    /// The absolute positions of the pieces forming the match.
    pub positions: Vec<Pos>,
}

impl Match {
    /// Creates a match from its parts.
    pub fn new(pattern: MatchPattern, changed_pos: Pos, positions: Vec<Pos>) -> (r: Match)
        ensures
            r.pattern == pattern,
            r.changed_pos == changed_pos,
            r.positions == positions,
    {
        Match { pattern, changed_pos, positions }
    }
}

/// Every offset of `pattern`, translated by the anchor (ax, ay), lands
/// on a cell holding a piece of the pattern's type.
pub open spec fn spec_variant_matches<R: SwapRule>(
    board: Board<R>,
    pattern: MatchPattern,
    ax: int,
    ay: int,
) -> bool {
    forall|j: int|
        0 <= j < pattern.spaces@.len() ==> board.has_type(
            pattern.piece_type,
            (#[trigger] pattern.spaces@[j]).x + ax,
            pattern.spaces@[j].y + ay,
        )
}

/// Some variant of `pattern` — some translation of its offsets that
/// covers `pos` — is fully occupied by pieces of the pattern's type.
pub open spec fn spec_pattern_matches_at<R: SwapRule>(
    board: Board<R>,
    pattern: MatchPattern,
    pos: Pos,
) -> bool {
    exists|k: int|
        0 <= k < pattern.spaces@.len() && spec_variant_matches(
            board,
            pattern,
            pos.x - (#[trigger] pattern.spaces@[k]).x,
            pos.y - pattern.spaces@[k].y,
        )
}

/// Some registered pattern matches at `pos`.
pub open spec fn spec_any_match_at<R: SwapRule>(board: Board<R>, pos: Pos) -> bool {
    exists|pi: int|
        0 <= pi < board.spec_patterns().len() && spec_pattern_matches_at(
            board,
            #[trigger] board.spec_patterns()[pi],
            pos,
        )
}

/// Two patterns with the same type, shape and rank.
pub open spec fn spec_pattern_like(a: MatchPattern, b: MatchPattern) -> bool {
    &&& a.piece_type == b.piece_type
    &&& a.spaces@ == b.spaces@
    &&& a.rank == b.rank
}

/// The sequence `positions` is exactly `spaces` translated by the
/// anchor (ax, ay), in the same order.
pub open spec fn spec_seq_translated(positions: Seq<Pos>, spaces: Seq<Pos>, ax: int, ay: int) -> bool {
    &&& positions.len() == spaces.len()
    &&& forall|j: int|
        0 <= j < positions.len() ==> ((#[trigger] positions[j]).x == spaces[j].x + ax
            && positions[j].y == spaces[j].y + ay)
}

/// The match's positions are exactly the pattern's offsets translated
/// by the anchor (ax, ay), in the same order.
pub open spec fn spec_positions_are_variant(m: Match, ax: int, ay: int) -> bool {
    spec_seq_translated(m.positions@, m.pattern.spaces@, ax, ay)
}

/// The match's positions form a satisfied variant of its pattern that
/// covers its changed position.
pub open spec fn spec_match_valid<R: SwapRule>(board: Board<R>, m: Match) -> bool {
    exists|k: int|
        #![auto]
        0 <= k < m.pattern.spaces@.len() && spec_variant_matches(
            board,
            m.pattern,
            m.changed_pos.x - m.pattern.spaces@[k].x,
            m.changed_pos.y - m.pattern.spaces@[k].y,
        ) && spec_positions_are_variant(
            m,
            m.changed_pos.x - m.pattern.spaces@[k].x,
            m.changed_pos.y - m.pattern.spaces@[k].y,
        )
}

/// The match reports the first registered pattern that matches at its
/// changed position: the pattern is registered, it matches there, no
/// earlier-registered pattern matches there, and the reported positions
/// form one of its satisfied variants.
pub open spec fn spec_first_match<R: SwapRule>(board: Board<R>, m: Match) -> bool {
    exists|pi: int|
        #![auto]
        0 <= pi < board.spec_patterns().len() && spec_pattern_like(
            board.spec_patterns()[pi],
            m.pattern,
        ) && spec_pattern_matches_at(board, board.spec_patterns()[pi], m.changed_pos) && (forall|
            pj: int,
        |
            0 <= pj < pi ==> !spec_pattern_matches_at(
                board,
                #[trigger] board.spec_patterns()[pj],
                m.changed_pos,
            )) && spec_match_valid(board, m)
}

} // verus!
