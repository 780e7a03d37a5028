use match_board::board::{AllowAll, Board};
use match_board::matching::MatchPattern;
use match_board::piece::{Piece, PieceType};
use match_board::position::Pos;

fn movable_piece(type_id: u32) -> Piece {
    Piece::new(PieceType(type_id))
}

fn pair_pattern(type_id: u32, rank: i32) -> MatchPattern {
    MatchPattern::new(PieceType(type_id), vec![Pos::new(0, 0), Pos::new(1, 0)], rank)
}

fn triple_pattern(type_id: u32, rank: i32) -> MatchPattern {
    MatchPattern::new(
        PieceType(type_id),
        vec![Pos::new(0, 0), Pos::new(1, 0), Pos::new(2, 0)],
        rank,
    )
}

#[test]
fn next_match_finds_a_row() {
    let mut board: Board<AllowAll> = Board::new(4, 1, vec![triple_pattern(1, 1)], Vec::new());
    board.set_piece(Pos::new(0, 0), movable_piece(1));
    board.set_piece(Pos::new(1, 0), movable_piece(1));
    let m = board.set_piece(Pos::new(2, 0), movable_piece(1));
    assert_eq!(m, Piece::Wall);
    let found = board.next_match().expect("three in a row should match");
    assert_eq!(found.pattern.rank, 1);
    assert_eq!(found.positions.len(), 3);
    assert!(found.positions.contains(&Pos::new(0, 0)));
    assert!(found.positions.contains(&Pos::new(1, 0)));
    assert!(found.positions.contains(&Pos::new(2, 0)));
    assert!(found.positions.contains(&found.changed_pos));
}

#[test]
fn higher_rank_pattern_wins() {
    // both the pair and the triple are satisfiable at the changed cell
    let patterns = vec![pair_pattern(1, 1), triple_pattern(1, 5)];
    let mut board: Board<AllowAll> = Board::new(4, 1, patterns, Vec::new());
    board.set_piece(Pos::new(0, 0), movable_piece(1));
    board.set_piece(Pos::new(1, 0), movable_piece(1));
    board.set_piece(Pos::new(2, 0), movable_piece(1));
    let found = board.next_match().expect("a pattern should match");
    assert_eq!(found.pattern.rank, 5);
    assert_eq!(found.positions.len(), 3);
}

#[test]
fn higher_rank_pattern_wins_whatever_the_registration_order() {
    let patterns = vec![triple_pattern(1, 5), pair_pattern(1, 1)];
    let mut board: Board<AllowAll> = Board::new(4, 1, patterns, Vec::new());
    board.set_piece(Pos::new(0, 0), movable_piece(1));
    board.set_piece(Pos::new(1, 0), movable_piece(1));
    board.set_piece(Pos::new(2, 0), movable_piece(1));
    let found = board.next_match().expect("a pattern should match");
    assert_eq!(found.pattern.rank, 5);
}

#[test]
fn equal_rank_patterns_report_that_rank() {
    // which same-rank pattern wins is unspecified; the rank is not
    let vertical = MatchPattern::new(PieceType(1), vec![Pos::new(0, 0), Pos::new(0, 1)], 3);
    let horizontal = pair_pattern(1, 3);
    let mut board: Board<AllowAll> = Board::new(2, 2, vec![vertical, horizontal], Vec::new());
    board.set_piece(Pos::new(0, 0), movable_piece(1));
    board.set_piece(Pos::new(1, 0), movable_piece(1));
    board.set_piece(Pos::new(0, 1), movable_piece(1));
    let found = board.next_match().expect("a pattern should match");
    assert_eq!(found.pattern.rank, 3);
}

#[test]
fn queue_drains_in_arrival_order() {
    let mut board: Board<AllowAll> = Board::new(4, 2, vec![pair_pattern(1, 1)], Vec::new());
    // first enqueue a cell that will never match, then one that will
    board.set_piece(Pos::new(0, 1), movable_piece(2));
    board.set_piece(Pos::new(0, 0), movable_piece(1));
    board.set_piece(Pos::new(1, 0), movable_piece(1));
    // the non-matching entry is skipped; the older matching entry wins
    let first = board.next_match().expect("the pair should match");
    assert_eq!(first.changed_pos, Pos::new(0, 0));
    let second = board.next_match().expect("the newer entry also matches");
    assert_eq!(second.changed_pos, Pos::new(1, 0));
    assert!(board.next_match().is_none());
    assert!(board.next_match().is_none());
}

#[test]
fn no_match_drains_the_whole_queue() {
    let mut board: Board<AllowAll> = Board::new(4, 1, vec![triple_pattern(1, 1)], Vec::new());
    board.set_piece(Pos::new(0, 0), movable_piece(1));
    board.set_piece(Pos::new(2, 0), movable_piece(1));
    assert!(board.next_match().is_none());
    assert!(board.next_match().is_none());
}

#[test]
fn position_enqueued_twice_matches_twice() {
    let mut board: Board<AllowAll> = Board::new(2, 1, vec![pair_pattern(1, 1)], Vec::new());
    board.set_piece(Pos::new(0, 0), movable_piece(1));
    board.set_piece(Pos::new(1, 0), movable_piece(1));
    // both cells queued; each check sees the same completed pair
    assert!(board.next_match().is_some());
    assert!(board.next_match().is_some());
    assert!(board.next_match().is_none());
}

#[test]
fn match_check_uses_the_current_state_not_a_snapshot() {
    let mut board: Board<AllowAll> = Board::new(2, 1, vec![pair_pattern(1, 1)], Vec::new());
    board.set_piece(Pos::new(0, 0), movable_piece(1));
    board.set_piece(Pos::new(1, 0), movable_piece(1));
    // break the pair before checking; the old queue entries see the
    // current, broken state (the overwrite enqueues a cell of type 2,
    // which matches nothing)
    board.set_piece(Pos::new(1, 0), movable_piece(2));
    assert!(board.next_match().is_none());
}

#[test]
fn pattern_of_another_type_does_not_match() {
    let mut board: Board<AllowAll> = Board::new(2, 1, vec![pair_pattern(7, 1)], Vec::new());
    board.set_piece(Pos::new(0, 0), movable_piece(1));
    board.set_piece(Pos::new(1, 0), movable_piece(1));
    assert!(board.next_match().is_none());
}

#[test]
fn empty_cells_and_walls_match_nothing() {
    let everywhere = MatchPattern::new(PieceType(1), vec![Pos::new(0, 0)], 1);
    let mut board: Board<AllowAll> = Board::new(2, 1, vec![everywhere], Vec::new());
    board.set_piece(Pos::new(0, 0), Piece::Empty);
    board.set_piece(Pos::new(1, 0), Piece::Wall);
    assert!(board.next_match().is_none());
}

#[test]
fn variant_anchors_cover_every_offset() {
    // the changed cell may be any cell of the shape, not only its origin
    let mut board: Board<AllowAll> = Board::new(3, 1, vec![triple_pattern(1, 1)], Vec::new());
    board.set_piece(Pos::new(0, 0), movable_piece(1));
    board.set_piece(Pos::new(2, 0), movable_piece(1));
    assert!(board.next_match().is_none());
    // completing the middle cell matches with the anchor shifted left
    board.set_piece(Pos::new(1, 0), movable_piece(1));
    let found = board.next_match().expect("the completed row should match");
    assert_eq!(found.changed_pos, Pos::new(1, 0));
}

#[test]
fn swap_enqueues_both_positions_for_matching() {
    let mut board: Board<AllowAll> = Board::new(3, 1, vec![pair_pattern(1, 1)], Vec::new());
    board.set_piece(Pos::new(0, 0), movable_piece(1));
    board.set_piece(Pos::new(1, 0), Piece::Empty);
    board.set_piece(Pos::new(2, 0), movable_piece(1));
    // the pieces are apart: nothing matches yet
    assert!(board.next_match().is_none());
    // sliding the right piece next to the left one completes the pair
    assert!(board.swap_pieces(Pos::new(2, 0), Pos::new(1, 0)));
    let found = board.next_match().expect("the swap should enable a match");
    assert!(found.positions.contains(&Pos::new(0, 0)));
    assert!(found.positions.contains(&Pos::new(1, 0)));
}

#[test]
fn pattern_with_negative_offsets_matches() {
    // the same diagonal shape written with offsets around the origin
    let shape = MatchPattern::new(
        PieceType(1),
        vec![Pos::new(-1, -1), Pos::new(0, 0), Pos::new(1, 1)],
        1,
    );
    let mut board: Board<AllowAll> = Board::new(3, 3, vec![shape], Vec::new());
    board.set_piece(Pos::new(0, 0), movable_piece(1));
    board.set_piece(Pos::new(1, 1), movable_piece(1));
    board.set_piece(Pos::new(2, 2), movable_piece(1));
    let found = board.next_match().expect("the diagonal should match");
    assert!(found.positions.contains(&Pos::new(0, 0)));
    assert!(found.positions.contains(&Pos::new(1, 1)));
    assert!(found.positions.contains(&Pos::new(2, 2)));
}

#[test]
fn degenerate_boards_have_no_matches() {
    let mut board: Board<AllowAll> = Board::new(0, 0, Vec::new(), Vec::new());
    assert!(board.next_match().is_none());
    let moves = board.trickle();
    assert!(moves.is_empty());
}
