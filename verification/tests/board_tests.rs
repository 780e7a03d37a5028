use match_board::board::{AllowAll, Board, SwapRule};
use match_board::matching::MatchPattern;
use match_board::piece::{Direction, Piece, PieceType};
use match_board::position::Pos;

fn empty_board(width: i32, height: i32) -> Board<AllowAll> {
    Board::new(width, height, Vec::new(), Vec::new())
}

fn movable_piece(type_id: u32) -> Piece {
    Piece::new(PieceType(type_id))
}

/// A user-supplied swap rule that refuses every swap.
struct VetoAll;

impl SwapRule for VetoAll {
    fn allows(&self, _board: &Board<Self>, _first: Pos, _second: Pos) -> bool {
        false
    }
}

#[test]
fn new_board_is_filled_with_walls() {
    let board = empty_board(2, 2);
    for x in 0..2 {
        for y in 0..2 {
            assert_eq!(board.piece(Pos::new(x, y)), Piece::Wall);
        }
    }
}

#[test]
fn set_piece_overwrites_and_returns_previous() {
    let mut board = empty_board(3, 3);
    let p = Pos::new(1, 2);
    let first = board.set_piece(p, movable_piece(4));
    assert_eq!(first, Piece::Wall);
    assert_eq!(board.piece(p), movable_piece(4));
    let second = board.set_piece(p, Piece::Empty);
    assert_eq!(second, movable_piece(4));
    assert_eq!(board.piece(p), Piece::Empty);
    let third = board.set_piece(p, Piece::Wall);
    assert_eq!(third, Piece::Empty);
    assert_eq!(board.piece(p), Piece::Wall);
}

#[test]
fn self_swap_succeeds_without_changing_or_enqueueing() {
    // a pattern that would match at the swapped cell, were it enqueued
    let pattern = MatchPattern::new(PieceType(1), vec![Pos::new(0, 0)], 1);
    let mut board: Board<AllowAll> = Board::new(2, 2, vec![pattern], Vec::new());
    let p = Pos::new(0, 0);
    board.set_piece(p, movable_piece(1));
    // drain the queue entry made by set_piece
    assert!(board.next_match().is_some());
    assert!(board.next_match().is_none());
    // the self-swap reports success, changes nothing, enqueues nothing
    assert!(board.swap_pieces(p, p));
    assert_eq!(board.piece(p), movable_piece(1));
    assert!(board.next_match().is_none());
}

#[test]
fn swap_refused_when_not_movable_north() {
    let mut board = empty_board(1, 2);
    let below = Pos::new(0, 0);
    let above = Pos::new(0, 1);
    let mut stuck = Piece::new(PieceType(2));
    stuck.make_unmovable(Direction::North);
    board.set_piece(below, stuck);
    board.set_piece(above, Piece::Empty);
    assert!(!board.swap_pieces(below, above));
    assert!(!board.swap_pieces(above, below));
    assert_eq!(board.piece(below), stuck);
    assert_eq!(board.piece(above), Piece::Empty);
}

#[test]
fn swap_with_empty_cell_moves_the_piece() {
    let mut board = empty_board(2, 1);
    let from = Pos::new(0, 0);
    let to = Pos::new(1, 0);
    board.set_piece(from, movable_piece(3));
    board.set_piece(to, Piece::Empty);
    assert!(board.swap_pieces(from, to));
    assert_eq!(board.piece(from), Piece::Empty);
    assert_eq!(board.piece(to), movable_piece(3));
}

#[test]
fn swap_of_two_regular_pieces_exchanges_them() {
    let mut board = empty_board(2, 1);
    let a = Pos::new(0, 0);
    let b = Pos::new(1, 0);
    board.set_piece(a, movable_piece(1));
    board.set_piece(b, movable_piece(2));
    assert!(board.swap_pieces(a, b));
    assert_eq!(board.piece(a), movable_piece(2));
    assert_eq!(board.piece(b), movable_piece(1));
}

#[test]
fn distant_cells_swap_when_movable() {
    // the built-in rule checks directions only, not distance
    let mut board = empty_board(1, 3);
    let low = Pos::new(0, 0);
    let high = Pos::new(0, 2);
    board.set_piece(low, movable_piece(1));
    board.set_piece(high, Piece::Empty);
    assert!(board.swap_pieces(low, high));
    assert_eq!(board.piece(high), movable_piece(1));
}

#[test]
fn user_rule_vetoes_a_swap() {
    let mut board: Board<VetoAll> = Board::new(2, 1, Vec::new(), vec![VetoAll]);
    let a = Pos::new(0, 0);
    let b = Pos::new(1, 0);
    board.set_piece(a, movable_piece(1));
    board.set_piece(b, Piece::Empty);
    assert!(!board.swap_pieces(a, b));
    assert_eq!(board.piece(a), movable_piece(1));
    // a self-swap still succeeds: it never reaches the rules
    assert!(board.swap_pieces(a, a));
}

#[test]
fn movability_checks_follow_the_piece() {
    let mut board = empty_board(2, 2);
    let p = Pos::new(0, 0);
    let mut piece = Piece::new(PieceType(1));
    piece.make_unmovable(Direction::East);
    board.set_piece(p, piece);
    assert!(board.is_vertically_movable(p, Pos::new(0, 1)));
    assert!(!board.is_horizontally_movable(p, Pos::new(1, 0)));
    assert!(board.is_horizontally_movable(p, Pos::new(0, 1)));
    assert!(!board.is_movable(p, Pos::new(1, 1)));
    assert!(!board.are_pieces_movable(p, Pos::new(1, 0)));
}

#[test]
fn piece_type_reports_only_regular_pieces() {
    let mut board = empty_board(2, 2);
    board.set_piece(Pos::new(0, 0), movable_piece(9));
    board.set_piece(Pos::new(1, 0), Piece::Empty);
    assert_eq!(board.piece_type(Pos::new(0, 0)), Some(PieceType(9)));
    assert_eq!(board.piece_type(Pos::new(1, 0)), None);
    assert_eq!(board.piece_type(Pos::new(1, 1)), None);
}
