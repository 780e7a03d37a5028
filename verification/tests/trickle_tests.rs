use match_board::board::{AllowAll, Board};
use match_board::matching::MatchPattern;
use match_board::piece::{Direction, Piece, PieceType};
use match_board::position::Pos;

fn empty_board(width: i32, height: i32) -> Board<AllowAll> {
    Board::new(width, height, Vec::new(), Vec::new())
}

fn movable_piece(type_id: u32) -> Piece {
    Piece::new(PieceType(type_id))
}

/// No south-movable regular piece may sit directly above an empty cell.
fn assert_settled(board: &Board<AllowAll>, width: i32, height: i32) {
    for x in 0..width {
        for y in 1..height {
            let piece = board.piece(Pos::new(x, y));
            if let Piece::Regular(_, directions) = piece {
                if directions.south {
                    assert_ne!(board.piece(Pos::new(x, y - 1)), Piece::Empty);
                }
            }
        }
    }
}

#[test]
fn gravity_moves_a_piece_to_the_column_floor() {
    // column 0 (bottom to top): piece, empty, empty — already settled
    // column 1 (bottom to top): empty, empty, piece — must fall
    let mut board = empty_board(2, 3);
    board.set_piece(Pos::new(0, 0), movable_piece(1));
    board.set_piece(Pos::new(0, 1), Piece::Empty);
    board.set_piece(Pos::new(0, 2), Piece::Empty);
    board.set_piece(Pos::new(1, 0), Piece::Empty);
    board.set_piece(Pos::new(1, 1), Piece::Empty);
    board.set_piece(Pos::new(1, 2), movable_piece(1));
    let moves = board.trickle();
    assert_eq!(moves, vec![(Pos::new(1, 2), Pos::new(1, 0))]);
    assert_eq!(board.piece(Pos::new(0, 0)), movable_piece(1));
    assert_eq!(board.piece(Pos::new(0, 1)), Piece::Empty);
    assert_eq!(board.piece(Pos::new(0, 2)), Piece::Empty);
    assert_eq!(board.piece(Pos::new(1, 0)), movable_piece(1));
    assert_eq!(board.piece(Pos::new(1, 1)), Piece::Empty);
    assert_eq!(board.piece(Pos::new(1, 2)), Piece::Empty);
    assert_settled(&board, 2, 3);
}

#[test]
fn ambiguous_diagonal_goes_west() {
    // a piece blocked from below with both diagonal cells empty
    let mut board = empty_board(3, 2);
    board.set_piece(Pos::new(0, 0), Piece::Empty);
    board.set_piece(Pos::new(2, 0), Piece::Empty);
    board.set_piece(Pos::new(1, 1), movable_piece(1));
    // (1, 0) stays a wall, blocking the straight fall
    let moves = board.trickle();
    assert_eq!(moves, vec![(Pos::new(1, 1), Pos::new(0, 0))]);
    assert_eq!(board.piece(Pos::new(0, 0)), movable_piece(1));
    assert_eq!(board.piece(Pos::new(2, 0)), Piece::Empty);
    assert_settled(&board, 3, 2);
}

#[test]
fn diagonal_east_used_when_west_is_blocked() {
    let mut board = empty_board(3, 2);
    board.set_piece(Pos::new(2, 0), Piece::Empty);
    board.set_piece(Pos::new(1, 1), movable_piece(1));
    // (0, 0) and (1, 0) stay walls: only the east slide is open
    let moves = board.trickle();
    assert_eq!(moves, vec![(Pos::new(1, 1), Pos::new(2, 0))]);
    assert_eq!(board.piece(Pos::new(2, 0)), movable_piece(1));
    assert_settled(&board, 3, 2);
}

#[test]
fn piece_cascades_diagonally_then_down() {
    // the piece slides west off a wall, then falls to the floor
    let mut board = empty_board(2, 3);
    board.set_piece(Pos::new(0, 0), Piece::Empty);
    board.set_piece(Pos::new(0, 1), Piece::Empty);
    board.set_piece(Pos::new(1, 2), movable_piece(1));
    // (1, 0) and (1, 1) stay walls beneath the piece
    let moves = board.trickle();
    assert_eq!(
        moves,
        vec![(Pos::new(1, 2), Pos::new(0, 1)), (Pos::new(0, 1), Pos::new(0, 0))]
    );
    assert_eq!(board.piece(Pos::new(0, 0)), movable_piece(1));
    assert_eq!(board.piece(Pos::new(1, 2)), Piece::Empty);
    assert_settled(&board, 2, 3);
}

#[test]
fn unmovable_piece_stays_above_an_empty_cell() {
    let mut board = empty_board(1, 2);
    board.set_piece(Pos::new(0, 0), Piece::Empty);
    let mut anchored = Piece::new(PieceType(1));
    anchored.make_unmovable(Direction::South);
    board.set_piece(Pos::new(0, 1), anchored);
    let moves = board.trickle();
    assert!(moves.is_empty());
    assert_eq!(board.piece(Pos::new(0, 1)), anchored);
    assert_eq!(board.piece(Pos::new(0, 0)), Piece::Empty);
}

#[test]
fn blocked_column_compacts_only_above_the_block() {
    // bottom to top: empty, wall, piece, empty, piece
    let mut board = empty_board(1, 5);
    board.set_piece(Pos::new(0, 0), Piece::Empty);
    board.set_piece(Pos::new(0, 2), movable_piece(1));
    board.set_piece(Pos::new(0, 3), Piece::Empty);
    board.set_piece(Pos::new(0, 4), movable_piece(2));
    let moves = board.trickle();
    // the wall at row 1 protects the empty floor below it; only the
    // piece above the gap at row 3 falls
    assert_eq!(moves, vec![(Pos::new(0, 4), Pos::new(0, 3))]);
    assert_eq!(board.piece(Pos::new(0, 0)), Piece::Empty);
    assert_eq!(board.piece(Pos::new(0, 2)), movable_piece(1));
    assert_eq!(board.piece(Pos::new(0, 3)), movable_piece(2));
    assert_settled(&board, 1, 5);
}

#[test]
fn trickle_enqueues_moved_cells_for_matching() {
    let pair = MatchPattern::new(PieceType(1), vec![Pos::new(0, 0), Pos::new(1, 0)], 1);
    let mut board: Board<AllowAll> = Board::new(2, 2, vec![pair], Vec::new());
    board.set_piece(Pos::new(0, 0), movable_piece(1));
    board.set_piece(Pos::new(1, 0), Piece::Empty);
    board.set_piece(Pos::new(1, 1), movable_piece(1));
    // drain the queue entries made while building the board
    while board.next_match().is_some() {}
    assert!(board.next_match().is_none());
    let moves = board.trickle();
    assert_eq!(moves, vec![(Pos::new(1, 1), Pos::new(1, 0))]);
    // the fall completed the pair, and the moved cell was re-enqueued
    let found = board.next_match().expect("the fall should create a match");
    assert_eq!(found.positions.len(), 2);
}

#[test]
fn add_and_trickle_drops_the_new_piece() {
    let mut board = empty_board(1, 3);
    board.set_piece(Pos::new(0, 0), Piece::Empty);
    board.set_piece(Pos::new(0, 1), Piece::Empty);
    board.set_piece(Pos::new(0, 2), Piece::Empty);
    let moves = board.add_and_trickle(Pos::new(0, 2), movable_piece(1));
    assert_eq!(moves, vec![(Pos::new(0, 2), Pos::new(0, 0))]);
    assert_eq!(board.piece(Pos::new(0, 0)), movable_piece(1));
    assert_eq!(board.piece(Pos::new(0, 2)), Piece::Empty);
    assert_settled(&board, 1, 3);
}

#[test]
fn add_and_trickle_slides_into_a_diagonal_pocket() {
    // the new piece lands on a wall and then slides down-west
    let mut board = empty_board(2, 2);
    board.set_piece(Pos::new(0, 0), Piece::Empty);
    board.set_piece(Pos::new(1, 1), Piece::Empty);
    // (0, 1) and (1, 0) stay walls
    let moves = board.add_and_trickle(Pos::new(1, 1), movable_piece(1));
    assert_eq!(moves, vec![(Pos::new(1, 1), Pos::new(0, 0))]);
    assert_eq!(board.piece(Pos::new(0, 0)), movable_piece(1));
    assert_eq!(board.piece(Pos::new(1, 1)), Piece::Empty);
    assert_settled(&board, 2, 2);
}

#[test]
fn trickle_on_a_settled_board_moves_nothing() {
    let mut board = empty_board(2, 2);
    board.set_piece(Pos::new(0, 0), movable_piece(1));
    board.set_piece(Pos::new(1, 0), movable_piece(2));
    board.set_piece(Pos::new(0, 1), movable_piece(3));
    let moves = board.trickle();
    assert!(moves.is_empty());
    assert_eq!(board.piece(Pos::new(0, 0)), movable_piece(1));
    assert_eq!(board.piece(Pos::new(1, 0)), movable_piece(2));
    assert_eq!(board.piece(Pos::new(0, 1)), movable_piece(3));
}

#[test]
fn column_compaction_drops_lower_pieces_first() {
    // bottom to top: empty, piece, empty, piece
    let mut board = empty_board(1, 4);
    board.set_piece(Pos::new(0, 0), Piece::Empty);
    board.set_piece(Pos::new(0, 1), movable_piece(1));
    board.set_piece(Pos::new(0, 2), Piece::Empty);
    board.set_piece(Pos::new(0, 3), movable_piece(2));
    let moves = board.trickle();
    assert_eq!(
        moves,
        vec![(Pos::new(0, 1), Pos::new(0, 0)), (Pos::new(0, 3), Pos::new(0, 1))]
    );
    assert_eq!(board.piece(Pos::new(0, 0)), movable_piece(1));
    assert_eq!(board.piece(Pos::new(0, 1)), movable_piece(2));
    assert_eq!(board.piece(Pos::new(0, 2)), Piece::Empty);
    assert_eq!(board.piece(Pos::new(0, 3)), Piece::Empty);
    assert_settled(&board, 1, 4);
}

#[test]
fn piece_not_movable_west_does_not_slide_west() {
    let mut board = empty_board(3, 2);
    board.set_piece(Pos::new(0, 0), Piece::Empty);
    board.set_piece(Pos::new(2, 0), Piece::Empty);
    let mut piece = Piece::new(PieceType(1));
    piece.make_unmovable(Direction::West);
    board.set_piece(Pos::new(1, 1), piece);
    // west is closed to this piece, so it slides east instead
    let moves = board.trickle();
    assert_eq!(moves, vec![(Pos::new(1, 1), Pos::new(2, 0))]);
    assert_eq!(board.piece(Pos::new(2, 0)), piece);
    assert_settled(&board, 3, 2);
}
