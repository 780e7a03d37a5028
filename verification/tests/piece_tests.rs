use match_board::piece::{Direction, DirectionSet, Piece, PieceType};
use match_board::position::Pos;

#[test]
fn new_piece_is_movable_in_all_directions() {
    let piece = Piece::new(PieceType(7));
    assert!(piece.is_movable(Direction::North));
    assert!(piece.is_movable(Direction::South));
    assert!(piece.is_movable(Direction::East));
    assert!(piece.is_movable(Direction::West));
}

#[test]
fn make_unmovable_removes_one_direction() {
    let mut piece = Piece::new(PieceType(1));
    piece.make_unmovable(Direction::North);
    assert!(!piece.is_movable(Direction::North));
    assert!(piece.is_movable(Direction::South));
    assert!(piece.is_movable(Direction::East));
    assert!(piece.is_movable(Direction::West));
}

#[test]
fn make_movable_restores_a_direction() {
    let mut piece = Piece::new(PieceType(1));
    piece.make_unmovable_all();
    assert!(!piece.is_movable(Direction::East));
    piece.make_movable(Direction::East);
    assert!(piece.is_movable(Direction::East));
    assert!(!piece.is_movable(Direction::West));
}

#[test]
fn make_movable_all_after_unmovable_all() {
    let mut piece = Piece::new(PieceType(2));
    piece.make_unmovable_all();
    assert!(!piece.is_movable(Direction::North));
    piece.make_movable_all();
    assert!(piece.is_movable(Direction::North));
    assert!(piece.is_movable(Direction::South));
}

#[test]
fn walls_never_move_and_empty_always_moves() {
    assert!(!Piece::Wall.is_movable(Direction::North));
    assert!(!Piece::Wall.is_movable(Direction::South));
    assert!(Piece::Empty.is_movable(Direction::East));
    assert!(Piece::Empty.is_movable(Direction::West));
}

#[test]
fn wall_and_empty_ignore_movability_changes() {
    let mut wall = Piece::Wall;
    wall.make_movable_all();
    assert_eq!(wall, Piece::Wall);
    let mut empty = Piece::Empty;
    empty.make_unmovable(Direction::South);
    assert_eq!(empty, Piece::Empty);
}

#[test]
fn direction_set_contains_with_without() {
    let none = DirectionSet::none();
    assert!(!none.contains(Direction::North));
    let with_north = none.with(Direction::North);
    assert!(with_north.contains(Direction::North));
    assert!(!with_north.contains(Direction::South));
    let back = with_north.without(Direction::North);
    assert_eq!(back, DirectionSet::none());
    assert!(DirectionSet::all().contains(Direction::West));
}

#[test]
fn position_arithmetic() {
    let p = Pos::new(3, 4);
    assert_eq!(p.x(), 3);
    assert_eq!(p.y(), 4);
    let q = p.offset(Pos::new(-1, 2));
    assert_eq!(q, Pos::new(2, 6));
    let d = q.delta(p);
    assert_eq!(d, Pos::new(-1, 2));
}
