//! The tagged representation of a cell's content and its movability.

use vstd::prelude::*;

verus! {

/// One of the four cardinal directions a piece may travel in.
#[derive(Clone, Copy, PartialEq, Eq, Structural, Debug)]
pub enum Direction {
    /// Upward, toward larger y.
    North,
    /// Downward, toward smaller y.
    South,
    /// Rightward, toward larger x.
    East,
    /// Leftward, toward smaller x.
    West,
}

/// The set of cardinal directions in which a piece is movable.
#[derive(Clone, Copy, PartialEq, Eq, Structural, Debug)]
pub struct DirectionSet {
    /// Whether the set holds North.
    pub north: bool,
    /// Whether the set holds South.
    pub south: bool,
    /// Whether the set holds East.
    pub east: bool,
    /// Whether the set holds West.
    pub west: bool,
}

impl DirectionSet {
    /// Whether `direction` is in the set.
    pub open spec fn spec_contains(self, direction: Direction) -> bool {
        match direction {
            Direction::North => self.north,
            Direction::South => self.south,
            Direction::East => self.east,
            Direction::West => self.west,
        }
    }

    /// The set with `direction` added.
    pub open spec fn spec_with(self, direction: Direction) -> DirectionSet {
        match direction {
            Direction::North => DirectionSet { north: true, ..self },
            Direction::South => DirectionSet { south: true, ..self },
            Direction::East => DirectionSet { east: true, ..self },
            Direction::West => DirectionSet { west: true, ..self },
        }
    }

    /// The set with `direction` removed.
    pub open spec fn spec_without(self, direction: Direction) -> DirectionSet {
        match direction {
            Direction::North => DirectionSet { north: false, ..self },
            Direction::South => DirectionSet { south: false, ..self },
            Direction::East => DirectionSet { east: false, ..self },
            Direction::West => DirectionSet { west: false, ..self },
        }
    }

    /// The empty set of directions.
    pub fn none() -> (r: DirectionSet)
        ensures
            r == (DirectionSet { north: false, south: false, east: false, west: false }),
    {
        DirectionSet { north: false, south: false, east: false, west: false }
    }

    /// The set of all four directions.
    pub fn all() -> (r: DirectionSet)
        ensures
            r == (DirectionSet { north: true, south: true, east: true, west: true }),
    {
        DirectionSet { north: true, south: true, east: true, west: true }
    }

    /// Whether `direction` is in the set.
    #[verifier::when_used_as_spec(spec_contains)]
    pub fn contains(self, direction: Direction) -> (r: bool)
        ensures
            r == self.spec_contains(direction),
    {
        match direction {
            Direction::North => self.north,
            Direction::South => self.south,
            Direction::East => self.east,
            Direction::West => self.west,
        }
    }

    /// The set with `direction` added.
    pub fn with(self, direction: Direction) -> (r: DirectionSet)
        ensures
            r == self.spec_with(direction),
    {
        match direction {
            Direction::North => DirectionSet { north: true, ..self },
            Direction::South => DirectionSet { south: true, ..self },
            Direction::East => DirectionSet { east: true, ..self },
            Direction::West => DirectionSet { west: true, ..self },
        }
    }

    /// The set with `direction` removed.
    pub fn without(self, direction: Direction) -> (r: DirectionSet)
        ensures
            r == self.spec_without(direction),
    {
        match direction {
            Direction::North => DirectionSet { north: false, ..self },
            Direction::South => DirectionSet { south: false, ..self },
            Direction::East => DirectionSet { east: false, ..self },
            Direction::West => DirectionSet { west: false, ..self },
        }
    }
}

/// Identifies one kind of regular piece; pieces of equal type can match
/// together in patterns.
#[derive(Clone, Copy, PartialEq, Eq, Structural, Debug)]
pub struct PieceType(pub u32);

/// The content of one board cell.
///
/// A `Wall` occupies its cell and is movable in no direction; by default
/// the whole board is walls. An `Empty` cell holds no piece and counts as
/// movable in every direction. A `Regular` piece has a type, used for
/// match detection, and its own set of movable directions.
#[derive(Clone, Copy, PartialEq, Eq, Structural, Debug)]
pub enum Piece {
    /// An immovable cell that no piece can enter.
    Wall,
    /// A cell with no piece in it.
    Empty,
    /// An ordinary piece: its type and the directions it may travel in.
    Regular(PieceType, DirectionSet),
}

impl Piece {
    /// Whether this piece may travel in `direction`: walls never move,
    /// empty cells always count as movable, and a regular piece moves in
    /// exactly its own movable directions.
    pub open spec fn spec_is_movable(&self, direction: Direction) -> bool {
        match *self {
            Piece::Wall => false,
            Piece::Empty => true,
            Piece::Regular(_, directions) => directions.spec_contains(direction),
        }
    }

    /// Creates a regular piece of the given type, movable in all four
    /// directions.
    pub fn new(piece_type: PieceType) -> (r: Piece)
        ensures
            r == Piece::Regular(piece_type, DirectionSet {
                north: true,
                south: true,
                east: true,
                west: true,
            }),
    {
        Piece::Regular(piece_type, DirectionSet::all())
    }

    /// Marks a regular piece as movable in `direction`; walls and empty
    /// cells are left as they are.
    pub fn make_movable(&mut self, direction: Direction)
        ensures
            *final(self) == (match *old(self) {
                Piece::Regular(t, d) => Piece::Regular(t, d.spec_with(direction)),
                p => p,
            }),
    {
        match *self {
            Piece::Regular(t, d) => {
                *self = Piece::Regular(t, d.with(direction));
            },
            _ => {},
        }
    }

    /// Marks a regular piece as movable in all four directions; walls and
    /// empty cells are left as they are.
    pub fn make_movable_all(&mut self)
        ensures
            *final(self) == (match *old(self) {
                Piece::Regular(t, _) => Piece::Regular(t, DirectionSet {
                    north: true,
                    south: true,
                    east: true,
                    west: true,
                }),
                p => p,
            }),
    {
        match *self {
            Piece::Regular(t, _) => {
                *self = Piece::Regular(t, DirectionSet::all());
            },
            _ => {},
        }
    }

    /// Marks a regular piece as unmovable in `direction`; walls and empty
    /// cells are left as they are.
    pub fn make_unmovable(&mut self, direction: Direction)
        ensures
            *final(self) == (match *old(self) {
                Piece::Regular(t, d) => Piece::Regular(t, d.spec_without(direction)),
                p => p,
            }),
    {
        match *self {
            Piece::Regular(t, d) => {
                *self = Piece::Regular(t, d.without(direction));
            },
            _ => {},
        }
    }

    /// Marks a regular piece as unmovable in every direction; walls and
    /// empty cells are left as they are.
    pub fn make_unmovable_all(&mut self)
        ensures
            *final(self) == (match *old(self) {
                Piece::Regular(t, _) => Piece::Regular(t, DirectionSet {
                    north: false,
                    south: false,
                    east: false,
                    west: false,
                }),
                p => p,
            }),
    {
        match *self {
            Piece::Regular(t, _) => {
                *self = Piece::Regular(t, DirectionSet::none());
            },
            _ => {},
        }
    }

    /// Whether this piece may travel in `direction`.
    #[verifier::when_used_as_spec(spec_is_movable)]
    pub fn is_movable(&self, direction: Direction) -> (r: bool)
        ensures
            r == self.spec_is_movable(direction),
    {
        match *self {
            Piece::Wall => false,
            Piece::Empty => true,
            Piece::Regular(_, directions) => directions.contains(direction),
        }
    }
}

} // verus!
