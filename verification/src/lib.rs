//! A rules engine for tile-matching puzzle boards.
//!
//! The board stores a grid of pieces in packed per-cell bitmaps, lets a
//! host game swap or overwrite pieces under pluggable legality rules,
//! detects matches against user-supplied geometric patterns from a
//! queue of changed positions (never by rescanning the whole board),
//! and simulates gravity so pieces fall down and diagonally into
//! vacated space.
//!
//! The pieces live in [`piece`], positioned by [`position`]; the packed
//! bitmaps are in [`bitmap`]. The board itself, its swap-rule chain and
//! the match scan live in [`board`] with the pattern types of
//! [`matching`]; the gravity engine is in [`trickle`]. Laws relating
//! several operations are proved in [`laws`].

pub mod bitmap;
pub mod board;
pub mod laws;
pub mod matching;
pub mod piece;
pub mod position;
pub mod trickle;
