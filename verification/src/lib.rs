//! Core of a Go game recorder: board rules (groups, liberties, capture,
//! suicide and simple-ko legality), a branching move-history graph with a
//! cursor, and conversion to and from an external game-tree value.
use vstd::prelude::*;

pub mod goban;
pub mod history;
pub mod laws;
pub mod interchange;
pub mod model;

verus! {

/// The two players. The colour to move alternates after every accepted move.
#[derive(Debug, Clone, Copy, PartialEq, Eq, Structural)]
pub enum Player {
    Black,
    White,
}

impl Player {
    /// The opposing colour.
    pub open spec fn other(self) -> Player {
        match self {
            Player::Black => Player::White,
            Player::White => Player::Black,
        }
    }

    /// Flips `self` to the other colour.
    pub fn next(&mut self)
        ensures
            *final(self) == old(self).other(),
    {
        match self {
            Player::Black => *self = Player::White,
            Player::White => *self = Player::Black,
        }
    }
}

} // verus!
