//! Colours and piece classes.
use vstd::prelude::*;

verus! {

/// The side to move or owning a piece. White tags bitboard slots 0..8,
/// Black 8..16, so that `tag + piece code` addresses a piece bitboard.
#[derive(Clone, Copy, PartialEq, Eq, Structural, Debug)]
pub enum Color {
    White,
    Black,
}

impl Color {
    pub open spec fn tag(self) -> int {
        match self {
            Color::White => 0,
            Color::Black => 8,
        }
    }

    pub open spec fn flip(self) -> Color {
        match self {
            Color::White => Color::Black,
            Color::Black => Color::White,
        }
    }

    /// Slot of this colour's occupancy bitboard.
    pub fn index(self) -> (r: usize)
        ensures
            r == self.tag(),
    {
        match self {
            Color::White => 0,
            Color::Black => 8,
        }
    }

    pub fn opposite(self) -> (r: Color)
        ensures
            r == self.flip(),
    {
        match self {
            Color::White => Color::Black,
            Color::Black => Color::White,
        }
    }
}

/// Piece classes; `Empty` is the absence of a piece.
#[derive(Clone, Copy, PartialEq, Eq, Structural, Debug)]
pub enum Piece {
    Empty,
    Stradler,
    Coordinator,
    Springer,
    Chameleon,
    Retractor,
    Immobilizer,
    King,
}

/// The piece class with code `c` (`0..8`).
pub open spec fn piece_of(c: int) -> Piece {
    if c == 1 { Piece::Stradler }
    else if c == 2 { Piece::Coordinator }
    else if c == 3 { Piece::Springer }
    else if c == 4 { Piece::Chameleon }
    else if c == 5 { Piece::Retractor }
    else if c == 6 { Piece::Immobilizer }
    else if c == 7 { Piece::King }
    else { Piece::Empty }
}

impl Piece {
    pub open spec fn code(self) -> int {
        match self {
            Piece::Empty => 0,
            Piece::Stradler => 1,
            Piece::Coordinator => 2,
            Piece::Springer => 3,
            Piece::Chameleon => 4,
            Piece::Retractor => 5,
            Piece::Immobilizer => 6,
            Piece::King => 7,
        }
    }

    pub fn to_code(self) -> (r: u32)
        ensures
            r == self.code(),
            r < 8,
    {
        match self {
            Piece::Empty => 0,
            Piece::Stradler => 1,
            Piece::Coordinator => 2,
            Piece::Springer => 3,
            Piece::Chameleon => 4,
            Piece::Retractor => 5,
            Piece::Immobilizer => 6,
            Piece::King => 7,
        }
    }

    pub fn from_code(c: u32) -> (r: Piece)
        requires
            c < 8,
        ensures
            r == piece_of(c as int),
            r.code() == c,
    {
        match c {
            1 => Piece::Stradler,
            2 => Piece::Coordinator,
            3 => Piece::Springer,
            4 => Piece::Chameleon,
            5 => Piece::Retractor,
            6 => Piece::Immobilizer,
            7 => Piece::King,
            _ => Piece::Empty,
        }
    }
}

/// Slot of the bitboard of `p`s of colour `c` (the colour's occupancy for `Empty`).
pub open spec fn slot(c: Color, p: Piece) -> int {
    c.tag() + p.code()
}

pub fn slot_index(c: Color, p: Piece) -> (r: usize)
    ensures
        r == slot(c, p),
        r < 16,
{
    c.index() + p.to_code() as usize
}

} // verus!
