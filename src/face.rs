use vstd::prelude::*;

verus! {

/// The six faces of the cube, in canonical block order, and a sentinel for a
/// facelet whose colour is hidden.
#[derive(Clone, Copy, Debug, PartialEq, Eq, Structural)]
pub enum Face {
    U,
    R,
    F,
    D,
    L,
    B,
    X,
}

/// Block number of a face in the flat layout (`X` has none and maps to 6).
pub open spec fn face_index(f: Face) -> int {
    match f {
        Face::U => 0,
        Face::R => 1,
        Face::F => 2,
        Face::D => 3,
        Face::L => 4,
        Face::B => 5,
        Face::X => 6,
    }
}

/// The face whose facelets fill block `b` of a solved cube.
pub open spec fn face_of_block(b: int) -> Face {
    if b == 0 {
        Face::U
    } else if b == 1 {
        Face::R
    } else if b == 2 {
        Face::F
    } else if b == 3 {
        Face::D
    } else if b == 4 {
        Face::L
    } else if b == 5 {
        Face::B
    } else {
        Face::X
    }
}

impl Face {
    pub fn index(&self) -> (r: usize)
        ensures
            r as int == face_index(*self),
    {
        match self {
            Face::U => 0,
            Face::R => 1,
            Face::F => 2,
            Face::D => 3,
            Face::L => 4,
            Face::B => 5,
            Face::X => 6,
        }
    }

    pub fn from_block(b: usize) -> (r: Face)
        ensures
            r == face_of_block(b as int),
    {
        if b == 0 {
            Face::U
        } else if b == 1 {
            Face::R
        } else if b == 2 {
            Face::F
        } else if b == 3 {
            Face::D
        } else if b == 4 {
            Face::L
        } else if b == 5 {
            Face::B
        } else {
            Face::X
        }
    }
}

/// A twist: the layers `first..=last` counted inward from `face` turn
/// together by `turns` clockwise quarter turns, as seen from `face`.
///
/// Layer 0 is the face's own outer layer. Layers at or beyond the cube's size
/// touch nothing, so a range that covers every layer turns the whole cube.
/// A move about the sentinel face `X` leaves every facelet in place.
#[derive(Clone, Copy, Debug, PartialEq, Eq, Structural)]
pub struct Move {
    pub face: Face,
    pub first: usize,
    pub last: usize,
    pub turns: u8,
}

/// Number of quarter turns a move performs, reduced to 0..4.
pub open spec fn quarter_turns(m: Move) -> int {
    m.turns as int % 4
}

/// The move that undoes `m`: the same layers, turned the other way.
pub open spec fn inverse_move(m: Move) -> Move {
    Move { turns: ((4 - quarter_turns(m)) % 4) as u8, ..m }
}

impl Move {
    /// A single outer-layer quarter turn of `face`.
    pub fn quarter(face: Face) -> (r: Move)
        ensures
            r == (Move { face, first: 0, last: 0, turns: 1 }),
    {
        Move { face, first: 0, last: 0, turns: 1 }
    }

    /// The move that undoes this one.
    pub fn inverse(&self) -> (r: Move)
        ensures
            r == inverse_move(*self),
    {
        Move { turns: (4 - self.turns % 4) % 4, ..*self }
    }
}

} // verus!
