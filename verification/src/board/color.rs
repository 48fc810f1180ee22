use vstd::prelude::*;

verus! {

/// The side a piece belongs to.
#[derive(Debug, Clone, Copy, PartialEq, Eq, Structural)]
pub enum Color {
    White,
    Black,
}

impl Color {
    pub open spec fn spec_inverse(self) -> Color {
        match self {
            Color::White => Color::Black,
            Color::Black => Color::White,
        }
    }

    /// The other side.
    pub fn inverse(&self) -> (r: Color)
        ensures
            r == self.spec_inverse(),
    {
        match self {
            Color::White => Color::Black,
            Color::Black => Color::White,
        }
    }

    /// Taking the other side twice gives the side back, and the two sides' pawns step in
    /// opposite directions.
    pub proof fn lemma_inverse_inverse(self)
        ensures
            self.spec_inverse().spec_inverse() == self,
            self.spec_inverse() != self,
            self.spec_inverse().spec_direction() == -self.spec_direction(),
    {
    }

    pub open spec fn spec_direction(self) -> i8 {
        match self {
            Color::White => 1i8,
            Color::Black => -1i8,
        }
    }

    /// The rank step of this side's pawns: up for White, down for Black.
    pub fn direction(&self) -> (r: i8)
        ensures
            r == self.spec_direction(),
    {
        match self {
            Color::White => 1,
            Color::Black => -1,
        }
    }
}

} // verus!
