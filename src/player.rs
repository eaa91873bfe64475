use vstd::prelude::*;

verus! {

/// One of the two marks; `X` moves first.
#[derive(Clone, Copy, PartialEq, Eq, Structural, Debug)]
pub enum Player {
    X,
    O,
}

impl Player {
    pub open spec fn spec_other(self) -> Player {
        match self {
            Player::X => Player::O,
            Player::O => Player::X,
        }
    }

    /// The opposing mark.
    pub fn other(&self) -> (r: Player)
        ensures
            r == self.spec_other(),
            r != *self,
    {
        match self {
            Player::X => Player::O,
            Player::O => Player::X,
        }
    }
}

} // verus!
