//! What an agent carries, and the world state that follows from it.

use vstd::prelude::*;
use crate::state::{Fact, StateFlag};

verus! {

/// What a character carries.
#[derive(Debug, Clone, Copy, PartialEq, Eq)]
pub struct Char {
    pub has_axe: bool,
    pub wood: u8,
}

impl Char {
    /// The facts that hold of the character: that it has an axe where it
    /// carries one, that it has wood where it carries any. Whether an axe
    /// lies within reach is not for the character to say.
    pub fn to_state(&self) -> (s: StateFlag)
        ensures
            s@.contains(Fact::HasAxe) == self.has_axe,
            s@.contains(Fact::HasWood) == (self.wood > 0),
            !s@.contains(Fact::AxeAvailable),
    {
        let mut s = StateFlag::none();
        if self.has_axe {
            s = s | StateFlag::has_axe();
        }
        if self.wood > 0 {
            s = s | StateFlag::has_wood();
        }
        s
    }
}

} // verus!
