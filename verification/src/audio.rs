//! The sounds that the game can ask for.

use vstd::prelude::*;

verus! {

/// Variants of sound effects which can be played.
#[derive(Debug, Clone, Copy, PartialEq, Eq, Hash, Structural)]
pub enum SoundEffect {
    CreateRoute,
    ClickUIButton,
    PlaceShip,
    ProgressionStep,
}

} // verus!
