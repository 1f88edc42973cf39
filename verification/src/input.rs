use vstd::prelude::*;

use crate::world::Manager;

verus! {

/// Which input scheme is live.
#[derive(Clone, Copy, Debug, PartialEq, Eq, Structural)]
pub enum Mode {
    Normal,
}

/// What one round of input handling decided: whether to quit, and a
/// replacement world if a spell loaded one.
pub struct Outcome {
    pub exit: bool,
    pub new_manager: Option<Manager>,
}

} // verus!
