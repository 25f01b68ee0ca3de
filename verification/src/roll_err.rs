use vstd::prelude::*;

verus! {

/// Error returned while parsing the dice notation.
#[derive(Debug, Clone, Copy, PartialEq, Eq, Structural)]
pub enum RollerErr {
    /// The first token of the notation is malformed.
    Generic,
    /// Dice times sides is above the ceiling that keeps totals small.
    PossibleOverflow,
}

} // verus!
