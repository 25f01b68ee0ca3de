//! Dice notation for tabletop games: a notation such as `"4d6 ex6 max3"` is
//! read into a [`Roller`], and every roll of it yields a [`RollResult`].

pub mod grammar;
pub mod laws;
pub mod notation;
pub mod roll_err;
pub mod roll_result;
pub mod roller;
pub mod source;
pub mod tally;
pub mod text;

pub use notation::Notation;
pub use roll_err::RollerErr;
pub use roll_result::RollResult;
pub use roller::Roller;
