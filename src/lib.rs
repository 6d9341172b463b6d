//! Dice expressions such as `3d6`, `4d6d1` or `2d20K1+7`: a grammar, the roll
//! specification built from it, and the evaluation of a roll.

pub mod grammar;
pub mod rollspec;
pub mod roll;
pub mod text;
pub mod laws;
