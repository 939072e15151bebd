//! Dice-pool rolling: a small arithmetic expression language for the numeric
//! arguments, and the tally of a pool of dice against a difficulty.

pub mod number_expression;
pub mod roll;
