//! Solvers for a collection of small text puzzles.
//!
//! The centrepiece is the calibration equation solver in [`day7`]: given a
//! target and an ordered list of operands, it searches for an assignment of
//! left-to-right binary operators (addition, multiplication and decimal
//! concatenation) that reproduces the target, and sums the targets of all
//! solvable equations.  The remaining modules are independent single-pass
//! puzzle solvers that consume raw text and produce numeric answers.

pub mod parsing;

pub mod day1;
pub mod day2;
pub mod day3;
pub mod day4;
pub mod day5;
pub mod day6;
pub mod day7;
pub mod day8;
pub mod day9;
