//! Minimum total damage through a row of traps when exactly `k` of them may
//! be skipped, each skip adding one point of damage to every later trap.

pub mod puzzle;
pub mod solver;
pub mod exhaustive;
pub mod parse;
