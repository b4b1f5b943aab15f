//! Context-free grammar compiler and Earley chart recognizer.

pub mod compile;
pub mod derivation;
pub mod earley;
pub mod fuzz;
pub mod grammar;
pub mod text;
