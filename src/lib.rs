//! A small instruction language for a fighting actor: directed primitive
//! actions, composed by repetition and sequencing, lowered into a flat trace.

pub mod ast;
pub mod lang;
pub mod laws;

pub use ast::{Action, Direction, Instruction, Repeat};
