//! A verified interpreter for a minimal tape-based eight-symbol language:
//! an auto-growing tape of signed cells, a cursor, bracketed loops, character
//! and decimal output, and an optional observer invoked at defined points.

pub mod interpreter;
pub mod laws;
pub mod semantics;
pub mod text;

pub use interpreter::{BrainFuck, Fault, NoOpObserver, Observer};
