//! A greedy token-stream minimizer for C source: it discovers repeated token
//! spans, factors them into preprocessor macros, and renders the result back
//! to compilable text.

pub mod absorb;
pub mod counting;
pub mod driver;
pub mod generate;
pub mod macros;
pub mod reconstruct;
pub mod subdivision;
pub mod token;
