//! A set-associative, write-back cache with least-recently-used replacement,
//! placed in front of a flat word memory and driven by a small register
//! machine.

pub mod address;
pub mod cache;
pub mod coherence;
pub mod machine;
pub mod model;
pub mod parser;
pub mod replacement;
pub mod report;
pub mod text;
pub mod types;
pub mod utils;
pub mod wellformed;

pub use machine::State;
