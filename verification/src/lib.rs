//! A propositional-logic inference engine.
//!
//! Rules of the form "antecedent implies consequent" over named boolean
//! facts are parsed into expression trees, checked for consistency, and
//! queried by memoized backward chaining with a structured derivation trace.

pub mod algo;
pub mod laws;
pub mod leakser;
pub mod translate;
pub mod kb;
pub mod models;
pub mod parsing;
pub mod utils;
