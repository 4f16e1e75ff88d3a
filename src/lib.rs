//! Numeric predicates and integer-sequence generators over `u32`.

pub mod checks;
pub mod math;
pub mod sequences;
