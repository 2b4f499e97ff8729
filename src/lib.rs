//! Type-directed term search: a bounded, round-based search for expressions
//! of a goal type, built on a memoising lookup table of known candidates.

pub mod tree;
pub mod lookup;
pub mod search;
