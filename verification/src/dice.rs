//! The dice subsystem: structured dice pools, expression parsing, canonical
//! formatting, and random evaluation with advantage and disadvantage.

pub mod fmt;
pub mod laws;
pub mod parse;
pub mod pool;
pub mod roll;
