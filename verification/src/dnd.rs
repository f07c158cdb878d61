//! Difficulty calculators over hero levels and monster challenge ratings.
//! A challenge rating is carried as a whole number of eighths, so the
//! fractional ratings of the source tables stay exact integers.

pub mod mcdm;
pub mod wizards;
