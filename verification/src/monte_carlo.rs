//! The Monte Carlo drivers: many independent combat runs folded into running
//! statistics, and repeated single-die rolls tallied per face.

pub mod combat;
pub mod dice;
