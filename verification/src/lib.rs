//! A turn-based, team-vs-team combat simulator: a dice-expression subsystem
//! (parsing, advantage and disadvantage, critical-hit doubling), a combatant
//! model with resources and timed conditions, a round-by-round combat engine,
//! and a Monte Carlo driver that aggregates outcome statistics over many
//! independent runs.

pub mod combat;
pub mod dice;
pub mod dnd;
pub mod engine;
pub mod monte_carlo;
mod rng;
mod team;

pub use combat::{Action, ActionResult, ActivityLog, Character, HitResult, InitiativeEntry};
pub use dice::parse::roll_dice;
pub use dice::pool::{AdvantageType, Dice, DicePool};
pub use dice::roll::{DiceRollResult, RollResult};
pub use engine::Combat;
pub use team::Team;
