//! The debug audit trail: one entry per resolved action, with snapshots of
//! both rosters. The log is written during a run and never read back into
//! the simulation.

use vstd::prelude::*;
use crate::combat::action::{Action, ActionResult};
use crate::combat::actor::Character;

verus! {

#[derive(Debug)]
pub struct ActivityLog {
    pub round: usize,
    pub action: Action,
    pub actor: Character,
    pub target: Character,
    pub result: ActionResult,
    pub snapshot_heroes: Vec<Character>,
    pub snapshot_monsters: Vec<Character>,
}

} // verus!
