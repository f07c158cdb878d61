//! The structured record of one evaluation of a dice pool: one entry per die
//! group rolled, plus the modifier that was added after branch selection.

use vstd::prelude::*;

verus! {

/// The breakdown of one pool evaluation. Under advantage or disadvantage it
/// holds two full passes over the pool's die groups, in order.
#[derive(Clone, Debug, PartialEq)]
pub struct RollResult {
    pub rolls: Vec<DiceRollResult>,
    pub modifier: i64,
}

impl RollResult {
    pub fn new() -> (r: RollResult)
        ensures
            r.rolls@ == Seq::<DiceRollResult>::empty(),
            r.modifier == 0,
    {
        RollResult { rolls: Vec::new(), modifier: 0 }
    }

    pub fn add_roll(&mut self, roll: DiceRollResult)
        ensures
            final(self).rolls@ == old(self).rolls@.push(roll),
            final(self).modifier == old(self).modifier,
    {
        self.rolls.push(roll);
    }
}

/// What one die group rolled: the group's label and the signed sum of its
/// dice.
#[derive(Clone, Debug, PartialEq)]
pub struct DiceRollResult {
    pub descriptor: String,
    pub roll: i64,
}

impl DiceRollResult {
    pub fn new(descriptor: String, roll: i64) -> (r: DiceRollResult)
        ensures
            r.descriptor == descriptor,
            r.roll == roll,
    {
        DiceRollResult { descriptor, roll }
    }
}

} // verus!
