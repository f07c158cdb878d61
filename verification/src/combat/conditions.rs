//! Timed status conditions: a tag, a remaining duration in rounds, and the
//! behavioural effects the condition imposes while active.

use vstd::prelude::*;

verus! {

#[derive(Copy, Clone, Debug, PartialEq, Eq, Structural)]
pub enum ConditionType {
    Poisoned,
    Stunned,
}

#[derive(Copy, Clone, Debug, PartialEq, Eq, Structural)]
pub enum Duration {
    Rounds(u64),
}

impl Duration {
    /// The rounds left on this duration.
    pub open spec fn remaining_spec(&self) -> u64 {
        match *self {
            Duration::Rounds(length) => length,
        }
    }

    /// Counts one round down, flooring at zero.
    pub fn deprecate(&mut self)
        ensures
            final(self).remaining_spec() == if old(self).remaining_spec() > 1 {
                (old(self).remaining_spec() - 1) as u64
            } else {
                0u64
            },
    {
        match self {
            Duration::Rounds(length) => {
                if *length > 1 {
                    *length = *length - 1;
                } else {
                    *length = 0;
                }
            },
        }
    }

    pub fn remaining(&self) -> (r: u64)
        ensures
            r == self.remaining_spec(),
    {
        match *self {
            Duration::Rounds(length) => length,
        }
    }

    pub fn ongoing(&self) -> (r: bool)
        ensures
            r == (self.remaining_spec() > 0),
    {
        match *self {
            Duration::Rounds(length) => length > 0,
        }
    }
}

#[derive(Copy, Clone, Debug, PartialEq, Eq, Structural)]
pub enum Effect {
    DisadvantageOnAttacks,
    CantTakeActions,
}

#[derive(Debug, PartialEq)]
pub struct Condition {
    pub condition: ConditionType,
    pub duration: Duration,
    pub effects: Vec<Effect>,
}

/// The mathematical content of a condition: its tag, rounds left, and
/// effects.
pub struct CondView {
    pub kind: ConditionType,
    pub remaining: u64,
    pub effects: Seq<Effect>,
}

pub open spec fn cond_view(c: Condition) -> CondView {
    CondView { kind: c.condition, remaining: c.duration.remaining_spec(), effects: c.effects@ }
}

pub open spec fn conds_view(s: Seq<Condition>) -> Seq<CondView> {
    s.map_values(|c: Condition| cond_view(c))
}

impl Condition {
    /// Whether the condition carries the given effect.
    pub open spec fn has_effect(&self, e: Effect) -> bool {
        exists|i: int| 0 <= i < self.effects@.len() && self.effects@[i] == e
    }

    /// A poisoned condition: disadvantage on attacks for the duration.
    pub fn poisoned(duration: Duration) -> (r: Condition)
        ensures
            r.condition == ConditionType::Poisoned,
            r.duration == duration,
            r.effects@ == seq![Effect::DisadvantageOnAttacks],
    {
        let mut effects: Vec<Effect> = Vec::new();
        effects.push(Effect::DisadvantageOnAttacks);
        proof {
            assert(effects@ =~= seq![Effect::DisadvantageOnAttacks]);
        }
        Condition { condition: ConditionType::Poisoned, duration, effects }
    }

    /// A stunned condition: no actions for the duration.
    pub fn stunned(duration: Duration) -> (r: Condition)
        ensures
            r.condition == ConditionType::Stunned,
            r.duration == duration,
            r.effects@ == seq![Effect::CantTakeActions],
    {
        let mut effects: Vec<Effect> = Vec::new();
        effects.push(Effect::CantTakeActions);
        proof {
            assert(effects@ =~= seq![Effect::CantTakeActions]);
        }
        Condition { condition: ConditionType::Stunned, duration, effects }
    }

    /// A copy of `condition` with one round counted down.
    pub fn copy_deprecate_duration(condition: &Condition) -> (r: Condition)
        ensures
            r.condition == condition.condition,
            r.effects@ == condition.effects@,
            r.duration.remaining_spec() == if condition.duration.remaining_spec() > 1 {
                (condition.duration.remaining_spec() - 1) as u64
            } else {
                0u64
            },
    {
        let mut duration = condition.duration;
        duration.deprecate();
        Condition { condition: condition.condition, duration, effects: condition.effects.clone() }
    }

    /// Counts one round down in place.
    pub fn deprecate_duration(&mut self)
        ensures
            final(self).condition == old(self).condition,
            final(self).effects@ == old(self).effects@,
            final(self).duration.remaining_spec() == if old(self).duration.remaining_spec() > 1 {
                (old(self).duration.remaining_spec() - 1) as u64
            } else {
                0u64
            },
    {
        self.duration.deprecate();
    }

    pub fn still_active(&self) -> (r: bool)
        ensures
            r == (self.duration.remaining_spec() > 0),
    {
        self.duration.ongoing()
    }
}

} // verus!
