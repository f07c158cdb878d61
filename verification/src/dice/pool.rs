//! Dice pools: an ordered list of signed die groups plus a flat modifier and
//! an advantage mode. Rolling draws every die uniformly from `[1, sides]`,
//! selects between two full passes under advantage or disadvantage, and adds
//! the modifier exactly once, after branch selection.

use vstd::prelude::*;
use crate::dice::fmt::{die_label, die_label_spec};
use crate::dice::roll::{DiceRollResult, RollResult};
use crate::rng::rand_u64;

verus! {

/// Whether a pool keeps the larger of two rolls, the smaller, or rolls once.
#[derive(Clone, Copy, Debug, PartialEq, Eq, Structural)]
pub enum AdvantageType {
    Advantage,
    Disadvantage,
    Neutral,
}

/// One die group: `count` dice with `sides` sides each, subtracted from the
/// total instead of added when `negative` is set.
#[derive(Clone, Copy, Debug, PartialEq, Eq, Structural)]
pub struct Dice {
    pub sides: u64,
    pub count: u64,
    pub negative: bool,
}

impl Dice {
    pub(crate) fn new(count: u64, sides: u64) -> (r: Dice)
        ensures
            r.count == count,
            r.sides == sides,
            !r.negative,
    {
        Dice { sides, count, negative: false }
    }
}

/// The least total a die group can contribute.
pub open spec fn die_min(d: Dice) -> int {
    if d.negative {
        -((d.count as int) * (d.sides as int))
    } else {
        d.count as int
    }
}

/// The greatest total a die group can contribute.
pub open spec fn die_max(d: Dice) -> int {
    if d.negative {
        -(d.count as int)
    } else {
        (d.count as int) * (d.sides as int)
    }
}

/// The magnitude bound of a die group: every outcome lies within it.
pub open spec fn die_gross(d: Dice) -> int {
    (d.count as int) * (d.sides as int)
}

/// Every nonempty die group has at least one side, so each die can be drawn.
pub open spec fn dice_rollable(s: Seq<Dice>) -> bool {
    forall|i: int| 0 <= i < s.len() ==> ((#[trigger] s[i]).count > 0 ==> s[i].sides >= 1)
}

pub open spec fn dice_gross(s: Seq<Dice>) -> int
    decreases s.len(),
{
    if s.len() == 0 {
        0
    } else {
        dice_gross(s.drop_last()) + die_gross(s.last())
    }
}

/// The least total the die groups of a pool can roll, before the modifier.
pub open spec fn dice_min_sum(s: Seq<Dice>) -> int
    decreases s.len(),
{
    if s.len() == 0 {
        0
    } else {
        dice_min_sum(s.drop_last()) + die_min(s.last())
    }
}

/// The greatest total the die groups of a pool can roll, before the modifier.
pub open spec fn dice_max_sum(s: Seq<Dice>) -> int
    decreases s.len(),
{
    if s.len() == 0 {
        0
    } else {
        dice_max_sum(s.drop_last()) + die_max(s.last())
    }
}

/// The dice of a pool that show `sides` sides, summed over their counts.
pub open spec fn count_dice_spec(s: Seq<Dice>, sides: u64) -> int
    decreases s.len(),
{
    if s.len() == 0 {
        0
    } else {
        count_dice_spec(s.drop_last(), sides) + if s.last().sides == sides {
            s.last().count as int
        } else {
            0
        }
    }
}

pub open spec fn abs_int(m: int) -> int {
    if m < 0 {
        -m
    } else {
        m
    }
}

proof fn lemma_die_bounds(d: Dice)
    requires
        d.count > 0 ==> d.sides >= 1,
    ensures
        -die_gross(d) <= die_min(d),
        die_min(d) <= die_max(d),
        die_max(d) <= die_gross(d),
        die_gross(d) >= 0,
{
    if d.count == 0 {
        assert((d.count as int) * (d.sides as int) == 0);
    } else {
        assert((d.count as int) * (d.sides as int) >= d.count as int >= 0 && (d.count as int) * (
        d.sides as int) >= d.sides as int) by (nonlinear_arith)
            requires
                d.count as int >= 1,
                d.sides as int >= 1,
        ;
    }
}

pub proof fn lemma_dice_sums(s: Seq<Dice>)
    requires
        dice_rollable(s),
    ensures
        -dice_gross(s) <= dice_min_sum(s),
        dice_min_sum(s) <= dice_max_sum(s),
        dice_max_sum(s) <= dice_gross(s),
        dice_gross(s) >= 0,
    decreases s.len(),
{
    if s.len() > 0 {
        assert(dice_rollable(s.drop_last()));
        lemma_dice_sums(s.drop_last());
        lemma_die_bounds(s.last());
    }
}

/// Doubling every die count doubles the pool's gross and its extreme sums
/// and keeps it rollable.
pub proof fn lemma_dice_doubled(a: Seq<Dice>, b: Seq<Dice>)
    requires
        a.len() == b.len(),
        forall|i: int| 0 <= i < a.len() ==> {
            &&& (#[trigger] b[i]).count == 2 * a[i].count
            &&& b[i].sides == a[i].sides
            &&& b[i].negative == a[i].negative
        },
    ensures
        dice_gross(b) == 2 * dice_gross(a),
        dice_min_sum(b) == 2 * dice_min_sum(a),
        dice_max_sum(b) == 2 * dice_max_sum(a),
        dice_rollable(a) ==> dice_rollable(b),
    decreases a.len(),
{
    if a.len() > 0 {
        assert(forall|i: int| 0 <= i < a.len() - 1 ==> a.drop_last()[i] == #[trigger] a[i]);
        assert(forall|i: int| 0 <= i < b.len() - 1 ==> b.drop_last()[i] == #[trigger] b[i]);
        lemma_dice_doubled(a.drop_last(), b.drop_last());
        let la = a.last();
        let lb = b.last();
        assert(lb.count == 2 * la.count && lb.sides == la.sides && lb.negative == la.negative);
        assert((2 * (la.count as int)) * (la.sides as int) == 2 * ((la.count as int) * (la.sides
            as int))) by (nonlinear_arith);
        if dice_rollable(a) {
            assert forall|i: int| 0 <= i < b.len() implies ((#[trigger] b[i]).count > 0 ==> b[i].sides
                >= 1) by {
                assert(a[i].count > 0 ==> a[i].sides >= 1);
            }
        }
    } else {
        if dice_rollable(a) {
            assert(dice_rollable(b));
        }
    }
}

proof fn lemma_gross_take_succ(s: Seq<Dice>, k: int)
    requires
        0 <= k < s.len(),
    ensures
        dice_gross(s.take(k + 1)) == dice_gross(s.take(k)) + die_gross(s[k]),
{
    assert(s.take(k + 1).drop_last() =~= s.take(k));
    assert(s.take(k + 1).last() == s[k]);
}

proof fn lemma_gross_take_full(s: Seq<Dice>, k: int)
    requires
        0 <= k <= s.len(),
        dice_rollable(s),
    ensures
        dice_gross(s.take(k)) <= dice_gross(s),
    decreases s.len() - k,
{
    if k == s.len() {
        assert(s.take(k) =~= s);
    } else {
        lemma_gross_take_succ(s, k);
        lemma_die_bounds(s[k]);
        lemma_gross_take_full(s, k + 1);
    }
}

proof fn lemma_count_dice_take_succ(s: Seq<Dice>, sides: u64, k: int)
    requires
        0 <= k < s.len(),
    ensures
        count_dice_spec(s.take(k + 1), sides) == count_dice_spec(s.take(k), sides) + if s[k].sides
            == sides {
            s[k].count as int
        } else {
            0
        },
{
    assert(s.take(k + 1).drop_last() =~= s.take(k));
    assert(s.take(k + 1).last() == s[k]);
}

proof fn lemma_count_dice_take_full(s: Seq<Dice>, sides: u64, k: int)
    requires
        0 <= k <= s.len(),
    ensures
        count_dice_spec(s.take(k), sides) <= count_dice_spec(s, sides),
    decreases s.len() - k,
{
    if k == s.len() {
        assert(s.take(k) =~= s);
    } else {
        lemma_count_dice_take_succ(s, sides, k);
        lemma_count_dice_take_full(s, sides, k + 1);
    }
}

/// The signed total one roll entry records for a die group, together with the
/// group's rendered label.
pub open spec fn roll_entry_ok(d: Dice, e: DiceRollResult) -> bool {
    &&& e.descriptor@ == die_label_spec(d)
    &&& die_min(d) <= e.roll as int <= die_max(d)
}

/// One full pass over a pool's die groups: one entry per group, in order,
/// each within its group's outcome range.
pub open spec fn rolls_match(dice: Seq<Dice>, rolls: Seq<DiceRollResult>) -> bool {
    &&& rolls.len() == dice.len()
    &&& forall|i: int| 0 <= i < dice.len() ==> roll_entry_ok(dice[i], #[trigger] rolls[i])
}

pub open spec fn sum_rolls(rolls: Seq<DiceRollResult>) -> int
    decreases rolls.len(),
{
    if rolls.len() == 0 {
        0
    } else {
        sum_rolls(rolls.drop_last()) + rolls.last().roll as int
    }
}

proof fn lemma_sum_rolls_bounds(dice: Seq<Dice>, rolls: Seq<DiceRollResult>)
    requires
        dice_rollable(dice),
        rolls_match(dice, rolls),
    ensures
        dice_min_sum(dice) <= sum_rolls(rolls),
        sum_rolls(rolls) <= dice_max_sum(dice),
    decreases dice.len(),
{
    if dice.len() > 0 {
        assert(dice_rollable(dice.drop_last()));
        assert(rolls_match(dice.drop_last(), rolls.drop_last()));
        lemma_sum_rolls_bounds(dice.drop_last(), rolls.drop_last());
        assert(roll_entry_ok(dice[dice.len() - 1], rolls[dice.len() - 1]));
    }
}

/// A pool of die groups with a flat modifier and an advantage mode.
#[derive(Debug)]
pub struct DicePool {
    pub dice: Vec<Dice>,
    pub modifier: i64,
    pub advantage_type: AdvantageType,
}

impl Clone for DicePool {
    fn clone(&self) -> (r: Self)
        ensures
            r.dice@ == self.dice@,
            r.modifier == self.modifier,
            r.advantage_type == self.advantage_type,
    {
        let mut dice: Vec<Dice> = Vec::new();
        let mut i: usize = 0;
        while i < self.dice.len()
            invariant
                i <= self.dice@.len(),
                dice@ == self.dice@.take(i as int),
            decreases self.dice@.len() - i,
        {
            dice.push(self.dice[i]);
            proof {
                assert(dice@ =~= self.dice@.take(i as int + 1));
            }
            i = i + 1;
        }
        proof {
            assert(self.dice@.take(i as int) =~= self.dice@);
        }
        DicePool { dice, modifier: self.modifier, advantage_type: self.advantage_type }
    }
}

impl Default for DicePool {
    fn default() -> (r: Self)
        ensures
            r.dice@ == Seq::<Dice>::empty(),
            r.modifier == 0,
            r.advantage_type is Neutral,
    {
        DicePool { dice: Vec::new(), modifier: 0, advantage_type: AdvantageType::Neutral }
    }
}

impl DicePool {
    /// Every die group of the pool can be drawn: no group has dice with no
    /// sides.
    pub open spec fn rollable(&self) -> bool {
        dice_rollable(self.dice@)
    }

    /// The pool's extreme totals and modifier fit the machine integer, so a
    /// roll can never overflow.
    pub open spec fn fits(&self) -> bool {
        dice_gross(self.dice@) + abs_int(self.modifier as int) <= i64::MAX
    }

    /// The least total a roll of this pool can return.
    pub open spec fn min_total(&self) -> int {
        dice_min_sum(self.dice@) + self.modifier
    }

    /// The greatest total a roll of this pool can return.
    pub open spec fn max_total(&self) -> int {
        dice_max_sum(self.dice@) + self.modifier
    }

    pub fn new() -> (r: Self)
        ensures
            r.dice@ == Seq::<Dice>::empty(),
            r.modifier == 0,
            r.advantage_type is Neutral,
    {
        DicePool::default()
    }

    /// A pool of a single twenty-sided die.
    pub fn d20() -> (r: Self)
        ensures
            r.dice@ == seq![Dice { sides: 20, count: 1, negative: false }],
            r.modifier == 0,
            r.advantage_type is Neutral,
    {
        let r = DicePool::new().add_dice(1, 20);
        assert(r.dice@ =~= seq![Dice { sides: 20, count: 1, negative: false }]);
        r
    }

    pub fn with_advantage(self) -> (r: Self)
        ensures
            r.dice@ == self.dice@,
            r.modifier == self.modifier,
            r.advantage_type is Advantage,
    {
        DicePool { advantage_type: AdvantageType::Advantage, ..self }
    }

    pub fn with_disadvantage(self) -> (r: Self)
        ensures
            r.dice@ == self.dice@,
            r.modifier == self.modifier,
            r.advantage_type is Disadvantage,
    {
        DicePool { advantage_type: AdvantageType::Disadvantage, ..self }
    }

    /// The damage pool of a critical hit: every die group's count is doubled;
    /// sides, sign and modifier are unchanged, and advantage is cleared.
    pub fn critical_hit(&self) -> (r: Self)
        requires
            forall|i: int| 0 <= i < self.dice@.len() ==> 2 * ((#[trigger] self.dice@[i]).count
                as int) <= u64::MAX,
        ensures
            r.dice@.len() == self.dice@.len(),
            forall|i: int| 0 <= i < self.dice@.len() ==> {
                &&& (#[trigger] r.dice@[i]).count == 2 * self.dice@[i].count
                &&& r.dice@[i].sides == self.dice@[i].sides
                &&& r.dice@[i].negative == self.dice@[i].negative
            },
            r.modifier == self.modifier,
            r.advantage_type is Neutral,
    {
        let mut pool: Vec<Dice> = Vec::new();
        let mut k: usize = 0;
        while k < self.dice.len()
            invariant
                k <= self.dice@.len(),
                pool@.len() == k,
                forall|i: int| 0 <= i < self.dice@.len() ==> 2 * ((#[trigger] self.dice@[i]).count
                    as int) <= u64::MAX,
                forall|i: int| 0 <= i < k ==> {
                    &&& (#[trigger] pool@[i]).count == 2 * self.dice@[i].count
                    &&& pool@[i].sides == self.dice@[i].sides
                    &&& pool@[i].negative == self.dice@[i].negative
                },
            decreases self.dice@.len() - k,
        {
            let d = self.dice[k];
            pool.push(Dice { sides: d.sides, count: d.count * 2, negative: d.negative });
            k = k + 1;
        }
        DicePool { dice: pool, modifier: self.modifier, advantage_type: AdvantageType::Neutral }
    }

    /// Appends a positive die group of `count` dice with `sides` sides.
    pub fn add_dice(self, count: u64, sides: u64) -> (r: Self)
        ensures
            r.dice@ == self.dice@.push(Dice { sides, count, negative: false }),
            r.modifier == self.modifier,
            r.advantage_type == self.advantage_type,
    {
        let mut r = self;
        r.dice.push(Dice::new(count, sides));
        r
    }

    /// Adds to the flat modifier.
    pub fn add_modifier(self, modifier: i64) -> (r: Self)
        requires
            i64::MIN <= self.modifier + modifier <= i64::MAX,
        ensures
            r.dice@ == self.dice@,
            r.modifier == self.modifier + modifier,
            r.advantage_type == self.advantage_type,
    {
        let mut r = self;
        r.modifier = r.modifier + modifier;
        r
    }

    /// The total count of dice in the pool that show `sides` sides,
    /// regardless of sign.
    pub fn count_dice(&self, sides: u64) -> (r: u64)
        requires
            count_dice_spec(self.dice@, sides) <= u64::MAX,
        ensures
            r as int == count_dice_spec(self.dice@, sides),
    {
        let mut r: u64 = 0;
        let mut k: usize = 0;
        while k < self.dice.len()
            invariant
                k <= self.dice@.len(),
                count_dice_spec(self.dice@, sides) <= u64::MAX,
                r as int == count_dice_spec(self.dice@.take(k as int), sides),
            decreases self.dice@.len() - k,
        {
            let d = self.dice[k];
            proof {
                lemma_count_dice_take_succ(self.dice@, sides, k as int);
                lemma_count_dice_take_full(self.dice@, sides, k as int + 1);
            }
            if d.sides == sides {
                r = r + d.count;
            }
            k = k + 1;
        }
        proof {
            assert(self.dice@.take(k as int) =~= self.dice@);
        }
        r
    }

    /// Rolls the pool and returns the total together with the full breakdown:
    /// one entry per die group per pass. Under advantage the total is the
    /// larger of the two pass sums plus the modifier; under disadvantage the
    /// smaller; the modifier is never doubled and never affects which pass is
    /// kept.
    pub fn roll_detailed(&self) -> (r: (i64, RollResult))
        requires
            self.rollable(),
            self.fits(),
        ensures
            r.1.modifier == self.modifier,
            self.min_total() <= r.0 as int <= self.max_total(),
            self.advantage_type is Neutral ==> rolls_match(self.dice@, r.1.rolls@) && r.0 as int
                == sum_rolls(r.1.rolls@) + self.modifier,
            self.advantage_type is Advantage ==> {
                &&& r.1.rolls@.len() == 2 * self.dice@.len()
                &&& rolls_match(self.dice@, r.1.rolls@.take(self.dice@.len() as int))
                &&& rolls_match(self.dice@, r.1.rolls@.skip(self.dice@.len() as int))
                &&& r.0 as int == vstd::math::max(
                    sum_rolls(r.1.rolls@.take(self.dice@.len() as int)),
                    sum_rolls(r.1.rolls@.skip(self.dice@.len() as int)),
                ) + self.modifier
            },
            self.advantage_type is Disadvantage ==> {
                &&& r.1.rolls@.len() == 2 * self.dice@.len()
                &&& rolls_match(self.dice@, r.1.rolls@.take(self.dice@.len() as int))
                &&& rolls_match(self.dice@, r.1.rolls@.skip(self.dice@.len() as int))
                &&& r.0 as int == vstd::math::min(
                    sum_rolls(r.1.rolls@.take(self.dice@.len() as int)),
                    sum_rolls(r.1.rolls@.skip(self.dice@.len() as int)),
                ) + self.modifier
            },
    {
        proof {
            lemma_dice_sums(self.dice@);
        }
        match self.advantage_type {
            AdvantageType::Neutral => {
                let (rolls, t) = roll_pass(&self.dice);
                proof {
                    lemma_sum_rolls_bounds(self.dice@, rolls@);
                }
                let total = t + self.modifier;
                (total, RollResult { rolls, modifier: self.modifier })
            },
            AdvantageType::Advantage => {
                let (mut rolls, t1) = roll_pass(&self.dice);
                let (mut second, t2) = roll_pass(&self.dice);
                let ghost g1 = rolls@;
                let ghost g2 = second@;
                proof {
                    lemma_sum_rolls_bounds(self.dice@, g1);
                    lemma_sum_rolls_bounds(self.dice@, g2);
                }
                rolls.append(&mut second);
                proof {
                    assert(rolls@.take(self.dice@.len() as int) =~= g1);
                    assert(rolls@.skip(self.dice@.len() as int) =~= g2);
                }
                let sel = if t1 >= t2 {
                    t1
                } else {
                    t2
                };
                let total = sel + self.modifier;
                (total, RollResult { rolls, modifier: self.modifier })
            },
            AdvantageType::Disadvantage => {
                let (mut rolls, t1) = roll_pass(&self.dice);
                let (mut second, t2) = roll_pass(&self.dice);
                let ghost g1 = rolls@;
                let ghost g2 = second@;
                proof {
                    lemma_sum_rolls_bounds(self.dice@, g1);
                    lemma_sum_rolls_bounds(self.dice@, g2);
                }
                rolls.append(&mut second);
                proof {
                    assert(rolls@.take(self.dice@.len() as int) =~= g1);
                    assert(rolls@.skip(self.dice@.len() as int) =~= g2);
                }
                let sel = if t1 < t2 {
                    t1
                } else {
                    t2
                };
                let total = sel + self.modifier;
                (total, RollResult { rolls, modifier: self.modifier })
            },
        }
    }

    /// Rolls the pool: the total always lies between the pool's least and
    /// greatest possible totals.
    pub fn roll(&self) -> (r: i64)
        requires
            self.rollable(),
            self.fits(),
        ensures
            self.min_total() <= r as int <= self.max_total(),
    {
        let (total, _) = self.roll_detailed();
        total
    }
}

/// Draws every die of one group and returns the group's signed sum.
fn roll_group(d: &Dice) -> (r: i64)
    requires
        d.count > 0 ==> d.sides >= 1,
        die_gross(*d) <= i64::MAX,
    ensures
        die_min(*d) <= r as int <= die_max(*d),
{
    let mut sum: u64 = 0;
    let mut j: u64 = 0;
    while j < d.count
        invariant
            j <= d.count,
            d.count > 0 ==> d.sides >= 1,
            die_gross(*d) <= i64::MAX,
            j as int <= sum as int <= (j as int) * (d.sides as int),
        decreases d.count - j,
    {
        assert((j as int) * (d.sides as int) + (d.sides as int) <= (d.count as int) * (d.sides
            as int)) by (nonlinear_arith)
            requires
                (j as int) + 1 <= d.count as int,
                d.sides as int >= 0,
        ;
        let x = rand_u64(1, d.sides);
        assert(sum as int + x as int <= (j as int) * (d.sides as int) + (d.sides as int));
        sum = sum + x;
        j = j + 1;
        assert(sum as int <= (j as int) * (d.sides as int)) by (nonlinear_arith)
            requires
                sum as int <= ((j as int) - 1) * (d.sides as int) + (d.sides as int),
        ;
    }
    let s = sum as i64;
    if d.negative {
        -s
    } else {
        s
    }
}

/// One full pass over a pool's die groups: rolls each group once, in order.
fn roll_pass(dice: &Vec<Dice>) -> (r: (Vec<DiceRollResult>, i64))
    requires
        dice_rollable(dice@),
        dice_gross(dice@) <= i64::MAX,
    ensures
        rolls_match(dice@, r.0@),
        r.1 as int == sum_rolls(r.0@),
{
    let mut out: Vec<DiceRollResult> = Vec::new();
    let mut total: i64 = 0;
    let mut k: usize = 0;
    while k < dice.len()
        invariant
            k <= dice@.len(),
            dice_rollable(dice@),
            dice_gross(dice@) <= i64::MAX,
            out@.len() == k,
            forall|i: int| 0 <= i < k ==> roll_entry_ok(dice@[i], #[trigger] out@[i]),
            total as int == sum_rolls(out@),
            -dice_gross(dice@.take(k as int)) <= total as int <= dice_gross(dice@.take(k as int)),
        decreases dice@.len() - k,
    {
        let d = dice[k];
        proof {
            lemma_gross_take_succ(dice@, k as int);
            lemma_gross_take_full(dice@, k as int + 1);
            lemma_die_bounds(d);
        }
        let g = roll_group(&d);
        total = total + g;
        let ghost before = out@;
        out.push(DiceRollResult { descriptor: die_label(&d), roll: g });
        proof {
            assert(out@.drop_last() =~= before);
            assert(out@.last().roll == g);
        }
        k = k + 1;
    }
    proof {
        assert(dice@.take(k as int) =~= dice@);
    }
    (out, total)
}

} // verus!
