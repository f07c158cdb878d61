//! The dice Monte Carlo driver: repeated single-die rolls tallied per face,
//! exposed eagerly or as a lazy, step-at-a-time sequence.

use vstd::prelude::*;
use crate::dice::pool::DicePool;

verus! {

/// The integer tallies of one die type's runs: a count per face and the sum
/// of all rolls. Rates and moments are for a consumer to derive.
#[derive(Debug)]
pub struct DieStats {
    pub sides: u64,
    pub counts: Vec<usize>,
    pub total: u64,
}

/// The number of rolls a tally list records.
pub open spec fn sum_tallies(s: Seq<usize>) -> int
    decreases s.len(),
{
    if s.len() == 0 {
        0
    } else {
        sum_tallies(s.drop_last()) + s.last() as int
    }
}

/// The face-weighted sum of a tally list: slot `i` counts rolls of face
/// `i + 1`.
pub open spec fn weighted_tallies(s: Seq<usize>) -> int
    decreases s.len(),
{
    if s.len() == 0 {
        0
    } else {
        weighted_tallies(s.drop_last()) + (s.len() as int) * (s.last() as int)
    }
}

proof fn lemma_tally_zero(s: Seq<usize>)
    requires
        forall|i: int| 0 <= i < s.len() ==> (#[trigger] s[i]) == 0,
    ensures
        sum_tallies(s) == 0,
        weighted_tallies(s) == 0,
    decreases s.len(),
{
    if s.len() > 0 {
        assert(forall|i: int| 0 <= i < s.len() - 1 ==> s.drop_last()[i] == #[trigger] s[i]);
        lemma_tally_zero(s.drop_last());
        assert((s.len() as int) * 0 == 0);
    }
}

/// Raising one tally raises the count by the difference and the weighted
/// sum by that difference times the slot's face.
proof fn lemma_tally_update(s: Seq<usize>, i: int, v: usize)
    requires
        0 <= i < s.len(),
    ensures
        sum_tallies(s.update(i, v)) == sum_tallies(s) + v - s[i],
        weighted_tallies(s.update(i, v)) == weighted_tallies(s) + (i + 1) * (v as int - s[i]
            as int),
    decreases s.len(),
{
    let u = s.update(i, v);
    if i == s.len() - 1 {
        assert(u.drop_last() =~= s.drop_last());
        assert(u.last() == v);
        assert((s.len() as int) * (v as int) - (s.len() as int) * (s.last() as int) == (i + 1) * (
        v as int - s.last() as int)) by (nonlinear_arith)
            requires
                i + 1 == s.len() as int,
        ;
    } else {
        assert(u.drop_last() =~= s.drop_last().update(i, v));
        assert(u.last() == s.last());
        lemma_tally_update(s.drop_last(), i, v);
        assert(s.drop_last()[i] == s[i]);
    }
}

/// No single tally exceeds the total count.
proof fn lemma_tally_elem_le(s: Seq<usize>, i: int)
    requires
        0 <= i < s.len(),
    ensures
        s[i] as int <= sum_tallies(s),
        sum_tallies(s) >= 0,
    decreases s.len(),
{
    if s.len() > 0 {
        if i == s.len() - 1 {
            lemma_tally_nonneg(s.drop_last());
        } else {
            assert(s.drop_last()[i] == s[i]);
            lemma_tally_elem_le(s.drop_last(), i);
        }
    }
}

proof fn lemma_tally_nonneg(s: Seq<usize>)
    ensures
        sum_tallies(s) >= 0,
    decreases s.len(),
{
    if s.len() > 0 {
        lemma_tally_nonneg(s.drop_last());
    }
}

/// The fixed description of the rolls to perform: which die types, and how
/// many rolls of each.
pub struct DiceMonteCarloCollection {
    pub sides: Vec<u64>,
    pub iterations: usize,
}

/// A lazy sequence of single-die rolls, one die type after the other. After
/// the last roll of a die type its tallies are pushed onto `results`.
pub struct DiceMonteCarloIterator {
    pub collection: DiceMonteCarloCollection,
    pub sides_index: usize,
    pub iteration_index: usize,
    pub current_counts: Vec<usize>,
    pub current_total: u64,
    pub results: Vec<DieStats>,
}

/// Every die type has at least one side and a bounded size, and there are
/// few enough rolls that the tallies cannot overflow.
pub open spec fn collection_wf(c: DiceMonteCarloCollection) -> bool {
    &&& forall|i: int| 0 <= i < c.sides@.len() ==> 1 <= (#[trigger] c.sides@[i]) <= 1000000
    &&& c.iterations <= 0x4_0000_0000
}

/// The tallies a step starts from: fresh zeros at the first roll of a die
/// type, the running tallies otherwise.
pub open spec fn step_base_counts(it: DiceMonteCarloIterator) -> Seq<usize> {
    if it.iteration_index == 0 {
        Seq::new(it.collection.sides@[it.sides_index as int] as nat, |i: int| 0usize)
    } else {
        it.current_counts@
    }
}

/// The running total a step starts from.
pub open spec fn step_base_total(it: DiceMonteCarloIterator) -> int {
    if it.iteration_index == 0 {
        0
    } else {
        it.current_total as int
    }
}

impl DiceMonteCarloIterator {
    pub open spec fn wf(&self) -> bool {
        &&& collection_wf(self.collection)
        &&& self.sides_index <= self.collection.sides@.len()
        &&& self.iteration_index < self.collection.iterations || self.iteration_index == 0
        &&& (self.sides_index < self.collection.sides@.len() && self.iteration_index > 0) ==> {
            &&& self.current_counts@.len() == self.collection.sides@[self.sides_index as int]
            &&& sum_tallies(self.current_counts@) == self.iteration_index
            &&& self.current_total as int == weighted_tallies(self.current_counts@)
            &&& self.current_total <= self.iteration_index * 1000000
        }
    }

    /// Rolls the current die once: exactly one tally, of the rolled face,
    /// grows by one, and the running total grows by that face. After the
    /// last roll of a die type the finished tallies — which count exactly
    /// `iterations` rolls, with the total their face-weighted sum — are
    /// pushed and the driver moves to the next type. Returns which die type
    /// and which roll this step performed, `None` once every type is done.
    pub fn next(&mut self) -> (r: Option<(usize, usize)>)
        requires
            old(self).wf(),
        ensures
            final(self).wf(),
            final(self).collection == old(self).collection,
            (old(self).sides_index < old(self).collection.sides@.len() && old(self).iteration_index
                < old(self).collection.iterations) ==> r == Some(
                (old(self).sides_index, old(self).iteration_index),
            ),
            !(old(self).sides_index < old(self).collection.sides@.len()
                && old(self).iteration_index < old(self).collection.iterations) ==> r is None
                && *final(self) == *old(self),
            (old(self).sides_index < old(self).collection.sides@.len() && old(self).iteration_index
                + 1 < old(self).collection.iterations) ==> {
                &&& final(self).sides_index == old(self).sides_index
                &&& final(self).iteration_index == old(self).iteration_index + 1
                &&& final(self).results@ == old(self).results@
                &&& exists|f: int|
                    {
                        &&& 1 <= f <= old(self).collection.sides@[old(self).sides_index as int]
                        &&& final(self).current_counts@ == step_base_counts(*old(self)).update(
                            f - 1,
                            (#[trigger] step_base_counts(*old(self))[f - 1] + 1) as usize,
                        )
                        &&& final(self).current_total as int == step_base_total(*old(self)) + f
                    }
            },
            (old(self).sides_index < old(self).collection.sides@.len() && old(self).iteration_index
                + 1 == old(self).collection.iterations) ==> {
                &&& final(self).sides_index == old(self).sides_index + 1
                &&& final(self).iteration_index == 0
                &&& final(self).results@.len() == old(self).results@.len() + 1
                &&& old(self).results@.is_prefix_of(final(self).results@)
                &&& final(self).results@.last().sides == old(self).collection.sides@[old(
                    self,
                ).sides_index as int]
                &&& sum_tallies(final(self).results@.last().counts@) == old(
                    self,
                ).collection.iterations
                &&& final(self).results@.last().total as int == weighted_tallies(
                    final(self).results@.last().counts@,
                )
                &&& exists|f: int|
                    {
                        &&& 1 <= f <= old(self).collection.sides@[old(self).sides_index as int]
                        &&& final(self).results@.last().counts@ == step_base_counts(
                            *old(self),
                        ).update(f - 1, (#[trigger] step_base_counts(*old(self))[f - 1] + 1)
                            as usize)
                        &&& final(self).results@.last().total as int == step_base_total(
                            *old(self),
                        ) + f
                    }
            },
    {
        if self.sides_index < self.collection.sides.len() && self.iteration_index
            < self.collection.iterations {
            let sides = self.collection.sides[self.sides_index];
            if self.iteration_index == 0 {
                self.current_counts = zero_counts(sides);
                self.current_total = 0;
                proof {
                    assert(self.current_counts@ =~= step_base_counts(*old(self)));
                    lemma_tally_zero(self.current_counts@);
                }
            }
            let ghost base = self.current_counts@;
            let pool = DicePool::new().add_dice(1, sides);
            proof {
                assert(pool.dice@ =~= seq![
                    (crate::dice::pool::Dice { sides, count: 1, negative: false }),
                ]);
                lemma_single_die(pool.dice@, sides);
            }
            let roll = pool.roll();
            // the roll is one die: it lies in [1, sides]
            let face: u64 = roll as u64;
            let idx: usize = (face - 1) as usize;
            let c = self.current_counts[idx];
            let ghost wbefore = weighted_tallies(self.current_counts@);
            proof {
                lemma_tally_elem_le(self.current_counts@, idx as int);
                lemma_tally_update(self.current_counts@, idx as int, (c + 1) as usize);
            }
            self.current_counts[idx] = c + 1;
            proof {
                assert((idx as int + 1) * ((c + 1) as int - c as int) == idx as int + 1)
                    by (nonlinear_arith);
                assert(weighted_tallies(self.current_counts@) == wbefore + (idx as int + 1));
                assert(idx as int + 1 == face as int);
                assert(self.current_total as int + face as int <= (self.iteration_index as int + 1)
                    * 1000000) by (nonlinear_arith)
                    requires
                        self.current_total as int <= self.iteration_index as int * 1000000,
                        face as int <= 1000000,
                ;
                assert((self.iteration_index as int + 1) * 1000000 <= 0x4_0000_0001int * 1000000)
                    by (nonlinear_arith)
                    requires
                        self.iteration_index as int + 1 <= 0x4_0000_0001int,
                ;
            }
            self.current_total = self.current_total + face;
            let ret = Some((self.sides_index, self.iteration_index));
            self.iteration_index = self.iteration_index + 1;
            if self.iteration_index >= self.collection.iterations {
                self.iteration_index = 0;
                self.sides_index = self.sides_index + 1;
                let counts = copy_counts(&self.current_counts);
                self.current_counts = Vec::new();
                self.results.push(DieStats { sides, counts, total: self.current_total });
                self.current_total = 0;
                proof {
                    assert(old(self).results@.is_prefix_of(self.results@));
                }
            }
            proof {
                let ghost f = face as int;
                assert(1 <= f <= self.collection.sides@[old(self).sides_index as int]);
                assert(base == step_base_counts(*old(self)));
            }
            return ret;
        }
        None
    }

    /// The total number of rolls this sequence will perform.
    pub fn count(&self) -> (r: usize)
        requires
            self.collection.sides@.len() * self.collection.iterations <= usize::MAX,
        ensures
            r == self.collection.sides@.len() * self.collection.iterations,
    {
        self.collection.sides.len() * self.collection.iterations
    }
}

/// A copy of a tally vector.
fn copy_counts(v: &Vec<usize>) -> (r: Vec<usize>)
    ensures
        r@ == v@,
{
    let mut out: Vec<usize> = Vec::new();
    let mut i: usize = 0;
    while i < v.len()
        invariant
            i <= v@.len(),
            out@ == v@.take(i as int),
        decreases v@.len() - i,
    {
        out.push(v[i]);
        proof {
            assert(out@ =~= v@.take(i as int + 1));
        }
        i = i + 1;
    }
    proof {
        assert(v@.take(i as int) =~= v@);
    }
    out
}

/// A vector of `n` zero tallies.
fn zero_counts(n: u64) -> (r: Vec<usize>)
    requires
        n <= 1000000,
    ensures
        r@.len() == n,
        forall|i: int| 0 <= i < r@.len() ==> (#[trigger] r@[i]) == 0,
{
    let mut out: Vec<usize> = Vec::new();
    let mut i: u64 = 0;
    while i < n
        invariant
            i <= n,
            out@.len() == i,
            forall|j: int| 0 <= j < i ==> (#[trigger] out@[j]) == 0,
        decreases n - i,
    {
        out.push(0);
        i = i + 1;
    }
    out
}

/// A single positive die: rollable, with its extreme sums at one and its
/// side count.
proof fn lemma_single_die(s: Seq<crate::dice::pool::Dice>, sides: u64)
    requires
        s == seq![(crate::dice::pool::Dice { sides, count: 1, negative: false })],
        1 <= sides <= 1000000,
    ensures
        crate::dice::pool::dice_rollable(s),
        crate::dice::pool::dice_gross(s) == sides,
        crate::dice::pool::dice_min_sum(s) == 1,
        crate::dice::pool::dice_max_sum(s) == sides,
{
    assert(s.drop_last() =~= Seq::<crate::dice::pool::Dice>::empty());
    assert(crate::dice::pool::dice_gross(Seq::<crate::dice::pool::Dice>::empty()) == 0);
    assert(crate::dice::pool::dice_min_sum(Seq::<crate::dice::pool::Dice>::empty()) == 0);
    assert(crate::dice::pool::dice_max_sum(Seq::<crate::dice::pool::Dice>::empty()) == 0);
}

/// The standard die types this driver samples.
fn standard_sides() -> (r: Vec<u64>)
    ensures
        r@ =~= seq![4u64, 6u64, 8u64, 10u64, 12u64, 20u64],
{
    let mut sides: Vec<u64> = Vec::new();
    sides.push(4);
    sides.push(6);
    sides.push(8);
    sides.push(10);
    sides.push(12);
    sides.push(20);
    sides
}

/// Builds the lazy sequence of die rolls over the standard die types.
pub fn dice_monte_carlo_iterator(iterations: usize) -> (r: DiceMonteCarloIterator)
    requires
        iterations <= 0x4_0000_0000,
    ensures
        r.wf(),
        r.sides_index == 0,
        r.iteration_index == 0,
        r.results@.len() == 0,
        r.collection.iterations == iterations,
        r.collection.sides@ =~= seq![4u64, 6u64, 8u64, 10u64, 12u64, 20u64],
{
    let sides = standard_sides();
    proof {
        assert(forall|i: int| 0 <= i < sides@.len() ==> 1 <= (#[trigger] sides@[i]) <= 1000000);
    }
    let collection = DiceMonteCarloCollection { sides, iterations };
    DiceMonteCarloIterator {
        collection,
        sides_index: 0,
        iteration_index: 0,
        current_counts: Vec::new(),
        current_total: 0,
        results: Vec::new(),
    }
}

/// Rolls each standard die type `iterations` times and returns the integer
/// tallies per type: for every type the tallies count exactly `iterations`
/// rolls and the total is exactly the face-weighted sum of the tallies.
pub fn run_dice_monte_carlo(iterations: usize) -> (r: Vec<DieStats>)
    requires
        iterations <= 0x4_0000_0000,
    ensures
        r@.len() == 6,
        forall|i: int| 0 <= i < r@.len() ==> (#[trigger] r@[i]).sides == seq![
            4u64,
            6u64,
            8u64,
            10u64,
            12u64,
            20u64,
        ][i],
        forall|i: int| 0 <= i < r@.len() ==> (#[trigger] r@[i]).counts@.len() == r@[i].sides,
        forall|i: int| 0 <= i < r@.len() ==> sum_tallies((#[trigger] r@[i]).counts@)
            == iterations,
        forall|i: int| 0 <= i < r@.len() ==> (#[trigger] r@[i]).total as int == weighted_tallies(
            r@[i].counts@,
        ),
{
    let die_types = standard_sides();
    let mut results: Vec<DieStats> = Vec::new();
    let mut t: usize = 0;
    while t < die_types.len()
        invariant
            t <= die_types@.len(),
            die_types@ =~= seq![4u64, 6u64, 8u64, 10u64, 12u64, 20u64],
            iterations <= 0x4_0000_0000,
            results@.len() == t,
            forall|i: int| 0 <= i < results@.len() ==> (#[trigger] results@[i]).sides
                == die_types@[i],
            forall|i: int| 0 <= i < results@.len() ==> (#[trigger] results@[i]).counts@.len()
                == results@[i].sides,
            forall|i: int| 0 <= i < results@.len() ==> sum_tallies(
                (#[trigger] results@[i]).counts@,
            ) == iterations,
            forall|i: int| 0 <= i < results@.len() ==> (#[trigger] results@[i]).total as int
                == weighted_tallies(results@[i].counts@),
        decreases die_types@.len() - t,
    {
        let sides = die_types[t];
        let mut counts = zero_counts(sides);
        let mut total: u64 = 0;
        let mut k: usize = 0;
        let pool = DicePool::new().add_dice(1, sides);
        proof {
            assert(pool.dice@ =~= seq![
                (crate::dice::pool::Dice { sides, count: 1, negative: false }),
            ]);
            lemma_single_die(pool.dice@, sides);
            lemma_tally_zero(counts@);
        }
        while k < iterations
            invariant
                k <= iterations,
                iterations <= 0x4_0000_0000,
                1 <= sides <= 1000000,
                counts@.len() == sides,
                sum_tallies(counts@) == k,
                total as int == weighted_tallies(counts@),
                total <= k * 1000000,
                pool.rollable(),
                pool.fits(),
                crate::dice::pool::dice_min_sum(pool.dice@) == 1,
                crate::dice::pool::dice_max_sum(pool.dice@) == sides,
                pool.modifier == 0,
            decreases iterations - k,
        {
            let roll = pool.roll();
            let face: u64 = roll as u64;
            let idx: usize = (face - 1) as usize;
            let c = counts[idx];
            let ghost wbefore = weighted_tallies(counts@);
            proof {
                lemma_tally_elem_le(counts@, idx as int);
                lemma_tally_update(counts@, idx as int, (c + 1) as usize);
            }
            counts[idx] = c + 1;
            proof {
                assert((idx as int + 1) * ((c + 1) as int - c as int) == idx as int + 1)
                    by (nonlinear_arith);
                assert(weighted_tallies(counts@) == wbefore + (idx as int + 1));
                assert(idx as int + 1 == face as int);
                assert(total as int + face as int <= (k as int + 1) * 1000000) by (nonlinear_arith)
                    requires
                        total as int <= k as int * 1000000,
                        face as int <= 1000000,
                ;
                assert((k as int + 1) * 1000000 <= 0x4_0000_0001int * 1000000) by (nonlinear_arith)
                    requires
                        k as int + 1 <= 0x4_0000_0001int,
                ;
            }
            total = total + face;
            k = k + 1;
        }
        results.push(DieStats { sides, counts, total });
        t = t + 1;
    }
    results
}

} // verus!
