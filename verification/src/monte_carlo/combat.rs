//! The combat Monte Carlo driver: a lazy, resumable sequence of independent
//! runs of the stock encounter, each folded into running statistics.

use vstd::prelude::*;
use crate::combat::actor::InitiativeEntry;
use crate::combat::{build_level_one_combat, kobold_name};
use crate::combat::Character;
use crate::engine::{all_down, heroes_won_spec, Combat};
use crate::team::Team;

verus! {

/// A defensive bound on the rounds of one run, so a pathological encounter
/// cannot loop forever.
pub const ROUND_CAP: usize = 1000;

/// How often a combatant of this name ended a run at zero hit points.
#[derive(Debug)]
pub struct NameCount {
    pub name: String,
    pub count: usize,
}

/// Running aggregates over completed runs. All fields count runs; rates are
/// for a consumer to derive from the counts and the number of runs.
#[derive(Debug)]
pub struct CombatStats {
    pub hero_victories: usize,
    pub monster_victories: usize,
    pub decisive_victories: usize,
    pub hero_ko_counts: Vec<NameCount>,
    pub monster_ko_counts: Vec<NameCount>,
    pub round_counts: Vec<usize>,
    pub finalized: bool,
}

/// The mathematical content of a tally list: each name with its count.
pub open spec fn counts_view(s: Seq<NameCount>) -> Seq<(Seq<char>, int)> {
    s.map_values(|c: NameCount| (c.name@, c.count as int))
}

/// One bump of a name's tally: the first entry of that name counts one more
/// (held at the machine maximum), a name not yet listed is registered at
/// one.
pub open spec fn bump_spec(s: Seq<(Seq<char>, int)>, name: Seq<char>) -> Seq<(Seq<char>, int)>
    decreases s.len(),
{
    if s.len() == 0 {
        seq![(name, 1int)]
    } else if s[0].0 == name {
        seq![
            (
                s[0].0,
                if s[0].1 < usize::MAX {
                    s[0].1 + 1
                } else {
                    s[0].1
                },
            ),
        ] + s.skip(1)
    } else {
        seq![s[0]] + bump_spec(s.skip(1), name)
    }
}

/// The knockout tallies after one finished run: one bump per roster member
/// ending at zero hit points, in roster order.
pub open spec fn fold_kos(cs: Seq<(Seq<char>, int)>, roster: Seq<Character>, n: int) -> Seq<
    (Seq<char>, int),
>
    decreases n,
{
    if n <= 0 {
        cs
    } else {
        let prev = fold_kos(cs, roster, n - 1);
        if roster[n - 1].current_hp == 0 {
            bump_spec(prev, roster[n - 1].name@)
        } else {
            prev
        }
    }
}

/// Whether some hero was ever brought to zero during the run.
pub open spec fn hero_knocked(ks: Seq<InitiativeEntry>) -> bool {
    exists|i: int| 0 <= i < ks.len() && (#[trigger] ks[i]).team == Team::Heroes
}

impl CombatStats {
    /// Victories partition the recorded runs, and decisive wins are hero
    /// wins.
    pub open spec fn consistent(&self, runs: int) -> bool {
        &&& self.hero_victories + self.monster_victories == runs
        &&& self.decisive_victories <= self.hero_victories
        &&& self.round_counts@.len() == runs
    }

    pub fn new() -> (r: CombatStats)
        ensures
            r.consistent(0),
            !r.finalized,
    {
        CombatStats {
            hero_victories: 0,
            monster_victories: 0,
            decisive_victories: 0,
            hero_ko_counts: Vec::new(),
            monster_ko_counts: Vec::new(),
            round_counts: Vec::new(),
            finalized: false,
        }
    }
}

impl Default for CombatStats {
    fn default() -> (r: Self)
        ensures
            r.consistent(0),
            !r.finalized,
    {
        CombatStats::new()
    }
}

/// The fixed description of the runs to perform.
pub struct CombatMonteCarloCollection {
    pub iterations: usize,
    pub num_kobolds: usize,
}

/// A lazy, resumable sequence of combat runs. Each advance performs one
/// complete run and folds its outcome into `stats`; on exhaustion the stats
/// are finalized, once.
pub struct CombatMonteCarloIterator {
    pub collection: CombatMonteCarloCollection,
    pub index: usize,
    pub stats: CombatStats,
}

impl CombatMonteCarloIterator {
    /// The statistics always reflect exactly the runs performed so far.
    pub open spec fn wf(&self) -> bool {
        &&& self.index <= self.collection.iterations
        &&& self.stats.consistent(self.index as int)
    }

    /// Performs one complete, independent combat run and folds the outcome
    /// into the running statistics; `None` once all runs are done, after
    /// which the statistics are finalized. The hero and monster victory
    /// counts always partition the runs performed, and every fold is the
    /// exact outcome of some well-formed stock encounter that concluded (or
    /// hit the defensive round cap).
    pub fn next(&mut self) -> (r: Option<usize>)
        requires
            old(self).wf(),
        ensures
            final(self).wf(),
            final(self).collection == old(self).collection,
            old(self).index < old(self).collection.iterations ==> r == Some(old(self).index)
                && final(self).index == old(self).index + 1,
            old(self).index >= old(self).collection.iterations ==> r is None && final(self).index
                == old(self).index && final(self).stats.finalized,
            final(self).stats.hero_victories + final(self).stats.monster_victories
                == final(self).index,
            old(self).index < old(self).collection.iterations ==> exists|c: Combat|
                {
                    &&& #[trigger] c.wf()
                    &&& c.heroes@.len() == 3
                    &&& c.monsters@.len() == old(self).collection.num_kobolds
                    &&& c.heroes@[0].name@ == "Fighter"@ && c.heroes@[0].max_hp == 12
                        && c.heroes@[0].ac == 16
                    &&& c.heroes@[1].name@ == "Cleric"@ && c.heroes@[1].max_hp == 10
                        && c.heroes@[1].ac == 16
                    &&& c.heroes@[2].name@ == "Rogue"@ && c.heroes@[2].max_hp == 9
                        && c.heroes@[2].ac == 14
                    &&& (forall|i: int| 0 <= i < c.monsters@.len() ==> (
                    #[trigger] c.monsters@[i]).name@ == kobold_name(i) && c.monsters@[i].max_hp
                        == 5 && c.monsters@[i].ac == 12)
                    &&& (!c.ongoing_spec() || c.round > ROUND_CAP)
                    &&& final(self).stats.hero_victories as int == old(self).stats.hero_victories
                        as int + (if heroes_won_spec(c) {
                        1int
                    } else {
                        0int
                    })
                    &&& final(self).stats.monster_victories as int == old(
                        self,
                    ).stats.monster_victories as int + (if heroes_won_spec(c) {
                        0int
                    } else {
                        1int
                    })
                    &&& final(self).stats.round_counts@ == old(self).stats.round_counts@.push(
                        c.round,
                    )
                    &&& counts_view(final(self).stats.hero_ko_counts@) == fold_kos(
                        counts_view(old(self).stats.hero_ko_counts@),
                        c.heroes@,
                        c.heroes@.len() as int,
                    )
                    &&& counts_view(final(self).stats.monster_ko_counts@) == fold_kos(
                        counts_view(old(self).stats.monster_ko_counts@),
                        c.monsters@,
                        c.monsters@.len() as int,
                    )
                    &&& final(self).stats.decisive_victories as int == old(
                        self,
                    ).stats.decisive_victories as int + (if heroes_won_spec(c) && !hero_knocked(
                        c.knockouts@,
                    ) {
                        1int
                    } else {
                        0int
                    })
                },
    {
        if self.index < self.collection.iterations {
            let mut combat = build_level_one_combat(self.collection.num_kobolds);
            combat.roll_initiative();
            let mut rounds: usize = 0;
            while combat.is_ongoing() && rounds < ROUND_CAP
                invariant
                    combat.wf(),
                    combat.heroes@.len() == 3,
                    combat.monsters@.len() == old(self).collection.num_kobolds,
                    combat.heroes@[0].name@ == "Fighter"@ && combat.heroes@[0].max_hp == 12
                        && combat.heroes@[0].ac == 16,
                    combat.heroes@[1].name@ == "Cleric"@ && combat.heroes@[1].max_hp == 10
                        && combat.heroes@[1].ac == 16,
                    combat.heroes@[2].name@ == "Rogue"@ && combat.heroes@[2].max_hp == 9
                        && combat.heroes@[2].ac == 14,
                    forall|i: int| 0 <= i < combat.monsters@.len() ==> (
                    #[trigger] combat.monsters@[i]).name@ == kobold_name(i)
                        && combat.monsters@[i].max_hp == 5 && combat.monsters@[i].ac == 12,
                    rounds <= ROUND_CAP,
                    combat.round == 1 + rounds,
                decreases ROUND_CAP - rounds,
            {
                combat.execute_round();
                rounds = rounds + 1;
            }
            self.update_stats(&combat);
            proof {
                assert(combat.wf());
                assert(!combat.ongoing_spec() || combat.round > ROUND_CAP);
            }
            let ret = Some(self.index);
            self.index = self.index + 1;
            return ret;
        }
        self.finalize_stats();
        None
    }

    /// The total number of runs this sequence will perform.
    pub fn count(&self) -> (r: usize)
        ensures
            r == self.collection.iterations,
    {
        self.collection.iterations
    }

    /// Folds one finished run into the statistics, exactly: the winning
    /// side's victory tally grows by one, the run's final round count is
    /// appended, every combatant ending at zero bumps its name's knockout
    /// tally, and the decisive tally grows by one exactly when the heroes
    /// won with no hero ever knocked out during the run.
    fn update_stats(&mut self, combat: &Combat)
        requires
            old(self).wf(),
            old(self).index < old(self).collection.iterations,
        ensures
            final(self).collection == old(self).collection,
            final(self).index == old(self).index,
            final(self).stats.consistent(old(self).index + 1),
            final(self).stats.finalized == old(self).stats.finalized,
            final(self).stats.hero_victories as int == old(self).stats.hero_victories as int + (
            if heroes_won_spec(*combat) {
                1int
            } else {
                0int
            }),
            final(self).stats.monster_victories as int == old(self).stats.monster_victories
                as int + (if heroes_won_spec(*combat) {
                0int
            } else {
                1int
            }),
            final(self).stats.round_counts@ == old(self).stats.round_counts@.push(combat.round),
            counts_view(final(self).stats.hero_ko_counts@) == fold_kos(
                counts_view(old(self).stats.hero_ko_counts@),
                combat.heroes@,
                combat.heroes@.len() as int,
            ),
            counts_view(final(self).stats.monster_ko_counts@) == fold_kos(
                counts_view(old(self).stats.monster_ko_counts@),
                combat.monsters@,
                combat.monsters@.len() as int,
            ),
            final(self).stats.decisive_victories as int == old(self).stats.decisive_victories
                as int + (if heroes_won_spec(*combat) && !hero_knocked(combat.knockouts@) {
                1int
            } else {
                0int
            }),
    {
        let ghost runs = self.index as int;
        let won = combat.heroes_won();
        if won {
            self.stats.hero_victories = self.stats.hero_victories + 1;
        } else {
            self.stats.monster_victories = self.stats.monster_victories + 1;
        }
        let mut i: usize = 0;
        while i < combat.heroes.len()
            invariant
                i <= combat.heroes@.len(),
                self.collection == old(self).collection,
                self.index == old(self).index,
                self.stats.finalized == old(self).stats.finalized,
                won == heroes_won_spec(*combat),
                self.stats.hero_victories == old(self).stats.hero_victories + if won {
                    1int
                } else {
                    0int
                },
                self.stats.monster_victories == old(self).stats.monster_victories + if won {
                    0int
                } else {
                    1int
                },
                self.stats.decisive_victories == old(self).stats.decisive_victories,
                self.stats.round_counts@ == old(self).stats.round_counts@,
                self.stats.monster_ko_counts@ == old(self).stats.monster_ko_counts@,
                counts_view(self.stats.hero_ko_counts@) == fold_kos(
                    counts_view(old(self).stats.hero_ko_counts@),
                    combat.heroes@,
                    i as int,
                ),
                old(self).wf(),
                runs == old(self).index as int,
                runs < old(self).collection.iterations,
            decreases combat.heroes@.len() - i,
        {
            if combat.heroes[i].current_hp == 0 {
                bump_name(&mut self.stats.hero_ko_counts, &combat.heroes[i].name);
            }
            i = i + 1;
        }
        let mut j: usize = 0;
        while j < combat.monsters.len()
            invariant
                j <= combat.monsters@.len(),
                self.collection == old(self).collection,
                self.index == old(self).index,
                self.stats.finalized == old(self).stats.finalized,
                won == heroes_won_spec(*combat),
                self.stats.hero_victories == old(self).stats.hero_victories + if won {
                    1int
                } else {
                    0int
                },
                self.stats.monster_victories == old(self).stats.monster_victories + if won {
                    0int
                } else {
                    1int
                },
                self.stats.decisive_victories == old(self).stats.decisive_victories,
                self.stats.round_counts@ == old(self).stats.round_counts@,
                counts_view(self.stats.hero_ko_counts@) == fold_kos(
                    counts_view(old(self).stats.hero_ko_counts@),
                    combat.heroes@,
                    combat.heroes@.len() as int,
                ),
                counts_view(self.stats.monster_ko_counts@) == fold_kos(
                    counts_view(old(self).stats.monster_ko_counts@),
                    combat.monsters@,
                    j as int,
                ),
                old(self).wf(),
                runs == old(self).index as int,
                runs < old(self).collection.iterations,
            decreases combat.monsters@.len() - j,
        {
            if combat.monsters[j].current_hp == 0 {
                bump_name(&mut self.stats.monster_ko_counts, &combat.monsters[j].name);
            }
            j = j + 1;
        }
        self.stats.round_counts.push(combat.round);
        // decisive: the heroes won and none of them was ever brought to zero
        if won {
            let mut any_hero_down = false;
            let mut k: usize = 0;
            while k < combat.knockouts.len()
                invariant
                    k <= combat.knockouts@.len(),
                    any_hero_down == exists|p: int|
                        0 <= p < k && (#[trigger] combat.knockouts@[p]).team == Team::Heroes,
                decreases combat.knockouts@.len() - k,
            {
                let e = combat.knockouts[k];
                let is_hero = match e.team {
                    Team::Heroes => true,
                    Team::Monsters => false,
                };
                if is_hero {
                    any_hero_down = true;
                }
                proof {
                    if any_hero_down {
                        if is_hero {
                            assert(combat.knockouts@[k as int].team == Team::Heroes);
                        } else {
                            let w = choose|p: int|
                                0 <= p < k && (#[trigger] combat.knockouts@[p]).team
                                    == Team::Heroes;
                            assert(0 <= w < k + 1);
                        }
                    }
                }
                k = k + 1;
            }
            proof {
                assert(any_hero_down == hero_knocked(combat.knockouts@)) by {
                    if any_hero_down {
                        let w = choose|p: int|
                            0 <= p < k && (#[trigger] combat.knockouts@[p]).team == Team::Heroes;
                        assert(hero_knocked(combat.knockouts@));
                    }
                    if hero_knocked(combat.knockouts@) {
                        let w = choose|p: int|
                            0 <= p < combat.knockouts@.len() && (
                            #[trigger] combat.knockouts@[p]).team == Team::Heroes;
                        assert(0 <= w < k);
                    }
                }
            }
            if !any_hero_down {
                self.stats.decisive_victories = self.stats.decisive_victories + 1;
            }
        }
    }

    fn finalize_stats(&mut self)
        requires
            old(self).wf(),
        ensures
            final(self).index == old(self).index,
            final(self).collection == old(self).collection,
            final(self).wf(),
            final(self).stats.finalized,
            final(self).stats.hero_victories == old(self).stats.hero_victories,
            final(self).stats.monster_victories == old(self).stats.monster_victories,
    {
        self.stats.finalized = true;
    }
}

/// Raises the tally of a name: the first entry of that name counts one
/// more (held at the machine maximum); a name not yet listed is registered
/// at one.
fn bump_name(counts: &mut Vec<NameCount>, name: &String)
    ensures
        counts_view(final(counts)@) == bump_spec(counts_view(old(counts)@), name@),
{
    bump_name_at(counts, 0, name);
    proof {
        assert(counts_view(old(counts)@).take(0) =~= Seq::<(Seq<char>, int)>::empty());
        assert(counts_view(old(counts)@).skip(0) =~= counts_view(old(counts)@));
        assert(counts_view(counts@) =~= bump_spec(counts_view(old(counts)@), name@));
    }
}

/// Bumps the name's tally within the entries from `idx` on.
fn bump_name_at(counts: &mut Vec<NameCount>, idx: usize, name: &String)
    requires
        idx <= old(counts)@.len(),
    ensures
        counts_view(final(counts)@) == counts_view(old(counts)@).take(idx as int) + bump_spec(
            counts_view(old(counts)@).skip(idx as int),
            name@,
        ),
    decreases old(counts)@.len() - idx,
{
    let ghost gv = counts_view(old(counts)@);
    if idx == counts.len() {
        counts.push(NameCount { name: name.clone(), count: 1 });
        proof {
            assert(gv.skip(idx as int) =~= Seq::<(Seq<char>, int)>::empty());
            assert(counts_view(counts@) =~= gv.take(idx as int) + bump_spec(
                gv.skip(idx as int),
                name@,
            ));
        }
    } else {
        proof {
            assert(gv.skip(idx as int)[0] == (counts@[idx as int].name@, counts@[idx as int].count
                as int));
            assert(gv.skip(idx as int).skip(1) =~= gv.skip(idx as int + 1));
        }
        if counts[idx].name == *name {
            let c = counts[idx].count;
            let bumped: usize = if c < usize::MAX {
                c + 1
            } else {
                c
            };
            counts[idx] = NameCount { name: name.clone(), count: bumped };
            proof {
                assert(counts_view(counts@) =~= gv.take(idx as int) + bump_spec(
                    gv.skip(idx as int),
                    name@,
                ));
            }
        } else {
            bump_name_at(counts, idx + 1, name);
            proof {
                assert(counts_view(counts@) =~= gv.take(idx as int) + bump_spec(
                    gv.skip(idx as int),
                    name@,
                ));
            }
        }
    }
}

/// Builds the lazy sequence of combat runs;/// Builds the lazy sequence of combat runs; the statistics start empty.
pub fn combat_monte_carlo_iterator(iterations: usize, verbose: bool, num_kobolds: usize) -> (r:
    CombatMonteCarloIterator)
    ensures
        r.wf(),
        r.index == 0,
        r.collection.iterations == iterations,
        r.collection.num_kobolds == num_kobolds,
        !r.stats.finalized,
{
    let _ = verbose;
    let collection = CombatMonteCarloCollection { iterations, num_kobolds };
    CombatMonteCarloIterator { collection, index: 0, stats: CombatStats::default() }
}

/// Runs the whole sequence eagerly and returns the finalized statistics.
pub fn run_combat_monte_carlo(iterations: usize, verbose: bool, num_kobolds: usize) -> (r:
    CombatStats)
    ensures
        r.consistent(iterations as int),
        r.finalized,
        r.hero_victories + r.monster_victories == iterations,
{
    let mut it = combat_monte_carlo_iterator(iterations, verbose, num_kobolds);
    let mut k: usize = 0;
    while k < iterations
        invariant
            it.wf(),
            it.collection.iterations == iterations,
            it.index == k,
            k <= iterations,
        decreases iterations - k,
    {
        let _ = it.next();
        k = k + 1;
    }
    let _ = it.next();
    it.stats
}

/// Once the sequence is exhausted, the hero and monster victory counts
/// partition the iterations exactly.
pub proof fn lemma_victories_partition(it: CombatMonteCarloIterator)
    requires
        it.wf(),
        it.index == it.collection.iterations,
    ensures
        it.stats.hero_victories + it.stats.monster_victories == it.collection.iterations,
{
}

} // verus!
