//! A difficulty calculator over per-level challenge-rating budgets. Ratings
//! and budgets are in eighths of a challenge rating, so every table value is
//! an exact integer.

use vstd::prelude::*;

verus! {

#[derive(Debug, PartialEq, Eq, Structural)]
pub enum MCDMDifficultyScale {
    Trivial,
    Easy,
    Standard,
    Hard,
    Extreme,
}

impl MCDMDifficultyScale {
    /// The scale's display name.
    pub fn label(&self) -> (r: &'static str)
        ensures
            (*self is Trivial) ==> r@ == "Trivial"@,
            (*self is Easy) ==> r@ == "Easy"@,
            (*self is Standard) ==> r@ == "Standard"@,
            (*self is Hard) ==> r@ == "Hard"@,
            (*self is Extreme) ==> r@ == "Extreme"@,
    {
        match self {
            MCDMDifficultyScale::Trivial => "Trivial",
            MCDMDifficultyScale::Easy => "Easy",
            MCDMDifficultyScale::Standard => "Standard",
            MCDMDifficultyScale::Hard => "Hard",
            MCDMDifficultyScale::Extreme => "Extreme",
        }
    }
}

/// The easy budget per hero level, in eighths of a challenge rating.
pub open spec fn easy_budget_spec(level: u64) -> int {
    if level <= 2 {
        1
    } else if level == 3 {
        2
    } else if level == 4 {
        4
    } else {
        // from level 5 on the budget grows by half a rating per level
        4 * level - 12
    }
}

/// The standard budget per hero level, in eighths of a challenge rating.
pub open spec fn standard_budget_spec(level: u64) -> int {
    if level == 1 {
        1
    } else if level == 2 {
        2
    } else if level == 3 {
        4
    } else if level == 4 {
        6
    } else {
        4 * level - 8
    }
}

/// The hard budget per hero level, in eighths of a challenge rating.
pub open spec fn hard_budget_spec(level: u64) -> int {
    if level == 1 {
        2
    } else if level == 2 {
        4
    } else if level == 3 {
        6
    } else if level == 4 {
        8
    } else {
        4 * level
    }
}

fn easy_budget(level: u64) -> (r: u64)
    requires
        1 <= level <= 20,
    ensures
        r as int == easy_budget_spec(level),
{
    if level <= 2 {
        1
    } else if level == 3 {
        2
    } else if level == 4 {
        4
    } else {
        4 * level - 12
    }
}

fn standard_budget(level: u64) -> (r: u64)
    requires
        1 <= level <= 20,
    ensures
        r as int == standard_budget_spec(level),
{
    if level == 1 {
        1
    } else if level == 2 {
        2
    } else if level == 3 {
        4
    } else if level == 4 {
        6
    } else {
        4 * level - 8
    }
}

fn hard_budget(level: u64) -> (r: u64)
    requires
        1 <= level <= 20,
    ensures
        r as int == hard_budget_spec(level),
{
    if level == 1 {
        2
    } else if level == 2 {
        4
    } else if level == 3 {
        6
    } else if level == 4 {
        8
    } else {
        4 * level
    }
}

pub open spec fn sum_u64(s: Seq<u64>) -> int
    decreases s.len(),
{
    if s.len() == 0 {
        0
    } else {
        sum_u64(s.drop_last()) + s.last() as int
    }
}

pub open spec fn sum_easy(levels: Seq<u64>) -> int
    decreases levels.len(),
{
    if levels.len() == 0 {
        0
    } else {
        sum_easy(levels.drop_last()) + easy_budget_spec(levels.last())
    }
}

pub open spec fn sum_standard(levels: Seq<u64>) -> int
    decreases levels.len(),
{
    if levels.len() == 0 {
        0
    } else {
        sum_standard(levels.drop_last()) + standard_budget_spec(levels.last())
    }
}

pub open spec fn sum_hard(levels: Seq<u64>) -> int
    decreases levels.len(),
{
    if levels.len() == 0 {
        0
    } else {
        sum_hard(levels.drop_last()) + hard_budget_spec(levels.last())
    }
}

/// Where the monsters' total rating lands against the party's budgets:
/// under the easy budget is trivial, under standard is easy, under hard is
/// standard, exactly hard is hard, and everything above is extreme.
pub open spec fn mcdm_spec(levels: Seq<u64>, crs_eighths: Seq<u64>) -> MCDMDifficultyScale {
    let total = sum_u64(crs_eighths);
    if total < sum_easy(levels) {
        MCDMDifficultyScale::Trivial
    } else if total < sum_standard(levels) {
        MCDMDifficultyScale::Easy
    } else if total < sum_hard(levels) {
        MCDMDifficultyScale::Standard
    } else if total == sum_hard(levels) {
        MCDMDifficultyScale::Hard
    } else {
        MCDMDifficultyScale::Extreme
    }
}

#[derive(Debug)]
pub struct MCDMDifficultyCalculator;

impl MCDMDifficultyCalculator {
    /// Rates the encounter. Hero levels run from one to twenty; challenge
    /// ratings are in eighths.
    pub fn calculate(pc_levels: &Vec<u64>, monster_crs_eighths: &Vec<u64>) -> (r:
        MCDMDifficultyScale)
        requires
            forall|i: int| 0 <= i < pc_levels@.len() ==> 1 <= (#[trigger] pc_levels@[i]) <= 20,
            pc_levels@.len() <= 1000000,
            monster_crs_eighths@.len() <= 1000000,
            forall|i: int| 0 <= i < monster_crs_eighths@.len() ==> (
            #[trigger] monster_crs_eighths@[i]) <= 1000000,
        ensures
            r == mcdm_spec(pc_levels@, monster_crs_eighths@),
    {
        let mut total: u64 = 0;
        let mut i: usize = 0;
        while i < monster_crs_eighths.len()
            invariant
                i <= monster_crs_eighths@.len(),
                monster_crs_eighths@.len() <= 1000000,
                forall|p: int| 0 <= p < monster_crs_eighths@.len() ==> (
                #[trigger] monster_crs_eighths@[p]) <= 1000000,
                total as int == sum_u64(monster_crs_eighths@.take(i as int)),
                total <= i * 1000000,
            decreases monster_crs_eighths@.len() - i,
        {
            proof {
                assert(monster_crs_eighths@.take(i as int + 1).drop_last() =~= monster_crs_eighths@
                    .take(i as int));
                assert(monster_crs_eighths@.take(i as int + 1).last() == monster_crs_eighths@[i
                    as int]);
                assert(total as int + monster_crs_eighths@[i as int] <= (i as int + 1) * 1000000)
                    by (nonlinear_arith)
                    requires
                        total as int <= i as int * 1000000,
                        monster_crs_eighths@[i as int] <= 1000000,
                ;
                assert((i as int + 1) * 1000000 <= 1000001int * 1000000) by (nonlinear_arith)
                    requires
                        i as int + 1 <= 1000001int,
                ;
            }
            total = total + monster_crs_eighths[i];
            i = i + 1;
        }
        proof {
            assert(monster_crs_eighths@.take(i as int) =~= monster_crs_eighths@);
        }
        let mut easy: u64 = 0;
        let mut standard: u64 = 0;
        let mut hard: u64 = 0;
        let mut j: usize = 0;
        while j < pc_levels.len()
            invariant
                j <= pc_levels@.len(),
                pc_levels@.len() <= 1000000,
                forall|p: int| 0 <= p < pc_levels@.len() ==> 1 <= (#[trigger] pc_levels@[p]) <= 20,
                easy as int == sum_easy(pc_levels@.take(j as int)),
                standard as int == sum_standard(pc_levels@.take(j as int)),
                hard as int == sum_hard(pc_levels@.take(j as int)),
                easy <= j * 80,
                standard <= j * 80,
                hard <= j * 80,
            decreases pc_levels@.len() - j,
        {
            let level = pc_levels[j];
            proof {
                assert(pc_levels@.take(j as int + 1).drop_last() =~= pc_levels@.take(j as int));
                assert(pc_levels@.take(j as int + 1).last() == pc_levels@[j as int]);
                assert(easy as int + 80 <= (j as int + 1) * 80 && standard as int + 80 <= (j as int
                    + 1) * 80 && hard as int + 80 <= (j as int + 1) * 80) by (nonlinear_arith)
                    requires
                        easy as int <= j as int * 80,
                        standard as int <= j as int * 80,
                        hard as int <= j as int * 80,
                ;
                assert((j as int + 1) * 80 <= 1000001int * 80) by (nonlinear_arith)
                    requires
                        j as int + 1 <= 1000001int,
                ;
            }
            easy = easy + easy_budget(level);
            standard = standard + standard_budget(level);
            hard = hard + hard_budget(level);
            j = j + 1;
        }
        proof {
            assert(pc_levels@.take(j as int) =~= pc_levels@);
        }
        if total < easy {
            MCDMDifficultyScale::Trivial
        } else if total < standard {
            MCDMDifficultyScale::Easy
        } else if total < hard {
            MCDMDifficultyScale::Standard
        } else if total == hard {
            MCDMDifficultyScale::Hard
        } else {
            MCDMDifficultyScale::Extreme
        }
    }
}

} // verus!
