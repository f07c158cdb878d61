//! Difficulty calculators over per-level experience budgets, in the 2014
//! and 2024 styles. Challenge ratings are in eighths; experience values are
//! exact integers.

use vstd::prelude::*;

verus! {

/// A challenge rating with a listed experience value: one eighth, one
/// quarter, one half, or a whole number of ratings up to thirty.
pub open spec fn cr_valid(cr8: u64) -> bool {
    cr8 == 1 || cr8 == 2 || cr8 == 4 || (cr8 % 8 == 0 && 8 <= cr8 <= 240)
}

/// The experience value of a monster of the given challenge rating.
pub open spec fn cr_xp_spec(cr8: u64) -> int {
    if cr8 == 1 {
        25
    } else if cr8 == 2 {
        50
    } else if cr8 == 4 {
        100
    } else if cr8 == 8 {
        200
    } else if cr8 == 16 {
        450
    } else if cr8 == 24 {
        700
    } else if cr8 == 32 {
        1100
    } else if cr8 == 40 {
        1800
    } else if cr8 == 48 {
        2300
    } else if cr8 == 56 {
        2900
    } else if cr8 == 64 {
        3900
    } else if cr8 == 72 {
        5000
    } else if cr8 == 80 {
        5900
    } else if cr8 == 88 {
        7200
    } else if cr8 == 96 {
        8400
    } else if cr8 == 104 {
        10000
    } else if cr8 == 112 {
        11500
    } else if cr8 == 120 {
        13000
    } else if cr8 == 128 {
        15000
    } else if cr8 == 136 {
        18000
    } else if cr8 == 144 {
        20000
    } else if cr8 == 152 {
        22000
    } else if cr8 == 160 {
        25000
    } else if cr8 == 168 {
        33000
    } else if cr8 == 176 {
        41000
    } else if cr8 == 184 {
        50000
    } else if cr8 == 192 {
        62000
    } else if cr8 == 200 {
        75000
    } else if cr8 == 208 {
        90000
    } else if cr8 == 216 {
        105000
    } else if cr8 == 224 {
        120000
    } else if cr8 == 232 {
        135000
    } else {
        155000
    }
}

fn cr_xp(cr8: u64) -> (r: u64)
    requires
        cr_valid(cr8),
    ensures
        r as int == cr_xp_spec(cr8),
        r <= 155000,
{
    if cr8 == 1 {
        25
    } else if cr8 == 2 {
        50
    } else if cr8 == 4 {
        100
    } else if cr8 == 8 {
        200
    } else if cr8 == 16 {
        450
    } else if cr8 == 24 {
        700
    } else if cr8 == 32 {
        1100
    } else if cr8 == 40 {
        1800
    } else if cr8 == 48 {
        2300
    } else if cr8 == 56 {
        2900
    } else if cr8 == 64 {
        3900
    } else if cr8 == 72 {
        5000
    } else if cr8 == 80 {
        5900
    } else if cr8 == 88 {
        7200
    } else if cr8 == 96 {
        8400
    } else if cr8 == 104 {
        10000
    } else if cr8 == 112 {
        11500
    } else if cr8 == 120 {
        13000
    } else if cr8 == 128 {
        15000
    } else if cr8 == 136 {
        18000
    } else if cr8 == 144 {
        20000
    } else if cr8 == 152 {
        22000
    } else if cr8 == 160 {
        25000
    } else if cr8 == 168 {
        33000
    } else if cr8 == 176 {
        41000
    } else if cr8 == 184 {
        50000
    } else if cr8 == 192 {
        62000
    } else if cr8 == 200 {
        75000
    } else if cr8 == 208 {
        90000
    } else if cr8 == 216 {
        105000
    } else if cr8 == 224 {
        120000
    } else if cr8 == 232 {
        135000
    } else {
        155000
    }
}

/// The 2014 per-level thresholds: easy, medium, hard, deadly.
pub open spec fn thresholds_2014_spec(level: u64) -> (int, int, int, int) {
    if level == 1 {
        (25, 50, 75, 100)
    } else if level == 2 {
        (50, 100, 150, 200)
    } else if level == 3 {
        (75, 150, 225, 400)
    } else if level == 4 {
        (125, 250, 375, 500)
    } else if level == 5 {
        (250, 500, 750, 1100)
    } else if level == 6 {
        (300, 600, 900, 1400)
    } else if level == 7 {
        (350, 750, 1100, 1700)
    } else if level == 8 {
        (450, 900, 1400, 2100)
    } else if level == 9 {
        (550, 1100, 1600, 2400)
    } else if level == 10 {
        (600, 1200, 1900, 2800)
    } else if level == 11 {
        (800, 1600, 2400, 3600)
    } else if level == 12 {
        (1000, 2000, 3000, 4500)
    } else if level == 13 {
        (1100, 2200, 3400, 5100)
    } else if level == 14 {
        (1250, 2500, 3800, 5700)
    } else if level == 15 {
        (1400, 2800, 4300, 6400)
    } else if level == 16 {
        (1600, 3200, 4800, 7200)
    } else if level == 17 {
        (2000, 3900, 5900, 8800)
    } else if level == 18 {
        (2100, 4200, 6300, 9500)
    } else if level == 19 {
        (2400, 4900, 7300, 10900)
    } else {
        (2800, 5700, 8500, 12700)
    }
}

fn thresholds_2014(level: u64) -> (r: (u64, u64, u64, u64))
    requires
        1 <= level <= 20,
    ensures
        r.0 as int == thresholds_2014_spec(level).0,
        r.1 as int == thresholds_2014_spec(level).1,
        r.2 as int == thresholds_2014_spec(level).2,
        r.3 as int == thresholds_2014_spec(level).3,
        r.0 <= 2800 && r.1 <= 5700 && r.2 <= 8500 && r.3 <= 12700,
{
    if level == 1 {
        (25, 50, 75, 100)
    } else if level == 2 {
        (50, 100, 150, 200)
    } else if level == 3 {
        (75, 150, 225, 400)
    } else if level == 4 {
        (125, 250, 375, 500)
    } else if level == 5 {
        (250, 500, 750, 1100)
    } else if level == 6 {
        (300, 600, 900, 1400)
    } else if level == 7 {
        (350, 750, 1100, 1700)
    } else if level == 8 {
        (450, 900, 1400, 2100)
    } else if level == 9 {
        (550, 1100, 1600, 2400)
    } else if level == 10 {
        (600, 1200, 1900, 2800)
    } else if level == 11 {
        (800, 1600, 2400, 3600)
    } else if level == 12 {
        (1000, 2000, 3000, 4500)
    } else if level == 13 {
        (1100, 2200, 3400, 5100)
    } else if level == 14 {
        (1250, 2500, 3800, 5700)
    } else if level == 15 {
        (1400, 2800, 4300, 6400)
    } else if level == 16 {
        (1600, 3200, 4800, 7200)
    } else if level == 17 {
        (2000, 3900, 5900, 8800)
    } else if level == 18 {
        (2100, 4200, 6300, 9500)
    } else if level == 19 {
        (2400, 4900, 7300, 10900)
    } else {
        (2800, 5700, 8500, 12700)
    }
}

/// The 2024 per-level budgets: low, moderate, high.
pub open spec fn budgets_2024_spec(level: u64) -> (int, int, int) {
    if level == 1 {
        (50, 75, 100)
    } else if level == 2 {
        (100, 150, 200)
    } else if level == 3 {
        (150, 225, 400)
    } else if level == 4 {
        (250, 375, 500)
    } else if level == 5 {
        (500, 750, 1100)
    } else if level == 6 {
        (600, 1000, 1400)
    } else if level == 7 {
        (750, 1300, 1700)
    } else if level == 8 {
        (1000, 1700, 2100)
    } else if level == 9 {
        (1300, 2000, 2600)
    } else if level == 10 {
        (1600, 2300, 3100)
    } else if level == 11 {
        (1900, 2900, 4100)
    } else if level == 12 {
        (2200, 3700, 4700)
    } else if level == 13 {
        (2600, 4200, 5400)
    } else if level == 14 {
        (2900, 4900, 6200)
    } else if level == 15 {
        (3300, 5400, 7800)
    } else if level == 16 {
        (3800, 6100, 9800)
    } else if level == 17 {
        (4500, 7200, 11700)
    } else if level == 18 {
        (5000, 8700, 14200)
    } else if level == 19 {
        (5500, 10700, 17200)
    } else {
        (6400, 13200, 22000)
    }
}

fn budgets_2024(level: u64) -> (r: (u64, u64, u64))
    requires
        1 <= level <= 20,
    ensures
        r.0 as int == budgets_2024_spec(level).0,
        r.1 as int == budgets_2024_spec(level).1,
        r.2 as int == budgets_2024_spec(level).2,
        r.0 <= 6400 && r.1 <= 13200 && r.2 <= 22000,
{
    if level == 1 {
        (50, 75, 100)
    } else if level == 2 {
        (100, 150, 200)
    } else if level == 3 {
        (150, 225, 400)
    } else if level == 4 {
        (250, 375, 500)
    } else if level == 5 {
        (500, 750, 1100)
    } else if level == 6 {
        (600, 1000, 1400)
    } else if level == 7 {
        (750, 1300, 1700)
    } else if level == 8 {
        (1000, 1700, 2100)
    } else if level == 9 {
        (1300, 2000, 2600)
    } else if level == 10 {
        (1600, 2300, 3100)
    } else if level == 11 {
        (1900, 2900, 4100)
    } else if level == 12 {
        (2200, 3700, 4700)
    } else if level == 13 {
        (2600, 4200, 5400)
    } else if level == 14 {
        (2900, 4900, 6200)
    } else if level == 15 {
        (3300, 5400, 7800)
    } else if level == 16 {
        (3800, 6100, 9800)
    } else if level == 17 {
        (4500, 7200, 11700)
    } else if level == 18 {
        (5000, 8700, 14200)
    } else if level == 19 {
        (5500, 10700, 17200)
    } else {
        (6400, 13200, 22000)
    }
}

pub open spec fn sum_xp(crs: Seq<u64>) -> int
    decreases crs.len(),
{
    if crs.len() == 0 {
        0
    } else {
        sum_xp(crs.drop_last()) + cr_xp_spec(crs.last())
    }
}

pub open spec fn sum_thresholds_2014(levels: Seq<u64>) -> (int, int, int, int)
    decreases levels.len(),
{
    if levels.len() == 0 {
        (0, 0, 0, 0)
    } else {
        let rest = sum_thresholds_2014(levels.drop_last());
        let t = thresholds_2014_spec(levels.last());
        (rest.0 + t.0, rest.1 + t.1, rest.2 + t.2, rest.3 + t.3)
    }
}

pub open spec fn sum_budgets_2024(levels: Seq<u64>) -> (int, int, int)
    decreases levels.len(),
{
    if levels.len() == 0 {
        (0, 0, 0)
    } else {
        let rest = sum_budgets_2024(levels.drop_last());
        let t = budgets_2024_spec(levels.last());
        (rest.0 + t.0, rest.1 + t.1, rest.2 + t.2)
    }
}

/// The 2014 group-size multiplier applied to the monsters' experience
/// total, with the half-steps taken as exact floors.
pub open spec fn adjusted_xp_spec(total: int, n: int) -> int {
    if n <= 1 {
        total
    } else if n == 2 {
        total * 3 / 2
    } else if n <= 6 {
        total * 2
    } else if n <= 10 {
        total * 5 / 2
    } else if n <= 14 {
        total * 3
    } else {
        total * 4
    }
}

#[derive(Debug, PartialEq, Eq, Structural)]
pub enum WizardDifficulty2014 {
    Easy,
    Medium,
    Hard,
    Deadly,
}

impl WizardDifficulty2014 {
    /// The rating's display name.
    pub fn label(&self) -> (r: &'static str)
        ensures
            (*self is Easy) ==> r@ == "Easy"@,
            (*self is Medium) ==> r@ == "Medium"@,
            (*self is Hard) ==> r@ == "Hard"@,
            (*self is Deadly) ==> r@ == "Deadly"@,
    {
        match self {
            WizardDifficulty2014::Easy => "Easy",
            WizardDifficulty2014::Medium => "Medium",
            WizardDifficulty2014::Hard => "Hard",
            WizardDifficulty2014::Deadly => "Deadly",
        }
    }
}

/// Where the group-adjusted monster experience lands against the party's
/// 2014 thresholds.
pub open spec fn wizards_2014_spec(levels: Seq<u64>, crs: Seq<u64>) -> WizardDifficulty2014 {
    let adjusted = adjusted_xp_spec(sum_xp(crs), crs.len() as int);
    let t = sum_thresholds_2014(levels);
    if adjusted >= t.3 {
        WizardDifficulty2014::Deadly
    } else if adjusted >= t.2 {
        WizardDifficulty2014::Hard
    } else if adjusted >= t.1 {
        WizardDifficulty2014::Medium
    } else {
        WizardDifficulty2014::Easy
    }
}

#[derive(Debug)]
pub struct WizardDifficultyCalculator2014;

impl WizardDifficultyCalculator2014 {
    /// Rates the encounter by the 2014 thresholds. Hero levels run from one
    /// to twenty; challenge ratings are in eighths and must be listed
    /// ratings.
    pub fn calculate(pc_levels: &Vec<u64>, monster_crs_eighths: &Vec<u64>) -> (r:
        WizardDifficulty2014)
        requires
            forall|i: int| 0 <= i < pc_levels@.len() ==> 1 <= (#[trigger] pc_levels@[i]) <= 20,
            pc_levels@.len() <= 1000000,
            monster_crs_eighths@.len() <= 1000000,
            forall|i: int| 0 <= i < monster_crs_eighths@.len() ==> cr_valid(
                #[trigger] monster_crs_eighths@[i],
            ),
        ensures
            r == wizards_2014_spec(pc_levels@, monster_crs_eighths@),
    {
        let total = sum_monster_xp(monster_crs_eighths);
        let n = monster_crs_eighths.len();
        let adjusted: u64 = if n <= 1 {
            total
        } else if n == 2 {
            total * 3 / 2
        } else if n <= 6 {
            total * 2
        } else if n <= 10 {
            total * 5 / 2
        } else if n <= 14 {
            total * 3
        } else {
            total * 4
        };
        let mut easy: u64 = 0;
        let mut medium: u64 = 0;
        let mut hard: u64 = 0;
        let mut deadly: u64 = 0;
        let mut j: usize = 0;
        while j < pc_levels.len()
            invariant
                j <= pc_levels@.len(),
                pc_levels@.len() <= 1000000,
                forall|p: int| 0 <= p < pc_levels@.len() ==> 1 <= (#[trigger] pc_levels@[p]) <= 20,
                easy as int == sum_thresholds_2014(pc_levels@.take(j as int)).0,
                medium as int == sum_thresholds_2014(pc_levels@.take(j as int)).1,
                hard as int == sum_thresholds_2014(pc_levels@.take(j as int)).2,
                deadly as int == sum_thresholds_2014(pc_levels@.take(j as int)).3,
                easy <= j * 12700 && medium <= j * 12700 && hard <= j * 12700 && deadly <= j
                    * 12700,
            decreases pc_levels@.len() - j,
        {
            let level = pc_levels[j];
            let t = thresholds_2014(level);
            proof {
                assert(pc_levels@.take(j as int + 1).drop_last() =~= pc_levels@.take(j as int));
                assert(pc_levels@.take(j as int + 1).last() == pc_levels@[j as int]);
                assert(deadly as int + 12700 <= (j as int + 1) * 12700 && easy as int + 12700 <= (
                j as int + 1) * 12700 && medium as int + 12700 <= (j as int + 1) * 12700 && hard
                    as int + 12700 <= (j as int + 1) * 12700) by (nonlinear_arith)
                    requires
                        easy as int <= j as int * 12700,
                        medium as int <= j as int * 12700,
                        hard as int <= j as int * 12700,
                        deadly as int <= j as int * 12700,
                ;
                assert((j as int + 1) * 12700 <= 1000001int * 12700) by (nonlinear_arith)
                    requires
                        j as int + 1 <= 1000001int,
                ;
            }
            easy = easy + t.0;
            medium = medium + t.1;
            hard = hard + t.2;
            deadly = deadly + t.3;
            j = j + 1;
        }
        proof {
            assert(pc_levels@.take(j as int) =~= pc_levels@);
        }
        if adjusted >= deadly {
            WizardDifficulty2014::Deadly
        } else if adjusted >= hard {
            WizardDifficulty2014::Hard
        } else if adjusted >= medium {
            WizardDifficulty2014::Medium
        } else {
            WizardDifficulty2014::Easy
        }
    }
}

/// The summed experience of the monsters.
fn sum_monster_xp(monster_crs_eighths: &Vec<u64>) -> (r: u64)
    requires
        monster_crs_eighths@.len() <= 1000000,
        forall|i: int| 0 <= i < monster_crs_eighths@.len() ==> cr_valid(
            #[trigger] monster_crs_eighths@[i],
        ),
    ensures
        r as int == sum_xp(monster_crs_eighths@),
        r <= 155000 * 1000000,
{
    let mut total: u64 = 0;
    let mut i: usize = 0;
    while i < monster_crs_eighths.len()
        invariant
            i <= monster_crs_eighths@.len(),
            monster_crs_eighths@.len() <= 1000000,
            forall|p: int| 0 <= p < monster_crs_eighths@.len() ==> cr_valid(
                #[trigger] monster_crs_eighths@[p],
            ),
            total as int == sum_xp(monster_crs_eighths@.take(i as int)),
            total <= i * 155000,
        decreases monster_crs_eighths@.len() - i,
    {
        let xp = cr_xp(monster_crs_eighths[i]);
        proof {
            assert(monster_crs_eighths@.take(i as int + 1).drop_last() =~= monster_crs_eighths@
                .take(i as int));
            assert(monster_crs_eighths@.take(i as int + 1).last() == monster_crs_eighths@[i
                as int]);
            assert(total as int + 155000 <= (i as int + 1) * 155000) by (nonlinear_arith)
                requires
                    total as int <= i as int * 155000,
            ;
            assert((i as int + 1) * 155000 <= 1000001int * 155000) by (nonlinear_arith)
                requires
                    i as int + 1 <= 1000001int,
            ;
        }
        total = total + xp;
        i = i + 1;
    }
    proof {
        assert(monster_crs_eighths@.take(i as int) =~= monster_crs_eighths@);
        assert(i as int * 155000 <= 1000000int * 155000) by (nonlinear_arith)
            requires
                i as int <= 1000000int,
        ;
    }
    total
}

#[derive(Debug, PartialEq, Eq, Structural)]
pub enum WizardDifficulty2024 {
    Low,
    Moderate,
    High,
}

impl WizardDifficulty2024 {
    /// The rating's display name.
    pub fn label(&self) -> (r: &'static str)
        ensures
            (*self is Low) ==> r@ == "Low"@,
            (*self is Moderate) ==> r@ == "Moderate"@,
            (*self is High) ==> r@ == "High"@,
    {
        match self {
            WizardDifficulty2024::Low => "Low",
            WizardDifficulty2024::Moderate => "Moderate",
            WizardDifficulty2024::High => "High",
        }
    }
}

/// Where the monsters' raw experience total lands against the party's 2024
/// budgets.
pub open spec fn wizards_2024_spec(levels: Seq<u64>, crs: Seq<u64>) -> WizardDifficulty2024 {
    let total = sum_xp(crs);
    let b = sum_budgets_2024(levels);
    if total <= b.0 {
        WizardDifficulty2024::Low
    } else if total <= b.1 {
        WizardDifficulty2024::Moderate
    } else {
        WizardDifficulty2024::High
    }
}

#[derive(Debug)]
pub struct WizardDifficultyCalculator2024;

impl WizardDifficultyCalculator2024 {
    /// Rates the encounter by the 2024 budgets. Hero levels run from one to
    /// twenty; challenge ratings are in eighths and must be listed ratings.
    pub fn calculate(pc_levels: &Vec<u64>, monster_crs_eighths: &Vec<u64>) -> (r:
        WizardDifficulty2024)
        requires
            forall|i: int| 0 <= i < pc_levels@.len() ==> 1 <= (#[trigger] pc_levels@[i]) <= 20,
            pc_levels@.len() <= 1000000,
            monster_crs_eighths@.len() <= 1000000,
            forall|i: int| 0 <= i < monster_crs_eighths@.len() ==> cr_valid(
                #[trigger] monster_crs_eighths@[i],
            ),
        ensures
            r == wizards_2024_spec(pc_levels@, monster_crs_eighths@),
    {
        let total = sum_monster_xp(monster_crs_eighths);
        let mut low: u64 = 0;
        let mut moderate: u64 = 0;
        let mut high: u64 = 0;
        let mut j: usize = 0;
        while j < pc_levels.len()
            invariant
                j <= pc_levels@.len(),
                pc_levels@.len() <= 1000000,
                forall|p: int| 0 <= p < pc_levels@.len() ==> 1 <= (#[trigger] pc_levels@[p]) <= 20,
                low as int == sum_budgets_2024(pc_levels@.take(j as int)).0,
                moderate as int == sum_budgets_2024(pc_levels@.take(j as int)).1,
                high as int == sum_budgets_2024(pc_levels@.take(j as int)).2,
                low <= j * 22000 && moderate <= j * 22000 && high <= j * 22000,
            decreases pc_levels@.len() - j,
        {
            let level = pc_levels[j];
            let b = budgets_2024(level);
            proof {
                assert(pc_levels@.take(j as int + 1).drop_last() =~= pc_levels@.take(j as int));
                assert(pc_levels@.take(j as int + 1).last() == pc_levels@[j as int]);
                assert(low as int + 22000 <= (j as int + 1) * 22000 && moderate as int + 22000 <= (
                j as int + 1) * 22000 && high as int + 22000 <= (j as int + 1) * 22000)
                    by (nonlinear_arith)
                    requires
                        low as int <= j as int * 22000,
                        moderate as int <= j as int * 22000,
                        high as int <= j as int * 22000,
                ;
                assert((j as int + 1) * 22000 <= 1000001int * 22000) by (nonlinear_arith)
                    requires
                        j as int + 1 <= 1000001int,
                ;
            }
            low = low + b.0;
            moderate = moderate + b.1;
            high = high + b.2;
            j = j + 1;
        }
        proof {
            assert(pc_levels@.take(j as int) =~= pc_levels@);
        }
        if total <= low {
            WizardDifficulty2024::Low
        } else if total <= moderate {
            WizardDifficulty2024::Moderate
        } else {
            WizardDifficulty2024::High
        }
    }
}

} // verus!
