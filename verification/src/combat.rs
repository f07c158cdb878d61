//! The combat model: actions, combatants, conditions, the activity log, and
//! the builder for the stock first-level encounter.

pub mod action;
pub mod actor;
pub mod conditions;
pub mod log;

pub use action::{Action, ActionResult, HitResult};
pub use actor::{Character, InitiativeEntry, ResourceType};
pub use conditions::{Condition, ConditionType, Duration, Effect};
pub use log::ActivityLog;

use vstd::prelude::*;
use crate::combat::action::pool_wf;
use crate::combat::actor::{cur_of, kind_view, max_of, KindView};
use crate::dice::fmt::{u64_digits, render_u64};
use crate::dice::pool::{Dice, DicePool};
use crate::engine::{chars_wf, side_teams, Combat};
use crate::team::Team;

verus! {

/// An attack action of the given name, to-hit bonus and single-group damage
/// pool.
pub open spec fn attack_shaped(
    a: Action,
    name: Seq<char>,
    bonus: i64,
    count: u64,
    sides: u64,
    m: i64,
) -> bool {
    match a {
        Action::Attack { name: n, hit_bonus, damage } => {
            &&& n@ == name
            &&& hit_bonus == bonus
            &&& damage.dice@ == seq![(Dice { sides, count, negative: false })]
            &&& damage.modifier == m
            &&& damage.advantage_type is Neutral
        },
        _ => false,
    }
}

/// A heal action of the given name and single-group healing pool, with no
/// resource cost.
pub open spec fn free_heal_shaped(
    a: Action,
    name: Seq<char>,
    count: u64,
    sides: u64,
    m: i64,
) -> bool {
    match a {
        Action::Heal { name: n, healing, required_resources } => {
            &&& n@ == name
            &&& healing.dice@ == seq![(Dice { sides, count, negative: false })]
            &&& healing.modifier == m
            &&& healing.advantage_type is Neutral
            &&& required_resources@.len() == 0
        },
        _ => false,
    }
}

/// A second-wind action with the given single-group healing pool, costing
/// one use of the named feature.
pub open spec fn second_wind_shaped(
    a: Action,
    feature: Seq<char>,
    count: u64,
    sides: u64,
    m: i64,
) -> bool {
    match a {
        Action::SecondWind { healing, required_resources } => {
            &&& healing.dice@ == seq![(Dice { sides, count, negative: false })]
            &&& healing.modifier == m
            &&& healing.advantage_type is Neutral
            &&& required_resources@.len() == 1
            &&& kind_view(&required_resources@[0].0) == KindView::Feat(feature)
            &&& required_resources@[0].1 == 1
        },
        _ => false,
    }
}

/// A combatant's identity line: name, hit points (full), armor class and
/// initiative bonus.
pub open spec fn combatant_shaped(
    c: Character,
    name: Seq<char>,
    hp: u64,
    ac: u64,
    bonus: i64,
) -> bool {
    &&& c.name@ == name
    &&& c.max_hp == hp
    &&& c.current_hp == hp
    &&& c.ac == ac
    &&& c.initiative_bonus == bonus
}

/// The name of the stock encounter's kobold at the given roster slot.
pub open spec fn kobold_name(i: int) -> Seq<char> {
    "Kobold "@ + u64_digits((i + 1) as nat)
}

/// A pool of one die group and a flat modifier, with bounds small enough
/// that every roll, also critically doubled, is safe.
fn simple_pool(count: u64, sides: u64, modifier: i64) -> (r: DicePool)
    requires
        1 <= count <= 1000,
        1 <= sides <= 1000,
        -1000 <= modifier <= 1000,
    ensures
        pool_wf(r),
        r.dice@ == seq![(Dice { sides, count, negative: false })],
        r.modifier == modifier,
        r.advantage_type is Neutral,
{
    let r = DicePool::new().add_dice(count, sides).add_modifier(modifier);
    proof {
        assert(r.dice@ =~= seq![(Dice { sides, count, negative: false })]);
        let s = r.dice@;
        assert(s.drop_last() =~= Seq::<Dice>::empty());
        assert(crate::dice::pool::dice_gross(Seq::<Dice>::empty()) == 0);
        assert(crate::dice::pool::die_gross(s.last()) <= 1_000_000) by (nonlinear_arith)
            requires
                s.last().count <= 1000,
                s.last().sides <= 1000,
        ;
        assert(crate::dice::pool::dice_gross(s) <= 1_000_000);
    }
    r
}

/// The stock first-level encounter: a fighter, a cleric and a rogue against
/// the given number of kobolds.
pub fn build_level_one_combat(num_kobolds: usize) -> (r: Combat)
    ensures
        r.wf(),
        r.heroes@.len() == 3,
        r.monsters@.len() == num_kobolds,
        r.initiative_order@.len() == 0,
        r.round == 1,
        !r.debug_mode,
        r.debug_log@.len() == 0,
        r.knockouts@.len() == 0,
        combatant_shaped(r.heroes@[0], "Fighter"@, 12, 16, 1),
        r.heroes@[0].actions@.len() == 2,
        attack_shaped(r.heroes@[0].actions@[0], "Greatsword"@, 5, 2, 6, 3),
        second_wind_shaped(r.heroes@[0].actions@[1], "Second Wind"@, 1, 10, 1),
        cur_of(r.heroes@[0].resources.entries@, KindView::Feat("Second Wind"@)) == 1,
        max_of(r.heroes@[0].resources.entries@, KindView::Feat("Second Wind"@)) == 1,
        combatant_shaped(r.heroes@[1], "Cleric"@, 10, 16, 0),
        r.heroes@[1].actions@.len() == 2,
        attack_shaped(r.heroes@[1].actions@[0], "Mace"@, 4, 1, 6, 2),
        free_heal_shaped(r.heroes@[1].actions@[1], "Healing Word"@, 1, 8, 3),
        combatant_shaped(r.heroes@[2], "Rogue"@, 9, 14, 3),
        r.heroes@[2].actions@.len() == 1,
        attack_shaped(r.heroes@[2].actions@[0], "Rapier"@, 5, 1, 8, 3),
        forall|i: int| 0 <= i < num_kobolds ==> combatant_shaped(
            #[trigger] r.monsters@[i],
            kobold_name(i),
            5,
            12,
            2,
        ),
        forall|i: int| 0 <= i < num_kobolds ==> (#[trigger] r.monsters@[i]).actions@.len() == 2
            && attack_shaped(r.monsters@[i].actions@[0], "Dagger"@, 4, 1, 4, 2) && attack_shaped(
            r.monsters@[i].actions@[1],
            "Sling"@,
            4,
            1,
            4,
            2,
        ),
        forall|i: int| 0 <= i < r.heroes@.len() ==> (#[trigger] r.heroes@[i]).current_hp > 0,
        forall|i: int| 0 <= i < r.monsters@.len() ==> (#[trigger] r.monsters@[i]).current_hp > 0,
        forall|i: int| 0 <= i < r.heroes@.len() ==> -(i64::MAX - 20) <= (
        #[trigger] r.heroes@[i]).initiative_bonus <= i64::MAX - 20,
        forall|i: int| 0 <= i < r.monsters@.len() ==> -(i64::MAX - 20) <= (
        #[trigger] r.monsters@[i]).initiative_bonus <= i64::MAX - 20,
{
    let mut fighter = Character::new("Fighter", 12, 16, Team::Heroes, 1);
    fighter.add_action(
        Action::Attack {
            name: ("Greatsword").to_owned(),
            hit_bonus: 5,
            damage: simple_pool(2, 6, 3),
        },
    );
    let mut second_wind_cost: Vec<(ResourceType, u64)> = Vec::new();
    second_wind_cost.push((ResourceType::Feature(("Second Wind").to_owned()), 1));
    proof {
        assert(crate::combat::action::required_distinct(second_wind_cost@));
    }
    fighter.add_action(
        Action::SecondWind {
            healing: simple_pool(1, 10, 1),
            required_resources: second_wind_cost,
        },
    );
    fighter.add_resource(ResourceType::Feature(("Second Wind").to_owned()), 1);

    let mut cleric = Character::new("Cleric", 10, 16, Team::Heroes, 0);
    cleric.add_action(
        Action::Attack { name: ("Mace").to_owned(), hit_bonus: 4, damage: simple_pool(1, 6, 2) },
    );
    let healing_cost: Vec<(ResourceType, u64)> = Vec::new();
    proof {
        assert(crate::combat::action::required_distinct(healing_cost@));
    }
    cleric.add_action(
        Action::Heal {
            name: ("Healing Word").to_owned(),
            healing: simple_pool(1, 8, 3),
            required_resources: healing_cost,
        },
    );

    let mut rogue = Character::new("Rogue", 9, 14, Team::Heroes, 3);
    rogue.add_action(
        Action::Attack { name: ("Rapier").to_owned(), hit_bonus: 5, damage: simple_pool(1, 8, 3) },
    );

    let mut heroes: Vec<Character> = Vec::new();
    heroes.push(fighter);
    heroes.push(cleric);
    heroes.push(rogue);

    let mut monsters: Vec<Character> = Vec::new();
    let mut i: usize = 0;
    while i < num_kobolds
        invariant
            i <= num_kobolds,
            monsters@.len() == i,
            chars_wf(monsters@),
            side_teams(monsters@, Team::Monsters),
            forall|p: int| 0 <= p < i ==> combatant_shaped(
                #[trigger] monsters@[p],
                kobold_name(p),
                5,
                12,
                2,
            ),
            forall|p: int| 0 <= p < i ==> (#[trigger] monsters@[p]).actions@.len() == 2
                && attack_shaped(monsters@[p].actions@[0], "Dagger"@, 4, 1, 4, 2) && attack_shaped(
                monsters@[p].actions@[1],
                "Sling"@,
                4,
                1,
                4,
                2,
            ),
        decreases num_kobolds - i,
    {
        let mut name = ("Kobold ").to_owned();
        let number = render_u64((i as u64) + 1);
        name.append(number.as_str());
        proof {
            assert(name@ == kobold_name(i as int));
        }
        let mut kobold = Character::new(name.as_str(), 5, 12, Team::Monsters, 2);
        kobold.add_action(
            Action::Attack {
                name: ("Dagger").to_owned(),
                hit_bonus: 4,
                damage: simple_pool(1, 4, 2),
            },
        );
        kobold.add_action(
            Action::Attack {
                name: ("Sling").to_owned(),
                hit_bonus: 4,
                damage: simple_pool(1, 4, 2),
            },
        );
        monsters.push(kobold);
        i = i + 1;
    }
    let combat = Combat::new(heroes, monsters);
    combat
}

/// The hero levels of the stock first-level encounter, for the difficulty
/// calculators.
pub fn level_one_hero_levels() -> (r: Vec<u64>)
    ensures
        r@ == seq![1u64, 1u64, 1u64],
{
    let mut levels: Vec<u64> = Vec::new();
    levels.push(1);
    levels.push(1);
    levels.push(1);
    proof {
        assert(levels@ =~= seq![1u64, 1u64, 1u64]);
    }
    levels
}

/// The challenge ratings of the stock encounter's monsters, in eighths of a
/// rating: each kobold rates one eighth.
pub fn level_one_monster_crs(num_kobolds: usize) -> (r: Vec<u64>)
    ensures
        r@.len() == num_kobolds,
        forall|i: int| 0 <= i < num_kobolds ==> (#[trigger] r@[i]) == 1,
{
    let mut crs: Vec<u64> = Vec::new();
    let mut i: usize = 0;
    while i < num_kobolds
        invariant
            i <= num_kobolds,
            crs@.len() == i,
            forall|p: int| 0 <= p < i ==> (#[trigger] crs@[p]) == 1,
        decreases num_kobolds - i,
    {
        crs.push(1);
        i = i + 1;
    }
    crs
}

} // verus!
