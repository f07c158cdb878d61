use crucible_core::combat::build_level_one_combat;
use crucible_core::combat::{Condition, ConditionType, Duration};
use crucible_core::dice::pool::DicePool;
use crucible_core::{Action, Character, Combat, Team};

#[test]
fn test_one_die_minus_one_distribution() {
    // "1d4-1" parses to one d4 and a modifier of minus one; ten thousand
    // rolls all land in [0, 3] with a mean near one and a half
    let pool = DicePool::from_str("1d4-1").unwrap();
    assert_eq!(pool.count_dice(4), 1);
    assert_eq!(pool.dice.len(), 1);
    assert_eq!(pool.dice[0].count, 1);
    assert_eq!(pool.dice[0].sides, 4);
    assert_eq!(pool.modifier, -1);
    let mut sum: i64 = 0;
    for _ in 0..10000 {
        let r = pool.roll();
        assert!(r >= 0 && r <= 3);
        sum += r;
    }
    let mean = sum as f64 / 10000.0;
    assert!((mean - 1.5).abs() < 0.15, "mean was {}", mean);
}

#[test]
fn test_fighter_versus_kobold_terminates() {
    // a fighter against a single kobold always ends with at least one
    // roster member at zero hit points
    for _ in 0..20 {
        let mut fighter = Character::new("Fighter", 12, 15, Team::Heroes, 1);
        fighter.add_action(Action::Attack {
            name: "Shortsword".into(),
            hit_bonus: 4,
            damage: DicePool::from_str("1d6+2").unwrap(),
        });
        let mut kobold = Character::new("Kobold", 5, 12, Team::Monsters, 0);
        kobold.add_action(Action::Attack {
            name: "Dagger".into(),
            hit_bonus: 2,
            damage: DicePool::from_str("1d4+1").unwrap(),
        });
        let mut combat = Combat::new(vec![fighter], vec![kobold]);
        combat.roll_initiative();
        let mut rounds = 0;
        while combat.is_ongoing() && rounds < 10000 {
            combat.execute_round();
            rounds += 1;
        }
        assert!(!combat.is_ongoing(), "combat did not conclude");
        let somebody_down = combat.heroes[0].current_hp == 0 || combat.monsters[0].current_hp == 0;
        assert!(somebody_down);
        if combat.heroes_won() {
            assert!(combat.heroes[0].current_hp > 0);
            assert_eq!(combat.monsters[0].current_hp, 0);
        }
    }
}

#[test]
fn test_stock_encounter_terminates() {
    // with a damage-dealing action on every member of both sides, the
    // encounter concludes within a bounded number of rounds
    for _ in 0..5 {
        let mut combat = build_level_one_combat(2);
        combat.roll_initiative();
        let mut rounds = 0;
        while combat.is_ongoing() && rounds < 10000 {
            combat.execute_round();
            rounds += 1;
        }
        assert!(!combat.is_ongoing(), "encounter did not conclude");
    }
}

#[test]
fn test_stock_encounter_shape() {
    let combat = build_level_one_combat(6);
    assert_eq!(combat.heroes.len(), 3);
    assert_eq!(combat.monsters.len(), 6);
    assert_eq!(combat.round, 1);
    assert_eq!(combat.heroes[0].name, "Fighter");
    assert_eq!(combat.heroes[1].name, "Cleric");
    assert_eq!(combat.heroes[2].name, "Rogue");
    assert_eq!(combat.monsters[0].name, "Kobold 1");
    assert_eq!(combat.monsters[5].name, "Kobold 6");
    assert_eq!(combat.heroes[0].max_hp, 12);
    assert_eq!(combat.monsters[0].max_hp, 5);
    assert!(combat.is_ongoing());
    assert!(!combat.heroes_won());
}

#[test]
fn test_debug_log_records_rounds() {
    let mut combat = build_level_one_combat(2);
    combat.debug(true);
    combat.roll_initiative();
    let mut rounds = 0;
    while combat.is_ongoing() && rounds < 10000 {
        combat.execute_round();
        rounds += 1;
    }
    // with logging on, some action of the fight was recorded, and every
    // entry carries a round the fight actually reached
    assert!(!combat.debug_log.is_empty());
    for entry in &combat.debug_log {
        assert!(entry.round >= 1 && entry.round < combat.round);
        assert_eq!(entry.snapshot_heroes.len(), 3);
        assert_eq!(entry.snapshot_monsters.len(), 2);
    }
}

#[test]
fn test_ties_go_to_monsters() {
    // when every hero is down the heroes have not won, even if the
    // monsters are down too
    let mut fighter = Character::new("Fighter", 10, 15, Team::Heroes, 0);
    fighter.current_hp = 0;
    let mut kobold = Character::new("Kobold", 5, 12, Team::Monsters, 0);
    kobold.current_hp = 0;
    let combat = Combat::new(vec![fighter], vec![kobold]);
    assert!(!combat.is_ongoing());
    assert!(!combat.heroes_won());
}

#[test]
fn test_round_decays_conditions() {
    // a combatant whose turn comes up sees its conditions lose one round
    // at the end of the round, and expire on time
    let mut fighter = Character::new("Fighter", 100, 15, Team::Heroes, 0);
    fighter.add_action(Action::Attack {
        name: "Shortsword".into(),
        hit_bonus: 4,
        damage: DicePool::from_str("1d6+2").unwrap(),
    });
    fighter.add_condition(Condition::poisoned(Duration::Rounds(2)));
    let mut kobold = Character::new("Kobold", 1, 12, Team::Monsters, 0);
    kobold.add_action(Action::Attack {
        name: "Dagger".into(),
        hit_bonus: 2,
        damage: DicePool::from_str("1d4").unwrap(),
    });
    let mut combat = Combat::new(vec![fighter], vec![kobold]);
    combat.roll_initiative();
    assert!(combat.heroes[0].has_condition(ConditionType::Poisoned));
    combat.execute_round();
    // the fighter acted, so the poison lost one of its two rounds
    assert!(combat.last_acted.iter().any(|e| e.team == Team::Heroes));
    assert!(combat.heroes[0].has_condition(ConditionType::Poisoned));
    combat.execute_round();
    assert!(!combat.heroes[0].has_condition(ConditionType::Poisoned));
}

#[test]
fn test_knockouts_recorded() {
    // a combatant brought to zero leaves an entry in the knockout log
    let mut fighter = Character::new("Fighter", 100, 15, Team::Heroes, 0);
    fighter.add_action(Action::Attack {
        name: "Greatsword".into(),
        hit_bonus: 30,
        damage: DicePool::from_str("2d6+10").unwrap(),
    });
    let kobold = Character::new("Kobold", 1, 12, Team::Monsters, 0);
    let mut combat = Combat::new(vec![fighter], vec![kobold]);
    combat.roll_initiative();
    let mut rounds = 0;
    while combat.is_ongoing() && rounds < 1000 {
        combat.execute_round();
        rounds += 1;
    }
    assert!(combat.heroes_won());
    assert_eq!(combat.monsters[0].current_hp, 0);
    assert!(combat
        .knockouts
        .iter()
        .any(|e| e.team == Team::Monsters && e.index == 0));
    assert!(!combat.knockouts.iter().any(|e| e.team == Team::Heroes));
}
