use crucible_core::combat::ResourceType;
use crucible_core::dice::pool::DicePool;
use crucible_core::roll_dice;
use crucible_core::{Action, ActionResult, Character, Combat, HitResult, Team};

fn create_fighter() -> Character {
    let mut fighter = Character::new("Fighter", 10, 15, Team::Heroes, 0);
    fighter.add_action(Action::Attack {
        name: "Shortsword".into(),
        hit_bonus: 4,
        damage: DicePool::from_str("1d6+2").unwrap(),
    });
    fighter
}

fn create_kobold() -> Character {
    let mut kobold = Character::new("Kobold", 5, 12, Team::Monsters, 0);
    kobold.add_action(Action::Attack {
        name: "Dagger".into(),
        hit_bonus: 2,
        damage: DicePool::from_str("1d4+1").unwrap(),
    });
    kobold
}

#[test]
fn test_single_round() {
    let fighter = create_fighter();
    let kobold = create_kobold();

    let mut combat = Combat::new(vec![fighter], vec![kobold]);
    combat.execute_round();

    // After one round:
    // Both teams should still have participants
    assert!(!combat.heroes.is_empty());
    assert!(!combat.monsters.is_empty());

    // Each participant should have HP between 0 and their starting value
    for hero in combat.heroes {
        assert!(hero.current_hp <= 10);
    }

    for monster in combat.monsters {
        assert!(monster.current_hp <= 5);
    }
}

#[test]
fn test_targeting() {
    let fighter1 = create_fighter();
    let fighter2 = Character::new("Fighter 2", 10, 15, Team::Heroes, 0);
    let kobold1 = create_kobold();
    let kobold2 = Character::new("Kobold 2", 5, 12, Team::Monsters, 0);

    let combat = Combat::new(vec![fighter1, fighter2], vec![kobold1, kobold2]);

    // When a character needs a target, they should only get enemies
    let hero = &combat.heroes[0];
    let valid_targets = combat.valid_targets_for(hero);

    assert_eq!(valid_targets.len(), 2); // Both kobolds
    assert!(valid_targets.iter().all(|t| t.team == Team::Monsters));
}

#[test]
fn test_basic_combat_setup() {
    let pc = create_fighter();
    let kobold = create_kobold();

    let combat = Combat::new(
        vec![pc],     // Team Heroes
        vec![kobold], // Team Monsters
    );

    assert_eq!(combat.heroes.len(), 1);
    assert_eq!(combat.monsters.len(), 1);
}

#[test]
fn test_character_attacks() {
    let fighter = create_fighter();
    assert!(!fighter.actions.is_empty());

    let attack = &fighter.actions[0];
    match attack {
        Action::Attack {
            name, hit_bonus, ..
        } => {
            assert_eq!(name, "Shortsword");
            assert_eq!(hit_bonus, &4);
        }
        _ => assert!(false),
    }

    assert_eq!(fighter.team, Team::Heroes);
}

#[test]
fn test_basic_attack() {
    let mut fighter = create_fighter();
    let mut kobold = create_kobold();

    let action = fighter.actions[0].clone();
    let result = fighter.take_action(&mut kobold, &action); // Use first attack

    match result {
        ActionResult::Attack { hit, damage } => {
            match hit {
                HitResult::Hit => {
                    assert!(damage >= 3 && damage <= 8); // 1d6+2
                    assert!(kobold.current_hp <= 5);
                }
                HitResult::Miss => {
                    assert_eq!(kobold.current_hp, 5);
                }
                HitResult::Critical => {
                    assert!(damage >= 4 && damage <= 14); // 1d6+2
                    assert!(kobold.current_hp <= 5);
                }
            }
        }
        _ => {}
    }
}

#[test]
fn test_attack_guaranteed_hit() {
    let mut pc = Character::new("Fighter", 10, 15, Team::Heroes, 0);
    pc.add_action(Action::Attack {
        name: "Magic Sword".into(),
        hit_bonus: 19,
        damage: DicePool::from_str("1d8+4").unwrap(),
    });
    let mut kobold = create_kobold();

    // Even with a roll of 4 it will hit (4 + 8 >= 12)
    // This should hit unless we roll a natural 1
    let action = pc.actions[0].clone();
    let result = pc.take_action(&mut kobold, &action);

    assert!(matches!(result, ActionResult::Attack { .. }));
    assert!(kobold.current_hp <= 5);
}

#[test]
fn test_attack_guaranteed_miss() {
    let mut pc = create_fighter();
    let mut kobold = Character::new("Kobold", 5, 30, Team::Monsters, 0); // Very high AC

    // Even with a roll of 17 it will miss (17 + 2 < 30)
    let action = pc.actions[0].clone();
    let result = pc.take_action(&mut kobold, &action);

    match result {
        ActionResult::Attack { hit, .. } => {
            match hit {
                HitResult::Hit => assert!(false, "a normal hit is mathematically impossible!"),
                HitResult::Miss => assert_eq!(kobold.current_hp, 5),
                _ => {} // a crit is fine
            }
        }
        _ => assert!(false), // should never get here
    }
}

#[test]
fn test_dice_rolling() {
    // Basic rolls
    let roll1 = roll_dice("1d6");
    assert!(roll1 >= 1 && roll1 <= 6);

    // Multiple dice
    let roll2 = roll_dice("2d20");
    assert!(roll2 >= 2 && roll2 <= 40);

    // With modifier
    let roll3 = roll_dice("1d6 + 4");
    assert!(roll3 >= 5 && roll3 <= 10);

    // Multiple dice types
    let roll4 = roll_dice("2d10 + 3d6");
    assert!(roll4 >= 5 && roll4 <= 38);

    // Negative modifier
    let roll5 = roll_dice("1d4 - 1");
    assert!(roll5 <= 3, "roll was {:?} which is not less than 3", roll5);
}

#[test]
fn busted_ass_shit() {
    // Negative modifier
    let roll5 = roll_dice("1d4 - 1");
    assert!(
        roll5 >= 0 && roll5 <= 3,
        "roll was {:?} which is not less than 3",
        roll5
    );
}

#[test]
fn test_action_validation() {
    // Set up a party: Fighter and Cleric vs two Kobolds
    let fighter = Character::new("Fighter", 10, 15, Team::Heroes, 0).with_actions(vec![
        Action::Attack {
            name: "Shortsword".into(),
            hit_bonus: 4,
            damage: DicePool::from_str("1d6+2").unwrap(),
        },
    ]);

    let cleric = Character::new("Cleric", 8, 14, Team::Heroes, 0).with_actions(vec![
        Action::Attack {
            name: "Mace".into(),
            hit_bonus: 2,
            damage: DicePool::from_str("1d6").unwrap(),
        },
        Action::Heal {
            name: "Cure Wounds".into(),
            healing: DicePool::from_str("1d8+3").unwrap(),
            required_resources: vec![],
        },
    ]);

    let kobold1 = Character::new("Kobold 1", 5, 12, Team::Monsters, 0);
    let kobold2 = Character::new("Kobold 2", 5, 12, Team::Monsters, 0);

    let mut combat = Combat::new(vec![fighter, cleric], vec![kobold1, kobold2]);

    // Test 1: When everyone is at full HP
    {
        let cleric_index = 1; // Cleric is second hero
        let valid_actions = combat.valid_actions_for(Team::Heroes, cleric_index);
        assert_eq!(valid_actions.len(), 1); // Only attack should be valid, no need to heal
        assert!(matches!(valid_actions[0], Action::Attack { .. }));
    }

    // Test 2: When Fighter is damaged
    {
        let fighter_index = 0;
        combat.heroes[fighter_index].current_hp = 5; // Fighter took damage

        let cleric_index = 1;
        let valid_actions = combat.valid_actions_for(Team::Heroes, cleric_index);
        assert_eq!(valid_actions.len(), 2); // Both attack and heal should be valid
        assert!(valid_actions
            .iter()
            .any(|a| matches!(a, Action::Heal { .. })));
    }

    // Test 3: When all enemies are dead
    {
        combat.monsters[0].current_hp = 0;
        combat.monsters[1].current_hp = 0;

        let fighter_index = 0;
        let valid_actions = combat.valid_actions_for(Team::Heroes, fighter_index);
        assert!(valid_actions.is_empty()); // No valid attacks when enemies are dead
    }

    // Test 4: Cleric can still heal even when enemies are dead
    {
        let cleric_index = 1;
        let valid_actions = combat.valid_actions_for(Team::Heroes, cleric_index);
        assert_eq!(valid_actions.len(), 1);
        assert!(matches!(valid_actions[0], Action::Heal { .. }));
    }
}

#[test]
fn test_initiative_order_complete() {
    // every combatant appears exactly once in the rolled order; this would
    // fail if the shuffle dropped or duplicated entries
    let heroes = vec![
        create_fighter(),
        Character::new("Cleric", 8, 14, Team::Heroes, 0),
    ];
    let monsters = vec![create_kobold(), create_kobold()];
    let mut combat = Combat::new(heroes, monsters);
    combat.roll_initiative();
    assert_eq!(combat.initiative_order.len(), 4);
    let mut seen = std::collections::BTreeSet::new();
    for e in &combat.initiative_order {
        let key = (e.team == Team::Heroes, e.index);
        assert!(seen.insert(key), "slot acted twice");
        assert!(e.initiative >= 1 && e.initiative <= 20);
    }
}

#[test]
fn test_heal_is_all_or_nothing() {
    // a heal whose resources are missing spends nothing and heals nothing
    let mut cleric = Character::new("Cleric", 10, 14, Team::Heroes, 0);
    cleric.add_resource(ResourceType::Points("Ki".into()), 1);
    let heal = Action::Heal {
        name: "Big Heal".into(),
        healing: DicePool::from_str("1d8+3").unwrap(),
        required_resources: vec![
            (ResourceType::Points("Ki".into()), 1),
            (ResourceType::SpellSlot(1), 1),
        ],
    };
    let mut ally = Character::new("Ally", 10, 10, Team::Heroes, 0);
    ally.current_hp = 2;
    let result = cleric.take_action(&mut ally, &heal);
    match result {
        ActionResult::Heal { amount } => assert_eq!(amount, 0),
        _ => assert!(false),
    }
    assert_eq!(ally.current_hp, 2);
    // the Ki point was not spent: the spend was all-or-nothing
    assert!(cleric.has_resource(&ResourceType::Points("Ki".into()), 1));
}

#[test]
fn test_heal_caps_at_max() {
    let mut cleric = Character::new("Cleric", 10, 14, Team::Heroes, 0);
    let heal = Action::Heal {
        name: "Cure Wounds".into(),
        healing: DicePool::from_str("1d8+3").unwrap(),
        required_resources: vec![],
    };
    let mut ally = Character::new("Ally", 10, 10, Team::Heroes, 0);
    ally.current_hp = 9;
    let result = cleric.take_action(&mut ally, &heal);
    match result {
        ActionResult::Heal { amount } => assert!(amount >= 4 && amount <= 11),
        _ => assert!(false),
    }
    assert_eq!(ally.current_hp, 10);
}
