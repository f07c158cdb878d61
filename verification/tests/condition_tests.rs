use crucible_core::combat::{Condition, ConditionType, Duration, ResourceType};
use crucible_core::dice::pool::DicePool;
use crucible_core::{Action, Character, Team};

#[test]
fn test_basic_conditions() {
    let mut fighter = Character::new("Fighter", 10, 15, Team::Heroes, 1);

    fighter.add_condition(Condition::poisoned(Duration::Rounds(3)));

    // Test duration tracking
    assert!(fighter.has_condition(ConditionType::Poisoned));
    fighter.end_turn(); // Round 1
    assert!(fighter.has_condition(ConditionType::Poisoned));
    fighter.end_turn(); // Round 2
    fighter.end_turn(); // Round 3
    assert!(!fighter.has_condition(ConditionType::Poisoned));
}

#[test]
fn test_condition_effects() {
    let mut fighter = Character::new("Fighter", 10, 15, Team::Heroes, 1);
    let attack = Action::Attack {
        name: "Attack".into(),
        hit_bonus: 1,
        damage: DicePool::from_str("1d4").unwrap(),
    };
    fighter.add_action(attack.clone());
    let monster = fighter.clone();
    let monsters = vec![monster];

    // Test disadvantage from being poisoned
    fighter.add_condition(Condition::poisoned(Duration::Rounds(1)));
    assert!(fighter.has_disadvantage_on(&attack));

    // Test being stunned prevents actions
    fighter.add_condition(Condition::stunned(Duration::Rounds(1)));
    assert!(fighter.valid_actions(&vec![], &monsters).is_empty());

    fighter.end_turn();
    assert!(!fighter.valid_actions(&vec![], &monsters).is_empty());
}

#[test]
fn test_action_resource_requirements() {
    let mut fighter = Character::new("Fighter", 10, 15, Team::Heroes, 2);
    let mut ally = Character::new("Ally", 10, 10, Team::Heroes, 0);
    ally.current_hp = 1;
    let allies = vec![ally];

    // Action that requires Second Wind
    let second_wind = Action::Heal {
        name: "Second Wind".into(),
        healing: DicePool::from_str("1d10+1").unwrap(),
        required_resources: vec![(ResourceType::Feature("Second Wind".into()), 1)],
    };

    fighter.add_action(second_wind.clone());
    fighter.add_resource(ResourceType::Feature("Second Wind".into()), 1);

    // Action is valid when resource available
    assert!(second_wind.is_valid(&fighter, &allies, &vec![]));

    // Use the resource
    fighter
        .spend_resource(ResourceType::Feature("Second Wind".into()), 1)
        .unwrap();

    // Action invalid when resource depleted
    assert!(!second_wind.is_valid(&fighter, &allies, &vec![]));
}

#[test]
fn test_condition_duration_queries() {
    let mut c = Condition::stunned(Duration::Rounds(2));
    assert!(c.still_active());
    assert_eq!(c.duration.remaining(), 2);
    c.deprecate_duration();
    assert_eq!(c.duration.remaining(), 1);
    assert!(c.still_active());
    c.deprecate_duration();
    assert_eq!(c.duration.remaining(), 0);
    assert!(!c.still_active());
    // a copy with the duration counted down
    let fresh = Condition::poisoned(Duration::Rounds(3));
    let copied = Condition::copy_deprecate_duration(&fresh);
    assert_eq!(copied.duration.remaining(), 2);
    assert_eq!(copied.condition, ConditionType::Poisoned);
}
