use crucible_core::combat::actor::Resources;
use crucible_core::combat::ResourceType;

#[test]
fn test_spell_slot_spending() {
    let mut resources = Resources::new();

    // Level 1 slots
    resources.add_max(ResourceType::SpellSlot(1), 4);
    assert_eq!(resources.get(&ResourceType::SpellSlot(1)), 4);

    resources.spend(ResourceType::SpellSlot(1), 1).unwrap();
    assert_eq!(resources.get(&ResourceType::SpellSlot(1)), 3);

    // Can't overspend
    assert!(resources.spend(ResourceType::SpellSlot(1), 4).is_err());
}

#[test]
fn test_feature_usage() {
    let mut resources = Resources::new();
    resources.add_max(ResourceType::Feature("Second Wind".into()), 1);

    resources
        .spend(ResourceType::Feature("Second Wind".into()), 1)
        .unwrap();
    assert_eq!(
        resources.get(&ResourceType::Feature("Second Wind".into())),
        0
    );

    // Can't use when depleted
    assert!(resources
        .spend(ResourceType::Feature("Second Wind".into()), 1)
        .is_err());
}

#[test]
fn test_point_pools() {
    let mut resources = Resources::new();
    resources.add_max(ResourceType::Points("Ki".into()), 5);

    // Partial spending
    resources
        .spend(ResourceType::Points("Ki".into()), 2)
        .unwrap();
    assert_eq!(resources.get(&ResourceType::Points("Ki".into())), 3);

    // Recovery up to max
    resources._recover(ResourceType::Points("Ki".into()), 1);
    assert_eq!(resources.get(&ResourceType::Points("Ki".into())), 4);

    // Can't recover beyond max
    resources._recover(ResourceType::Points("Ki".into()), 2);
    assert_eq!(resources.get(&ResourceType::Points("Ki".into())), 5);
}

#[test]
fn test_failed_spend_leaves_balance() {
    // a failed spend is atomic: the balance is exactly what it was
    let mut resources = Resources::new();
    resources.add_max(ResourceType::Points("Ki".into()), 3);
    assert!(resources.spend(ResourceType::Points("Ki".into()), 4).is_err());
    assert_eq!(resources.get(&ResourceType::Points("Ki".into())), 3);
    // spending from a kind never registered fails and changes nothing
    assert!(resources.spend(ResourceType::SpellSlot(2), 0).is_err());
    assert_eq!(resources.get(&ResourceType::SpellSlot(2)), 0);
}

#[test]
fn test_unregistered_kind_reports_zero() {
    let mut resources = Resources::new();
    assert_eq!(resources.get(&ResourceType::Feature("Rage".into())), 0);
    // recovering into a kind never registered is a no-op
    resources._recover(ResourceType::Feature("Rage".into()), 2);
    assert_eq!(resources.get(&ResourceType::Feature("Rage".into())), 0);
}

#[test]
fn test_add_max_keeps_existing() {
    // registering a kind twice keeps the first registration
    let mut resources = Resources::new();
    resources.add_max(ResourceType::SpellSlot(1), 4);
    resources.spend(ResourceType::SpellSlot(1), 2).unwrap();
    resources.add_max(ResourceType::SpellSlot(1), 9);
    assert_eq!(resources.get(&ResourceType::SpellSlot(1)), 2);
}
