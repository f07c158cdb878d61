use crucible_core::dice::pool::DicePool;
use crucible_core::roll_dice;

#[test]
fn test_basic_dice_pool() {
    let pool = DicePool::new().add_dice(1, 6).add_modifier(2);

    let result = pool.roll();
    assert!(result >= 3 && result <= 8); // 1d6 + 2

    let pool = DicePool::from_str("1d4-1").unwrap();
    assert_eq!(pool.modifier, -1);
    assert_eq!(pool.to_string(), "1d4-1");
    let result = pool.roll();
    assert!(result >= 0 && result <= 3); // 1d4 - 1
}

#[test]
fn test_dice_string_spacing() {
    // Various space patterns in basic expressions
    let pool = DicePool::from_str("1d4-1").unwrap();
    assert_eq!(pool.to_string(), "1d4-1");
    assert_eq!(pool.count_dice(4), 1);
    assert_eq!(pool.modifier, -1);

    let pool = DicePool::from_str("1d4 -1").unwrap();
    assert_eq!(pool.to_string(), "1d4-1");
    assert_eq!(pool.count_dice(4), 1);
    assert_eq!(pool.modifier, -1);

    let pool = DicePool::from_str("1d4- 1").unwrap();
    assert_eq!(pool.to_string(), "1d4-1");
    assert_eq!(pool.count_dice(4), 1);
    assert_eq!(pool.modifier, -1);

    let pool = DicePool::from_str("1d4 - 1").unwrap();
    assert_eq!(pool.to_string(), "1d4-1");
    assert_eq!(pool.count_dice(4), 1);
    assert_eq!(pool.modifier, -1);

    // Spacing in more complex expressions
    let pool = DicePool::from_str("2d6 + 1d4 - 3").unwrap();
    assert_eq!(pool.to_string(), "2d6+1d4-3");
    assert_eq!(pool.count_dice(6), 2);
    assert_eq!(pool.count_dice(4), 1);
    assert_eq!(pool.modifier, -3);

    // Extreme spacing
    let pool = DicePool::from_str("   1d4    -    1   ").unwrap();
    assert_eq!(pool.to_string(), "1d4-1");
    assert_eq!(pool.count_dice(4), 1);
    assert_eq!(pool.modifier, -1);

    // No spaces
    let pool = DicePool::from_str("1d4+2d6-3+1").unwrap();
    assert_eq!(pool.to_string(), "2d6+1d4-2");
    assert_eq!(pool.count_dice(4), 1);
    assert_eq!(pool.count_dice(6), 2);
    assert_eq!(pool.modifier, -2);
}

#[test]
fn test_multiple_dice_types() {
    let pool = DicePool::new().add_dice(2, 6).add_dice(1, 4).add_modifier(3);

    let result = pool.roll();
    assert!(result >= 6 && result <= 19); // (2d6 + 1d4 + 3)
}

#[test]
fn add_the_same_type_of_dice() {
    let pool = DicePool::new().add_dice(2, 6).add_dice(1, 6);

    assert_eq!(pool.to_string(), "3d6");
    let result = pool.roll();
    assert!(result >= 3 && result <= 18); // (3d6)
}

#[test]
fn test_critical_hit() {
    let base_pool = DicePool::new().add_dice(2, 6).add_modifier(4);

    // On a crit, the dice double but the modifier does not
    let crit_pool = base_pool.critical_hit();

    // Normal roll should be 2d6+4 (6-16)
    let normal_result = base_pool.roll();
    assert!(normal_result >= 6 && normal_result <= 16);

    // Crit roll should be 4d6+4 (8-28)
    let crit_result = crit_pool.roll();
    assert!(crit_result >= 8 && crit_result <= 28);
}

#[test]
fn test_parse_dice_string() {
    let pool = DicePool::from_str("2d6+1d4+3").unwrap();

    assert_eq!(pool.count_dice(6), 2); // Should have 2 d6
    assert_eq!(pool.count_dice(4), 1); // Should have 1 d4
    assert_eq!(pool.modifier, 3); // Should have +3 modifier

    let pool = DicePool::from_str("2d6-1d4-3").unwrap();
    assert_eq!(pool.count_dice(6), 2); // Should have 2 d6
    assert_eq!(pool.count_dice(4), 1); // Should have 1 d4
    assert_eq!(pool.modifier, -3); // Should have -3 modifier
    assert_eq!(pool.to_string(), "2d6-1d4-3");

    let result = pool.roll();
    assert!(result >= -5 && result <= 8); // (2d6-1d4-3)
}

#[test]
fn test_dice_string_output() {
    let pool = DicePool::new().add_dice(2, 6).add_dice(1, 4).add_modifier(3);

    assert_eq!(pool.to_string(), "2d6+1d4+3");
}

#[test]
fn test_advantage_roll_selection() {
    let pool = DicePool::new().add_dice(1, 20).add_modifier(-2).with_advantage();

    let (result, roll_result) = pool.roll_detailed();

    // Even with a negative modifier, the higher roll is kept
    let selected_roll = roll_result.rolls.iter().map(|r| r.roll).max().unwrap();
    assert_eq!(result, selected_roll - 2);

    // The modifier was not applied before choosing the roll
    assert!(roll_result.rolls.iter().all(|r| r.roll >= 1 && r.roll <= 20));
}

#[test]
fn test_disadvantage_roll_selection() {
    let pool = DicePool::new().add_dice(1, 20).add_modifier(10).with_disadvantage();

    let (result, roll_result) = pool.roll_detailed();

    // Even with a high modifier, the lower roll is kept
    let selected_roll = roll_result.rolls.iter().map(|r| r.roll).min().unwrap();
    assert_eq!(result, selected_roll + 10);

    assert!(roll_result.rolls.iter().all(|r| r.roll >= 1 && r.roll <= 20));
}

#[test]
fn test_parse_error_on_missing_sides() {
    // a term with `d` but no readable side count is rejected
    assert!(DicePool::from_str("1d").is_err());
    assert!(DicePool::from_str("d").is_err());
    assert!(DicePool::from_str("2d6+1dx").is_err());
    assert_eq!(DicePool::from_str("1d").unwrap_err(), "Invalid dice format");
}

#[test]
fn test_parse_quirks() {
    // a count that cannot be read defaults to one
    let pool = DicePool::from_str("d6").unwrap();
    assert_eq!(pool.count_dice(6), 1);
    // a bare term that is not a number is ignored
    let pool = DicePool::from_str("1d6+x").unwrap();
    assert_eq!(pool.count_dice(6), 1);
    assert_eq!(pool.modifier, 0);
    // the empty expression is the empty pool
    let pool = DicePool::from_str("").unwrap();
    assert_eq!(pool.modifier, 0);
    assert_eq!(pool.roll(), 0);
}

#[test]
fn test_format_parse_idempotent() {
    // formatting a parsed pool and parsing it again is stable
    let samples = vec![
        "1d4-1",
        "2d6 + 1d4 - 3",
        "   12d8 +4 - 2d10  ",
        "3+4-1d6",
        "2d6-1d6+1d6",
        "d20+5",
        "7",
        "-3",
        "",
    ];
    for s in samples {
        let once = DicePool::from_str(s).unwrap().to_string();
        let twice = DicePool::from_str(&once).unwrap().to_string();
        assert_eq!(once, twice, "canonical form of {:?} not stable", s);
    }
}

#[test]
fn test_canonical_order() {
    // groups come out by descending sides, positive before negative
    let pool = DicePool::from_str("1d4+2d20-1d20+3d6").unwrap();
    assert_eq!(pool.to_string(), "2d20-1d20+3d6+1d4");
}

#[test]
fn test_roll_variability() {
    // many d20 rolls show more than one face, so rolls really draw
    // from the random source rather than returning a constant
    let pool = DicePool::new().add_dice(1, 20);
    let mut seen = std::collections::BTreeSet::new();
    for _ in 0..300 {
        let r = pool.roll();
        assert!(r >= 1 && r <= 20);
        seen.insert(r);
    }
    assert!(seen.len() > 1);
}

#[test]
fn test_roll_dice_bounds() {
    for _ in 0..200 {
        let r = roll_dice("2d10 + 3d6");
        assert!(r >= 5 && r <= 38);
    }
}
