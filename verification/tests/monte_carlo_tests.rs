use crucible_core::monte_carlo::combat::{combat_monte_carlo_iterator, run_combat_monte_carlo};
use crucible_core::monte_carlo::dice::{dice_monte_carlo_iterator, run_dice_monte_carlo};

#[test]
fn test_victories_partition_iterations() {
    // hero and monster victories together account for every run
    let stats = run_combat_monte_carlo(50, false, 2);
    assert_eq!(stats.hero_victories + stats.monster_victories, 50);
    assert!(stats.decisive_victories <= stats.hero_victories);
    assert_eq!(stats.round_counts.len(), 50);
    assert!(stats.finalized);
    // the victory rates sum to one when no draws are possible
    let hero_perc = stats.hero_victories as f64 / 50.0;
    let monster_perc = stats.monster_victories as f64 / 50.0;
    assert!((hero_perc + monster_perc - 1.0).abs() < 1e-9);
}

#[test]
fn test_combat_iterator_protocol() {
    // the lazy sequence hands out each run index once and then ends
    let mut it = combat_monte_carlo_iterator(5, false, 1);
    for expected in 0..5usize {
        assert_eq!(it.next(), Some(expected));
    }
    assert_eq!(it.next(), None);
    assert!(it.stats.finalized);
    assert_eq!(it.stats.hero_victories + it.stats.monster_victories, 5);
    assert_eq!(it.count(), 5);
}

#[test]
fn test_dice_monte_carlo_tallies() {
    let results = run_dice_monte_carlo(200);
    assert_eq!(results.len(), 6);
    let sides = [4u64, 6, 8, 10, 12, 20];
    for (stat, &s) in results.iter().zip(sides.iter()) {
        assert_eq!(stat.sides, s);
        assert_eq!(stat.counts.len(), s as usize);
        let tallied: usize = stat.counts.iter().sum();
        assert_eq!(tallied, 200);
        assert!(stat.total >= 200);
        assert!(stat.total <= 200 * s);
        // the observed mean sits inside the die's possible range
        let mean = stat.total as f64 / 200.0;
        assert!(mean >= 1.0 && mean <= s as f64);
    }
}

#[test]
fn test_dice_iterator_steps() {
    let mut it = dice_monte_carlo_iterator(3);
    // six die types, three rolls each
    let mut steps = 0;
    while let Some((sides_index, iteration_index)) = it.next() {
        assert!(sides_index < 6);
        assert!(iteration_index < 3);
        steps += 1;
    }
    assert_eq!(steps, 18);
    assert_eq!(it.results.len(), 6);
    assert_eq!(it.count(), 18);
}
