use crucible_core::dnd::mcdm::{MCDMDifficultyCalculator, MCDMDifficultyScale};
use crucible_core::dnd::wizards::{
    WizardDifficulty2014, WizardDifficulty2024, WizardDifficultyCalculator2014,
    WizardDifficultyCalculator2024,
};

#[test]
fn test_mcdm_scale() {
    // three first-level heroes against three one-eighth-rating monsters:
    // total rating 3/8 sits between the standard budget (3/8) and the hard
    // budget (6/8)
    let levels = vec![1u64, 1, 1];
    let crs = vec![1u64, 1, 1];
    let r = MCDMDifficultyCalculator::calculate(&levels, &crs);
    assert_eq!(r, MCDMDifficultyScale::Standard);
    assert_eq!(r.label(), "Standard");

    // nothing to fight is trivial
    let r = MCDMDifficultyCalculator::calculate(&vec![5, 5], &vec![]);
    assert_eq!(r, MCDMDifficultyScale::Trivial);

    // exactly the hard budget is hard: two level-5 heroes have a hard
    // budget of 40 eighths, one rating-5 monster is 40 eighths
    let r = MCDMDifficultyCalculator::calculate(&vec![5, 5], &vec![40]);
    assert_eq!(r, MCDMDifficultyScale::Hard);

    // anything above is extreme
    let r = MCDMDifficultyCalculator::calculate(&vec![5, 5], &vec![48]);
    assert_eq!(r, MCDMDifficultyScale::Extreme);
}

#[test]
fn test_wizards_2014_scale() {
    // three first-level heroes against three one-eighth-rating monsters:
    // 75 experience, doubled for a group of three, meets the medium
    // threshold of 150
    let levels = vec![1u64, 1, 1];
    let crs = vec![1u64, 1, 1];
    let r = WizardDifficultyCalculator2014::calculate(&levels, &crs);
    assert_eq!(r, WizardDifficulty2014::Medium);
    assert_eq!(r.label(), "Medium");

    // one rating-1 monster (200 experience) against one level-1 hero is
    // deadly (threshold 100)
    let r = WizardDifficultyCalculator2014::calculate(&vec![1], &vec![8]);
    assert_eq!(r, WizardDifficulty2014::Deadly);

    // a pair of monsters gets the 1.5 multiplier: two eighth-rating
    // monsters are 50 experience, adjusted to 75, the hard threshold of a
    // level-1 hero
    let r = WizardDifficultyCalculator2014::calculate(&vec![1], &vec![1, 1]);
    assert_eq!(r, WizardDifficulty2014::Hard);
}

#[test]
fn test_wizards_2024_scale() {
    // 75 raw experience against a level-1 party budget of 150 low is low
    let levels = vec![1u64, 1, 1];
    let crs = vec![1u64, 1, 1];
    let r = WizardDifficultyCalculator2024::calculate(&levels, &crs);
    assert_eq!(r, WizardDifficulty2024::Low);
    assert_eq!(r.label(), "Low");

    // one rating-1 monster against one level-1 hero is over the moderate
    // budget of 75
    let r = WizardDifficultyCalculator2024::calculate(&vec![1], &vec![8]);
    assert_eq!(r, WizardDifficulty2024::High);

    // exactly the moderate budget is moderate
    let r = WizardDifficultyCalculator2024::calculate(&vec![1], &vec![2, 1]);
    assert_eq!(r, WizardDifficulty2024::Moderate);
}
