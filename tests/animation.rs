use spaceinsight::animation::AnimationTier;

#[test]
fn test_animation_tier_thresholds() {
    assert_eq!(AnimationTier::from_item_count(50), AnimationTier::Full);
    assert_eq!(AnimationTier::from_item_count(299), AnimationTier::Full);
    assert_eq!(AnimationTier::from_item_count(300), AnimationTier::Full);
    assert_eq!(AnimationTier::from_item_count(301), AnimationTier::Degraded);
    assert_eq!(AnimationTier::from_item_count(1000), AnimationTier::Degraded);
    assert_eq!(AnimationTier::from_item_count(1001), AnimationTier::Skip);
}
