use autoclaw::ImportanceTier;

#[test]
fn test_default_is_minor() {
    assert_eq!(ImportanceTier::default(), ImportanceTier::Minor);
}

#[test]
fn tier_ranks_follow_importance() {
    assert!(ImportanceTier::Critical.rank() > ImportanceTier::Significant.rank());
    assert!(ImportanceTier::Significant.rank() > ImportanceTier::Minor.rank());
}
