use crowdsim::SteeringStrategy;

#[test]
fn strategy_names() {
    assert_eq!(SteeringStrategy::Basic.name(), "Basic");
    assert_eq!(SteeringStrategy::Orca.name(), "ORCA");
    assert_eq!(SteeringStrategy::Ttc.name(), "TTC");
}

#[test]
fn strategies_compare_by_variant() {
    assert!(SteeringStrategy::Basic == SteeringStrategy::Basic);
    assert!(SteeringStrategy::Orca != SteeringStrategy::Ttc);
}
