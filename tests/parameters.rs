use rust_nlpa::weight_function::Regime;
use std::cmp::Ordering;
use rust_nlpa::parameters::{check_options, ConfigError, SamplingAlgorithm};
use std::str::FromStr;

#[test]
fn algorithm_names_parse() {
    assert_eq!(SamplingAlgorithm::from_str("dyn"), Ok(SamplingAlgorithm::DynWeightIndex));
    assert_eq!(SamplingAlgorithm::from_str("polypa"), Ok(SamplingAlgorithm::PolyPA));
    assert_eq!(
        SamplingAlgorithm::from_str("polypa-prefetch"),
        Ok(SamplingAlgorithm::PolyPAPrefetch)
    );
    assert_eq!(
        SamplingAlgorithm::from_str("par-polypa"),
        Ok(SamplingAlgorithm::ParallelPolyPa)
    );
}

#[test]
fn algorithm_names_ignore_case() {
    assert_eq!(SamplingAlgorithm::parse("DYN"), Ok(SamplingAlgorithm::DynWeightIndex));
    assert_eq!(SamplingAlgorithm::parse("Par-PolyPA"), Ok(SamplingAlgorithm::ParallelPolyPa));
}

#[test]
fn unknown_algorithm_is_reported() {
    assert_eq!(
        SamplingAlgorithm::parse("Fast"),
        Err("Unknown algorithm type: Fast".to_string())
    );
}

#[test]
fn lowercase_names_select() {
    assert_eq!(SamplingAlgorithm::from_lowercase("polypa"), Some(SamplingAlgorithm::PolyPA));
    assert_eq!(SamplingAlgorithm::from_lowercase("POLYPA"), None);
    assert_eq!(SamplingAlgorithm::from_lowercase(""), None);
}

#[test]
fn seed_nodes_default_to_ten_per_host() {
    assert_eq!(check_options(3, None, None), Ok(30));
    assert_eq!(check_options(2, Some(4), Some(8)), Ok(4));
}

#[test]
fn bad_node_counts_are_refused() {
    assert_eq!(check_options(0, Some(10), None), Err(ConfigError::InitialDegreeZero));
    assert_eq!(check_options(4, Some(2), None), Err(ConfigError::TooFewSeedNodes));
    assert_eq!(check_options(1, Some(11), None), Err(ConfigError::OddSeedNodes));
    assert_eq!(check_options(1, Some(10), Some(0)), Err(ConfigError::NoThreads));
}

#[test]
fn regime_follows_the_comparison_with_one() {
    assert_eq!(Regime::from_ordering(0.5f64.partial_cmp(&1.0).unwrap()), Regime::Sublinear);
    assert_eq!(Regime::from_ordering(1.0f64.partial_cmp(&1.0).unwrap()), Regime::Linear);
    assert_eq!(Regime::from_ordering(Ordering::Greater), Regime::Superlinear);
}
