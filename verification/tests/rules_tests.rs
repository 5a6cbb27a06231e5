use kingfisher_bnb::rules::{beats_generalizations, best_measure, compare_measures, compare_rules, compare_seq};
use kingfisher_bnb::{Rule, RuleSet};

fn rule(antecedent: Vec<usize>, consequent: usize, is_negative: bool, measure: f64) -> Rule {
    Rule {
        antecedent,
        consequent,
        is_negative,
        measure_bits: measure.to_bits(),
        frequency_x: 0,
        frequency_xa: 0,
        frequency_a: 0,
    }
}

fn measures(rules: &[Rule]) -> Vec<f64> {
    rules.iter().map(|r| f64::from_bits(r.measure_bits)).collect()
}

#[test]
fn measures_compare_as_floats() {
    let values = [-3.5f64, -0.0, 0.0, 1e-300, 2.0, f64::INFINITY, f64::NEG_INFINITY, -1e300];
    for &a in values.iter() {
        for &b in values.iter() {
            let expected = a.partial_cmp(&b).map(|o| o as i8);
            assert_eq!(compare_measures(a.to_bits(), b.to_bits()), expected, "{} vs {}", a, b);
        }
    }
}

#[test]
fn nan_measures_do_not_compare() {
    assert_eq!(compare_measures(f64::NAN.to_bits(), 1.0f64.to_bits()), None);
    assert_eq!(compare_measures(0.0f64.to_bits(), (-f64::NAN).to_bits()), None);
}

#[test]
fn vectors_compare_lexicographically() {
    assert_eq!(compare_seq(&vec![1, 2], &vec![1, 3]), -1);
    assert_eq!(compare_seq(&vec![1, 2], &vec![1, 2]), 0);
    assert_eq!(compare_seq(&vec![1, 2, 0], &vec![1, 2]), 1);
    assert_eq!(compare_seq(&vec![], &vec![0]), -1);
}

#[test]
fn rules_order_by_measure_sign_antecedent_consequent() {
    let a = rule(vec![1], 2, false, -2.0);
    let b = rule(vec![1], 2, false, -1.0);
    assert_eq!(compare_rules(&a, &b), -1);
    let c = rule(vec![1], 2, true, -2.0);
    assert_eq!(compare_rules(&a, &c), -1);
    let d = rule(vec![0, 5], 2, false, -2.0);
    assert_eq!(compare_rules(&a, &d), 1);
    let e = rule(vec![1], 3, false, -2.0);
    assert_eq!(compare_rules(&a, &e), -1);
    assert_eq!(compare_rules(&a, &a), 0);
}

#[test]
fn rule_set_keeps_the_best() {
    let mut set = RuleSet::new(2, false, 0.0f64.to_bits());
    set.add(rule(vec![0], 1, false, -1.0));
    set.add(rule(vec![0], 2, false, -3.0));
    set.add(rule(vec![1], 2, false, -2.0));
    set.add(rule(vec![2], 3, false, -0.5));
    let out = set.into_sorted_vec();
    assert_eq!(measures(&out), vec![-3.0, -2.0]);
    assert_eq!(out[0].consequent, 2);
    assert_eq!(out[1].antecedent, vec![1]);
}

#[test]
fn rule_set_turns_away_rules_above_the_threshold() {
    let mut set = RuleSet::new(5, true, (-1.0f64).to_bits());
    set.add(rule(vec![0], 1, false, -0.5));
    set.add(rule(vec![0], 2, false, -1.0));
    set.add(rule(vec![0], 3, false, -4.0));
    assert_eq!(f64::from_bits(set.worst_value()), -1.0);
    let out = set.into_sorted_vec();
    assert_eq!(measures(&out), vec![-4.0, -1.0]);
}

#[test]
fn worst_value_of_an_empty_set_is_the_threshold() {
    let set = RuleSet::new(3, true, 0.25f64.to_bits());
    assert_eq!(f64::from_bits(set.worst_value()), 0.25);
}

#[test]
fn rule_set_with_room_for_none() {
    let mut set = RuleSet::new(0, true, 0.0f64.to_bits());
    set.add(rule(vec![0], 1, false, -9.0));
    assert!(set.into_sorted_vec().is_empty());
}

#[test]
fn equal_measures_are_ordered_by_the_rest() {
    let mut set = RuleSet::new(3, true, 0.0f64.to_bits());
    set.add(rule(vec![2], 0, true, -1.0));
    set.add(rule(vec![2], 0, false, -1.0));
    set.add(rule(vec![1], 0, false, -1.0));
    let out = set.into_sorted_vec();
    assert_eq!(out[0].antecedent, vec![1]);
    assert!(!out[1].is_negative);
    assert!(out[2].is_negative);
}

#[test]
fn a_full_set_replaces_only_a_strictly_later_rule() {
    let mut set = RuleSet::new(1, true, 0.0f64.to_bits());
    set.add(rule(vec![1], 0, false, -2.0));
    set.add(rule(vec![3], 0, false, -2.0));
    let out = set.into_sorted_vec();
    assert_eq!(out.len(), 1);
    assert_eq!(out[0].antecedent, vec![1]);
    let mut set = RuleSet::new(1, true, 0.0f64.to_bits());
    set.add(rule(vec![3], 0, false, -2.0));
    set.add(rule(vec![1], 0, false, -2.0));
    assert_eq!(set.into_sorted_vec()[0].antecedent, vec![1]);
}

#[test]
fn improvement_over_generalizations() {
    let b = |x: f64| x.to_bits();
    assert!(beats_generalizations(b(-1.0), &[]));
    assert!(!beats_generalizations(b(0.0), &[]));
    assert!(!beats_generalizations(b(-0.0), &[]));
    assert!(!beats_generalizations(b(0.5), &[]));
    assert!(beats_generalizations(b(-3.0), &[Some(b(-2.0)), None, Some(b(-1.0))]));
    assert!(!beats_generalizations(b(-2.0), &[Some(b(-2.0)), None]));
    assert!(!beats_generalizations(b(-1.5), &[None, Some(b(-2.0))]));
    assert!(beats_generalizations(b(-1.0), &[Some(f64::NAN.to_bits()), Some(b(3.0))]));
    assert!(!beats_generalizations(f64::NAN.to_bits(), &[]));
}

#[test]
fn best_of_the_recorded_measures() {
    let b = |x: f64| x.to_bits();
    assert_eq!(best_measure(&[]), None);
    assert_eq!(best_measure(&[b(-1.0), b(-3.0), b(-2.0)]), Some(b(-3.0)));
    assert_eq!(best_measure(&[b(-0.0), b(0.0)]), Some(b(-0.0)));
    assert_eq!(best_measure(&[b(0.0), b(-0.0)]), Some(b(0.0)));
    assert_eq!(best_measure(&[b(f64::INFINITY)]), None);
    assert_eq!(best_measure(&[f64::NAN.to_bits(), b(2.0)]), Some(b(2.0)));
}
