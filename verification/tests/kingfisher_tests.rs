use kingfisher_bnb::bnb::SearchState;
use kingfisher_bnb::kingfisher::sort_ascending;
use kingfisher_bnb::{BitMatrix, KingfisherProblem, KingfisherState, RuleCandidate};

/// Ten rows: attribute 0 in rows 0-4, attribute 1 in rows 0-2, attribute 2 in row 0.
fn matrix() -> BitMatrix {
    let mut rows: Vec<Vec<usize>> = vec![vec![0, 1, 2], vec![0, 1], vec![0, 1], vec![0], vec![0]];
    for _ in 5..10 {
        rows.push(Vec::new());
    }
    BitMatrix::from_rows(rows, 3)
}

fn problem(min_fr: usize, t_type: u8) -> KingfisherProblem {
    KingfisherProblem::new(matrix(), 3, min_fr, t_type, 1, None, None, None, None, None)
}

fn paths(states: &[KingfisherState]) -> Vec<Vec<usize>> {
    states.iter().map(|s| s.path.clone()).collect()
}

fn state(p: &KingfisherProblem, path: Vec<usize>) -> KingfisherState {
    let freq = p.matrix.frequency(&path);
    KingfisherState { path, freq }
}

#[test]
fn roots_are_the_frequent_attributes() {
    let p = problem(4, 1);
    let roots = p.root_states();
    assert_eq!(paths(&roots), vec![vec![0]]);
    assert_eq!(roots[0].freq, 5);
    let p = problem(1, 1);
    let roots = p.root_states();
    assert_eq!(paths(&roots), vec![vec![0], vec![1], vec![2]]);
    let freqs: Vec<usize> = roots.iter().map(|s| s.freq).collect();
    assert_eq!(freqs, vec![5, 3, 1]);
}

#[test]
fn min_fr_leaves_nothing_to_branch_to() {
    let p = problem(4, 1);
    let root = state(&p, vec![0]);
    assert!(p.branch(&root).is_empty());
}

#[test]
fn excluded_attributes_are_never_visited() {
    let p = KingfisherProblem::new(matrix(), 3, 1, 1, 1, None, None, Some(vec![1]), None, None);
    assert_eq!(paths(&p.root_states()), vec![vec![0], vec![2]]);
    let root = state(&p, vec![0]);
    assert_eq!(paths(&p.branch(&root)), vec![vec![0, 2]]);
}

#[test]
fn branch_extends_with_later_attributes() {
    let p = problem(1, 1);
    let root = state(&p, vec![0]);
    let kids = p.branch(&root);
    assert_eq!(paths(&kids), vec![vec![0, 1], vec![0, 2]]);
    assert_eq!(kids[0].freq, 3);
    assert_eq!(kids[1].freq, 1);
    let deeper = p.branch(&kids[0]);
    assert_eq!(paths(&deeper), vec![vec![0, 1, 2]]);
    assert_eq!(deeper[0].freq, 1);
    assert!(p.branch(&deeper[0]).is_empty());
}

#[test]
fn branch_stops_at_l_max() {
    let p = KingfisherProblem::new(matrix(), 1, 1, 1, 1, None, None, None, None, None);
    let root = state(&p, vec![0]);
    assert!(p.branch(&root).is_empty());
}

#[test]
fn one_consequent_only_attribute_per_path() {
    let p = KingfisherProblem::new(matrix(), 3, 1, 1, 1, None, None, None, None, Some(vec![1, 2]));
    let s1 = state(&p, vec![1]);
    assert!(p.branch(&s1).is_empty());
    let s0 = state(&p, vec![0]);
    assert_eq!(paths(&p.branch(&s0)), vec![vec![0, 1], vec![0, 2]]);
    let s01 = state(&p, vec![0, 1]);
    assert!(p.branch(&s01).is_empty());
}

#[test]
fn candidates_of_a_pair() {
    let p = problem(1, 3);
    let s = state(&p, vec![0, 1]);
    let c = p.rule_candidates(&s);
    assert_eq!(c.len(), 2);
    assert_eq!(c[0].consequent, 0);
    assert_eq!(c[0].antecedent, vec![1]);
    assert_eq!(
        (c[0].frequency_x, c[0].frequency_xa, c[0].frequency_a, c[0].frequency_x_not_a, c[0].frequency_not_a),
        (3, 3, 5, 0, 5)
    );
    assert_eq!(c[1].consequent, 1);
    assert_eq!(c[1].antecedent, vec![0]);
    assert_eq!(
        (c[1].frequency_x, c[1].frequency_xa, c[1].frequency_a, c[1].frequency_x_not_a, c[1].frequency_not_a),
        (5, 3, 3, 2, 7)
    );
}

#[test]
fn a_single_attribute_yields_no_rule() {
    let p = problem(1, 3);
    let s = state(&p, vec![2]);
    assert!(p.rule_candidates(&s).is_empty());
}

#[test]
fn consequent_filters() {
    let m = matrix;
    let s = KingfisherState { path: vec![0, 1], freq: 3 };
    let req = KingfisherProblem::new(m(), 3, 1, 1, 1, Some(vec![1]), None, None, None, None);
    let c: Vec<usize> = req.rule_candidates(&s).iter().map(|r| r.consequent).collect();
    assert_eq!(c, vec![1]);
    let excl = KingfisherProblem::new(m(), 3, 1, 1, 1, None, Some(vec![1]), None, None, None);
    let c: Vec<usize> = excl.rule_candidates(&s).iter().map(|r| r.consequent).collect();
    assert_eq!(c, vec![0]);
    let only = KingfisherProblem::new(m(), 3, 1, 1, 1, None, None, None, None, Some(vec![1]));
    let c: Vec<usize> = only.rule_candidates(&s).iter().map(|r| r.consequent).collect();
    assert_eq!(c, vec![1]);
    let constrained = KingfisherProblem::new(m(), 3, 1, 1, 1, None, None, None, Some(vec![(1, 0)]), None);
    let c: Vec<usize> = constrained.rule_candidates(&s).iter().map(|r| r.consequent).collect();
    assert_eq!(c, vec![1]);
    assert!(constrained.is_constrained(&[2, 1], 0));
    assert!(!constrained.is_constrained(&[0], 1));
}

#[test]
fn generalizations_drop_one_antecedent_attribute() {
    let c = RuleCandidate {
        antecedent: vec![3, 1, 2],
        consequent: 0,
        frequency_x: 0,
        frequency_xa: 0,
        frequency_a: 0,
        frequency_x_not_a: 0,
        frequency_not_a: 0,
    };
    assert_eq!(c.generalizations(), vec![vec![0, 1, 2], vec![0, 2, 3], vec![0, 1, 3]]);
}

#[test]
fn margins_follow_the_rule_types() {
    let s = KingfisherState { path: vec![0], freq: 5 };
    assert_eq!(problem(1, 1).bound_margins(&s), vec![3, 1]);
    assert_eq!(problem(1, 2).bound_margins(&s), vec![7, 9]);
    assert_eq!(problem(1, 3).bound_margins(&s), vec![3, 7, 1, 9]);
    let s = KingfisherState { path: vec![0, 1, 2], freq: 1 };
    assert!(problem(1, 3).bound_margins(&s).is_empty());
}

#[test]
fn sorting_indices() {
    assert_eq!(sort_ascending(vec![3, 1, 2, 1]), vec![1, 1, 2, 3]);
    assert_eq!(sort_ascending(Vec::new()), Vec::<usize>::new());
}

#[test]
fn candidate_rules_by_polarity() {
    let p = problem(1, 3);
    let s = state(&p, vec![0, 1]);
    let c = p.rule_candidates(&s);
    let pos = c[1].to_rule(false, 7);
    assert_eq!(pos.antecedent, vec![0]);
    assert_eq!(pos.consequent, 1);
    assert!(!pos.is_negative);
    assert_eq!(pos.measure_bits, 7);
    assert_eq!((pos.frequency_x, pos.frequency_xa, pos.frequency_a), (5, 3, 3));
    let neg = c[1].to_rule(true, 9);
    assert!(neg.is_negative);
    assert_eq!((neg.frequency_x, neg.frequency_xa, neg.frequency_a), (5, 2, 7));
}

#[test]
fn state_key_and_depth() {
    let s = KingfisherState { path: vec![0, 2, 5], freq: 1 };
    assert_eq!(s.key(), vec![0, 2, 5]);
    assert_eq!(s.depth(), 3);
}

#[test]
fn polarities_follow_the_rule_type() {
    assert_eq!(problem(1, 1).polarities(), vec![false]);
    assert_eq!(problem(1, 2).polarities(), vec![true]);
    assert_eq!(problem(1, 3).polarities(), vec![false, true]);
    assert!(problem(1, 7).polarities().is_empty());
}

#[test]
fn branch_at_the_depth_limit_needs_no_valid_path() {
    let p = KingfisherProblem::new(matrix(), 1, 1, 1, 1, None, None, None, None, None);
    let s = KingfisherState { path: vec![99], freq: 0 };
    assert!(p.branch(&s).is_empty());
}

#[test]
fn candidates_of_a_state_with_a_larger_frequency() {
    let p = problem(1, 1);
    let s = KingfisherState { path: vec![0, 1], freq: 9 };
    let c = p.rule_candidates(&s);
    assert_eq!(c.len(), 2);
    assert_eq!((c[0].frequency_x, c[0].frequency_xa, c[0].frequency_x_not_a), (3, 9, 0));
    assert_eq!((c[1].frequency_x, c[1].frequency_xa, c[1].frequency_x_not_a), (5, 9, 0));
}
