use kingfisher_bnb::bnb::{OptimizationGoal, ResultCollector};

fn values(c: ResultCollector<u32, i64>) -> Vec<i64> {
    c.into_sorted_vec().into_iter().map(|n| n.value).collect()
}

#[test]
fn collector_keeps_the_k_largest_when_maximizing() {
    let mut c = ResultCollector::new(3, OptimizationGoal::Maximize, i64::MIN);
    for (i, v) in [4i64, 9, -1, 7, 3, 8].iter().enumerate() {
        c.add(i as u32, *v);
    }
    assert_eq!(c.threshold(), 7);
    assert_eq!(values(c), vec![9, 8, 7]);
}

#[test]
fn collector_keeps_the_k_smallest_when_minimizing() {
    let mut c = ResultCollector::new(2, OptimizationGoal::Minimize, i64::MAX);
    for (i, v) in [4i64, 9, -1, 7, 3, 8].iter().enumerate() {
        c.add(i as u32, *v);
    }
    assert_eq!(c.threshold(), 3);
    assert_eq!(values(c), vec![-1, 3]);
}

#[test]
fn threshold_is_the_initial_one_until_full() {
    let mut c = ResultCollector::new(3, OptimizationGoal::Maximize, 0i64);
    assert_eq!(c.threshold(), 0);
    c.add(1, 5);
    c.add(2, 6);
    assert_eq!(c.threshold(), 0);
    c.add(3, 2);
    assert_eq!(c.threshold(), 2);
}

#[test]
fn values_worse_than_the_initial_threshold_are_refused() {
    let mut c = ResultCollector::new(4, OptimizationGoal::Maximize, 5i64);
    c.add(1, 4);
    c.add(2, 5);
    c.add(3, 6);
    assert_eq!(values(c), vec![6, 5]);
    let mut c = ResultCollector::new(4, OptimizationGoal::Minimize, 5i64);
    c.add(1, 4);
    c.add(2, 5);
    c.add(3, 6);
    assert_eq!(values(c), vec![4, 5]);
}

#[test]
fn a_tie_with_the_worst_is_not_taken() {
    let mut c = ResultCollector::new(1, OptimizationGoal::Maximize, i64::MIN);
    c.add(1, 5);
    c.add(2, 5);
    let out = c.into_sorted_vec();
    assert_eq!(out.len(), 1);
    assert_eq!(out[0].state, 1);
}

#[test]
fn threshold_never_gets_worse() {
    let mut c = ResultCollector::new(2, OptimizationGoal::Maximize, 0i64);
    let mut last = c.threshold();
    for v in [3i64, 1, 4, 1, 5, 9, 2, 6].iter() {
        c.add(0, *v);
        let t = c.threshold();
        assert!(t >= last);
        last = t;
    }
    assert_eq!(last, 6);
}
