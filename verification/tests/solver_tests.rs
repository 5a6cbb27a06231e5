use kingfisher_bnb::bnb::solvers::{BestFirstSolver, BfsSolver, DfsSolver};
use kingfisher_bnb::bnb::{OptimizationGoal, ResultNode, SearchProblem, SearchState};

/// A set of items, as ascending indices, with the sum of their weights.
#[derive(Clone, Debug, PartialEq)]
struct Subset {
    items: Vec<usize>,
    sum: i64,
}

impl SearchState for Subset {
    type Key = Vec<usize>;
    fn key(&self) -> Vec<usize> {
        self.items.clone()
    }
    fn depth(&self) -> usize {
        self.items.len()
    }
}

/// Subsets of weighted items; the value of a subset is its total weight.
struct Knapsack {
    weights: Vec<i64>,
    goal: OptimizationGoal,
}

impl Knapsack {
    fn child(&self, s: &Subset, i: usize) -> Subset {
        let mut items = s.items.clone();
        items.push(i);
        Subset { items, sum: s.sum + self.weights[i] }
    }
}

impl SearchProblem<Subset, i64> for Knapsack {
    fn root_states(&self) -> Vec<Subset> {
        (0..self.weights.len()).map(|i| Subset { items: vec![i], sum: self.weights[i] }).collect()
    }
    fn branch(&self, state: &Subset) -> Vec<Subset> {
        let last = *state.items.last().unwrap();
        (last + 1..self.weights.len()).map(|i| self.child(state, i)).collect()
    }
    fn evaluate(&self, state: &Subset) -> Option<i64> {
        Some(state.sum)
    }
    fn bound(&self, state: &Subset) -> i64 {
        let last = *state.items.last().unwrap();
        let rest = &self.weights[last + 1..];
        match self.goal {
            OptimizationGoal::Maximize => state.sum + rest.iter().filter(|w| **w > 0).sum::<i64>(),
            OptimizationGoal::Minimize => state.sum + rest.iter().filter(|w| **w < 0).sum::<i64>(),
        }
    }
    fn goal(&self) -> OptimizationGoal {
        self.goal
    }
}

fn values(r: &[ResultNode<Subset, i64>]) -> Vec<i64> {
    r.iter().map(|n| n.value).collect()
}

fn knapsack(goal: OptimizationGoal) -> Knapsack {
    Knapsack { weights: vec![5, -2, 3, 4], goal }
}

#[test]
fn best_first_finds_the_top_k() {
    let p = knapsack(OptimizationGoal::Maximize);
    let r = BestFirstSolver::search(&p, 3, i64::MIN);
    assert_eq!(values(&r), vec![12, 10, 9]);
    assert_eq!(r[0].state.items, vec![0, 2, 3]);
}

#[test]
fn dfs_finds_the_top_k() {
    let p = knapsack(OptimizationGoal::Maximize);
    let r = DfsSolver::search(&p, 3, i64::MIN);
    assert_eq!(values(&r), vec![12, 10, 9]);
}

#[test]
fn solvers_minimize() {
    let p = knapsack(OptimizationGoal::Minimize);
    let a = BestFirstSolver::search(&p, 2, i64::MAX);
    let b = DfsSolver::search(&p, 2, i64::MAX);
    assert_eq!(values(&a), vec![-2, 1]);
    assert_eq!(values(&b), vec![-2, 1]);
}

#[test]
fn solvers_respect_the_initial_threshold() {
    let p = knapsack(OptimizationGoal::Maximize);
    let a = BestFirstSolver::search(&p, 10, 9);
    let b = DfsSolver::search(&p, 10, 9);
    assert_eq!(values(&a), vec![12, 10, 9]);
    assert_eq!(values(&b), vec![12, 10, 9]);
}

#[test]
fn solvers_return_at_most_k() {
    let p = knapsack(OptimizationGoal::Maximize);
    let r = BestFirstSolver::search(&p, 1, i64::MIN);
    assert_eq!(values(&r), vec![12]);
    let all = DfsSolver::search(&p, 100, i64::MIN);
    assert_eq!(all.len(), 15);
    for w in all.windows(2) {
        assert!(w[0].value >= w[1].value);
    }
}

#[test]
fn bfs_expansion_keeps_children_within_the_threshold() {
    let p = knapsack(OptimizationGoal::Maximize);
    let root = Subset { items: vec![0], sum: 5 };
    let all = BfsSolver::expand(&p, &root, i64::MIN);
    let kids: Vec<Vec<usize>> = all.iter().map(|(s, _)| s.items.clone()).collect();
    assert_eq!(kids, vec![vec![0, 1], vec![0, 2], vec![0, 3]]);
    assert_eq!(all[1].1, Some(8));
    // Bounds: [0, 1] at 3 + 3 + 4 = 10, [0, 2] at 12, [0, 3] at 9.
    let some = BfsSolver::expand(&p, &root, 11);
    let kids: Vec<Vec<usize>> = some.iter().map(|(s, _)| s.items.clone()).collect();
    assert_eq!(kids, vec![vec![0, 2]]);
    let more = BfsSolver::expand(&p, &root, 10);
    let kids: Vec<Vec<usize>> = more.iter().map(|(s, _)| s.items.clone()).collect();
    assert_eq!(kids, vec![vec![0, 1], vec![0, 2]]);
    assert!(BfsSolver::expand(&p, &root, 13).is_empty());
}

/// A tree in which state 3 stands twice: 0 -> 1 -> 3 and 0 -> 2 -> 3.
struct Diamond;

#[derive(Clone, Debug, PartialEq)]
struct Spot(u32);

impl SearchState for Spot {
    type Key = u32;
    fn key(&self) -> u32 {
        self.0
    }
    fn depth(&self) -> usize {
        match self.0 {
            0 => 0,
            1 | 2 => 1,
            _ => 2,
        }
    }
}

impl SearchProblem<Spot, i64> for Diamond {
    fn root_states(&self) -> Vec<Spot> {
        vec![Spot(0)]
    }
    fn branch(&self, state: &Spot) -> Vec<Spot> {
        match state.0 {
            0 => vec![Spot(1), Spot(2)],
            1 | 2 => vec![Spot(3)],
            _ => vec![],
        }
    }
    fn evaluate(&self, state: &Spot) -> Option<i64> {
        Some([1, 2, 3, 10][state.0 as usize])
    }
    fn bound(&self, state: &Spot) -> i64 {
        let _ = state;
        10
    }
    fn goal(&self) -> OptimizationGoal {
        OptimizationGoal::Maximize
    }
}

#[test]
fn a_state_standing_twice_counts_twice() {
    let a = BestFirstSolver::search(&Diamond, 3, i64::MIN);
    let b = DfsSolver::search(&Diamond, 3, i64::MIN);
    assert_eq!(values_of(&a), vec![10, 10, 3]);
    assert_eq!(values_of(&b), vec![10, 10, 3]);
}

#[test]
fn no_roots_and_no_room() {
    struct Empty;
    impl SearchProblem<Spot, i64> for Empty {
        fn root_states(&self) -> Vec<Spot> {
            Vec::new()
        }
        fn branch(&self, _state: &Spot) -> Vec<Spot> {
            Vec::new()
        }
        fn evaluate(&self, _state: &Spot) -> Option<i64> {
            None
        }
        fn bound(&self, _state: &Spot) -> i64 {
            0
        }
        fn goal(&self) -> OptimizationGoal {
            OptimizationGoal::Minimize
        }
    }
    assert!(BestFirstSolver::search(&Empty, 0, 0).is_empty());
    assert!(DfsSolver::search(&Empty, 0, 0).is_empty());
}

fn values_of(r: &[ResultNode<Spot, i64>]) -> Vec<i64> {
    r.iter().map(|n| n.value).collect()
}

#[test]
fn depth_first_and_best_first_agree() {
    for goal in [OptimizationGoal::Maximize, OptimizationGoal::Minimize].iter() {
        let p = knapsack(*goal);
        let start = match goal {
            OptimizationGoal::Maximize => i64::MIN,
            OptimizationGoal::Minimize => i64::MAX,
        };
        for k in 1..17 {
            let a = BestFirstSolver::search(&p, k, start);
            let b = DfsSolver::search(&p, k, start);
            assert_eq!(values(&a), values(&b), "k = {}", k);
        }
    }
    for k in 1..6 {
        assert_eq!(values_of(&BestFirstSolver::search(&Diamond, k, i64::MIN)), values_of(&DfsSolver::search(&Diamond, k, i64::MIN)));
    }
}
