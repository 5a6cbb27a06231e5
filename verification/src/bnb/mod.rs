//! Generic branch-and-bound core: the objective order, the top-K result
//! collector and the problem interface that the solvers drive.
pub mod solvers;

use vstd::multiset::Multiset;
use vstd::prelude::*;

verus! {

/// Defines whether we are maximizing or minimizing the objective.
#[derive(Debug, Clone, Copy, PartialEq, Eq, Structural)]
pub enum OptimizationGoal {
    Maximize,
    Minimize,
}

/// A value that can be compared for optimization purposes.
///
/// Values are ordered by their `rank`, an integer: a value with a smaller rank
/// is a smaller value. The integer types define it. Its default body is
/// `arbitrary()`, one fixed value for all values, which `is_below` cannot meet;
/// it is there for values (such as floating-point ones) that are ordered
/// outside Verus, and no guarantee that rests on the order covers them.
pub trait ObjectiveValue: Copy + Sized {
    /// Where the value stands in the order of values.
    closed spec fn rank(&self) -> int {
        arbitrary()
    }

    /// Whether `self` is strictly smaller than `other`.
    fn is_below(&self, other: &Self) -> (r: bool)
        ensures
            r == (self.rank() < other.rank()),
    ;
}

impl ObjectiveValue for i32 {
    open spec fn rank(&self) -> int {
        *self as int
    }

    fn is_below(&self, other: &Self) -> (r: bool) {
        *self < *other
    }
}

impl ObjectiveValue for i64 {
    open spec fn rank(&self) -> int {
        *self as int
    }

    fn is_below(&self, other: &Self) -> (r: bool) {
        *self < *other
    }
}

impl ObjectiveValue for u32 {
    open spec fn rank(&self) -> int {
        *self as int
    }

    fn is_below(&self, other: &Self) -> (r: bool) {
        *self < *other
    }
}

impl ObjectiveValue for u64 {
    open spec fn rank(&self) -> int {
        *self as int
    }

    fn is_below(&self, other: &Self) -> (r: bool) {
        *self < *other
    }
}

impl ObjectiveValue for usize {
    open spec fn rank(&self) -> int {
        *self as int
    }

    fn is_below(&self, other: &Self) -> (r: bool) {
        *self < *other
    }
}


/// How good a value is for a goal: the larger, the better.
pub open spec fn score<V: ObjectiveValue>(goal: OptimizationGoal, v: V) -> int {
    match goal {
        OptimizationGoal::Maximize => v.rank(),
        OptimizationGoal::Minimize => -v.rank(),
    }
}

/// Law: `i32` objectives are ordered as numbers: maximizing prefers the
/// larger value and minimizing the smaller one.
pub proof fn lemma_i32_order(a: i32, b: i32)
    ensures
        score(OptimizationGoal::Maximize, a) < score(OptimizationGoal::Maximize, b) <==> a < b,
        score(OptimizationGoal::Minimize, a) < score(OptimizationGoal::Minimize, b) <==> b < a,
{
}

/// Law: `i64` objectives are ordered as numbers: maximizing prefers the
/// larger value and minimizing the smaller one.
pub proof fn lemma_i64_order(a: i64, b: i64)
    ensures
        score(OptimizationGoal::Maximize, a) < score(OptimizationGoal::Maximize, b) <==> a < b,
        score(OptimizationGoal::Minimize, a) < score(OptimizationGoal::Minimize, b) <==> b < a,
{
}

/// Law: `u32` objectives are ordered as numbers: maximizing prefers the
/// larger value and minimizing the smaller one.
pub proof fn lemma_u32_order(a: u32, b: u32)
    ensures
        score(OptimizationGoal::Maximize, a) < score(OptimizationGoal::Maximize, b) <==> a < b,
        score(OptimizationGoal::Minimize, a) < score(OptimizationGoal::Minimize, b) <==> b < a,
{
}

/// Law: `u64` objectives are ordered as numbers: maximizing prefers the
/// larger value and minimizing the smaller one.
pub proof fn lemma_u64_order(a: u64, b: u64)
    ensures
        score(OptimizationGoal::Maximize, a) < score(OptimizationGoal::Maximize, b) <==> a < b,
        score(OptimizationGoal::Minimize, a) < score(OptimizationGoal::Minimize, b) <==> b < a,
{
}

/// Law: `usize` objectives are ordered as numbers: maximizing prefers the
/// larger value and minimizing the smaller one.
pub proof fn lemma_usize_order(a: usize, b: usize)
    ensures
        score(OptimizationGoal::Maximize, a) < score(OptimizationGoal::Maximize, b) <==> a < b,
        score(OptimizationGoal::Minimize, a) < score(OptimizationGoal::Minimize, b) <==> b < a,
{
}

/// Whether `a` is strictly worse than `b` for `goal`.
pub fn worse_than<V: ObjectiveValue>(goal: OptimizationGoal, a: V, b: V) -> (r: bool)
    ensures
        r == (score(goal, a) < score(goal, b)),
{
    match goal {
        OptimizationGoal::Maximize => a.is_below(&b),
        OptimizationGoal::Minimize => b.is_below(&a),
    }
}

/// Represents a node in the search tree.
pub trait SearchState: Sized + Clone {
    type Key: core::hash::Hash + Eq + Clone;

    /// Unique identifier for this state (to avoid cycles or redundant searches).
    fn key(&self) -> Self::Key;

    /// Current depth in the search tree.
    fn depth(&self) -> usize;
}

/// A found solution with its evaluated value.
#[derive(Debug, Clone)]
pub struct ResultNode<S, V> {
    pub state: S,
    pub value: V,
}

/// Whether a value is admitted at all: it must not be worse than the initial threshold.
pub open spec fn admitted<V: ObjectiveValue>(goal: OptimizationGoal, initial: V, v: V) -> bool {
    score(goal, v) >= score(goal, initial)
}

/// `kept` is a choice of the `k` best results of `pool`: it is drawn from the
/// pool, it holds `min(k, |pool|)` results, and nothing left out of it is
/// better than anything in it.
pub open spec fn is_top_k<S, V: ObjectiveValue>(
    goal: OptimizationGoal,
    k: nat,
    kept: Multiset<ResultNode<S, V>>,
    pool: Multiset<ResultNode<S, V>>,
) -> bool {
    &&& kept.subset_of(pool)
    &&& kept.len() == if pool.len() < k { pool.len() } else { k }
    &&& forall|u: ResultNode<S, V>, x: ResultNode<S, V>|
        #![trigger pool.count(u), kept.count(x)]
        pool.count(u) > kept.count(u) && kept.count(x) > 0 ==> score(goal, u.value) <= score(
            goal,
            x.value,
        )
}

/// Index of a result with the lowest score (the worst one) in a non-empty sequence.
pub open spec fn is_worst_index<S, V: ObjectiveValue>(
    goal: OptimizationGoal,
    s: Seq<ResultNode<S, V>>,
    i: int,
) -> bool {
    &&& 0 <= i < s.len()
    &&& forall|j: int| 0 <= j < s.len() ==> score(goal, s[i].value) <= #[trigger] score(goal, s[j].value)
}

/// Manages the top-K results and provides the pruning threshold.
pub struct ResultCollector<S, V> {
    results: Vec<ResultNode<S, V>>,
    k: usize,
    goal: OptimizationGoal,
    initial_threshold: V,
    /// Every admitted result offered so far.
    pool: Ghost<Multiset<ResultNode<S, V>>>,
    /// The admitted results that were offered and are not kept.
    dropped: Ghost<Multiset<ResultNode<S, V>>>,
}

impl<S, V: ObjectiveValue> ResultCollector<S, V> {
    /// The results currently kept, in no particular order.
    pub closed spec fn entries(&self) -> Seq<ResultNode<S, V>> {
        self.results@
    }

    /// Every admitted result offered since the collector was made.
    pub closed spec fn pool(&self) -> Multiset<ResultNode<S, V>> {
        self.pool@
    }

    /// The number of results kept at most, `k`.
    pub closed spec fn capacity(&self) -> nat {
        self.k as nat
    }

    /// The optimization goal.
    pub closed spec fn spec_goal(&self) -> OptimizationGoal {
        self.goal
    }

    /// The initial threshold.
    pub closed spec fn initial(&self) -> V {
        self.initial_threshold
    }

    /// The collector's invariant: every admitted offer is kept or dropped, at most
    /// `k` are kept, nothing is dropped while there is room, nothing dropped is
    /// better than anything kept, and everything kept or dropped was admitted.
    pub closed spec fn wf(&self) -> bool {
        &&& self.pool@ =~= self.results@.to_multiset().add(self.dropped@)
        &&& self.results@.len() <= self.k
        &&& self.results@.len() < self.k ==> self.dropped@.len() == 0
        &&& forall|u: ResultNode<S, V>, x: ResultNode<S, V>|
            #![trigger self.dropped@.count(u), self.results@.to_multiset().count(x)]
            self.dropped@.count(u) > 0 && self.results@.to_multiset().count(x) > 0 ==> score(
                self.goal,
                u.value,
            ) <= score(self.goal, x.value)
        &&& forall|i: int|
            0 <= i < self.results@.len() ==> admitted(
                self.goal,
                self.initial_threshold,
                #[trigger] self.results@[i].value,
            )
        &&& forall|u: ResultNode<S, V>|
            #[trigger] self.dropped@.count(u) > 0 ==> admitted(self.goal, self.initial_threshold, u.value)
    }

    /// The pruning threshold: the initial threshold while fewer than `k`
    /// results are kept, else the value of the worst kept result.
    pub open spec fn spec_threshold(&self) -> V {
        if self.entries().len() < self.capacity() {
            self.initial()
        } else {
            self.entries()[choose|i: int| is_worst_index(self.spec_goal(), self.entries(), i)].value
        }
    }

    /// An empty collector.
    pub fn new(k: usize, goal: OptimizationGoal, initial_threshold: V) -> (c: Self)
        ensures
            c.wf(),
            c.entries() == Seq::<ResultNode<S, V>>::empty(),
            c.pool() == Multiset::<ResultNode<S, V>>::empty(),
            c.capacity() == k,
            c.spec_goal() == goal,
            c.initial() == initial_threshold,
    {
        let c = ResultCollector {
            results: Vec::new(),
            k,
            goal,
            initial_threshold,
            pool: Ghost(Multiset::empty()),
            dropped: Ghost(Multiset::empty()),
        };
        proof {
            broadcast use vstd::seq_lib::group_to_multiset_ensures;
            assert(c.results@.to_multiset() =~= Multiset::empty());
        }
        c
    }

    /// The score of the pruning threshold: that of the initial threshold while
    /// fewer than `k` results are kept, else that of the worst kept result.
    pub open spec fn threshold_score(&self) -> int {
        if self.entries().len() < self.capacity() {
            score(self.spec_goal(), self.initial())
        } else {
            score(
                self.spec_goal(),
                self.entries()[choose|i: int| is_worst_index(self.spec_goal(), self.entries(), i)].value,
            )
        }
    }

    /// Offers a result. An admitted result is kept while fewer than `k` are
    /// kept; after that it takes the place of a worst kept result if it is
    /// strictly better than it, and is dropped otherwise.
    pub fn add(&mut self, state: S, value: V)
        requires
            old(self).wf(),
            old(self).capacity() > 0 || !admitted(old(self).spec_goal(), old(self).initial(), value),
        ensures
            final(self).wf(),
            final(self).capacity() == old(self).capacity(),
            final(self).spec_goal() == old(self).spec_goal(),
            final(self).initial() == old(self).initial(),
            final(self).pool() == if admitted(old(self).spec_goal(), old(self).initial(), value) {
                old(self).pool().insert(ResultNode { state, value })
            } else {
                old(self).pool()
            },
            !admitted(old(self).spec_goal(), old(self).initial(), value) ==> final(self).entries()
                == old(self).entries(),
            admitted(old(self).spec_goal(), old(self).initial(), value) && old(self).entries().len()
                < old(self).capacity() ==> final(self).entries() == old(self).entries().push(
                ResultNode { state, value },
            ),
            admitted(old(self).spec_goal(), old(self).initial(), value) && old(self).entries().len()
                >= old(self).capacity() ==> if score(old(self).spec_goal(), value)
                > old(self).threshold_score() {
                exists|i: int|
                    is_worst_index(old(self).spec_goal(), old(self).entries(), i)
                        && final(self).entries() == old(self).entries().remove(i).push(
                        ResultNode { state, value },
                    )
            } else {
                final(self).entries() == old(self).entries()
            },
            final(self).threshold_score() >= old(self).threshold_score(),
            old(self).grows_to(*final(self)),
            final(self).covers(ResultNode { state, value }),
    {
        broadcast use vstd::seq_lib::group_to_multiset_ensures;
        broadcast use vstd::multiset::group_multiset_axioms;

        let is_valid = !worse_than(self.goal, value, self.initial_threshold);
        if !is_valid {
            return;
        }
        let ghost node = ResultNode { state, value };
        let ghost old_results = self.results@;
        let ghost old_dropped = self.dropped@;
        proof {
            if old_results.len() > 0 {
                lemma_worst_exists(self.goal, old_results);
            }
        }
        if self.results.len() < self.k {
            self.results.push(ResultNode { state, value });
            proof {
                self.pool@ = self.pool@.insert(node);
                assert(self.results@.to_multiset() =~= old_results.to_multiset().insert(node));
                assert(self.pool@ =~= self.results@.to_multiset().add(self.dropped@));
                if self.results@.len() >= self.k {
                    lemma_worst_exists(self.goal, self.results@);
                    let wi = choose|i: int| is_worst_index(self.goal, self.results@, i);
                    assert(admitted(self.goal, self.initial_threshold, self.results@[wi].value));
                }
            }
        } else {
            let w = worst_index(self.goal, &self.results);
            let worst_value = self.results[w].value;
            let is_better = worse_than(self.goal, worst_value, value);
            proof {
                let wi = choose|i: int| is_worst_index(self.goal, old_results, i);
                assert(score(self.goal, old_results[wi].value) == score(self.goal, worst_value));
            }
            if is_better {
                let removed = self.results.remove(w);
                self.results.push(ResultNode { state, value });
                proof {
                    self.pool@ = self.pool@.insert(node);
                    self.dropped@ = self.dropped@.insert(removed);
                    let old_ms = old_results.to_multiset();
                    assert(old_ms.count(removed) > 0);
                    assert(old_results.remove(w as int).to_multiset() =~= old_ms.remove(removed));
                    let new_ms = self.results@.to_multiset();
                    assert(new_ms =~= old_ms.remove(removed).insert(node));
                    assert(self.pool@ =~= new_ms.add(self.dropped@));
                    assert forall|u: ResultNode<S, V>, x: ResultNode<S, V>|
                        #![trigger self.dropped@.count(u), new_ms.count(x)]
                        self.dropped@.count(u) > 0 && new_ms.count(x) > 0 implies score(
                            self.goal,
                            u.value,
                        ) <= score(self.goal, x.value) by {
                        if x != node {
                            assert(old_ms.count(x) > 0);
                            assert(old_results.contains(x));
                            let xi = choose|j: int| 0 <= j < old_results.len() && old_results[j] == x;
                            assert(score(self.goal, removed.value) <= score(self.goal, old_results[xi].value));
                        }
                        if u != removed {
                            assert(old_dropped.count(u) > 0);
                            assert(score(self.goal, u.value) <= score(self.goal, removed.value));
                        }
                    }
                    assert forall|i: int| 0 <= i < self.results@.len() implies admitted(
                        self.goal,
                        self.initial_threshold,
                        #[trigger] self.results@[i].value,
                    ) by {
                        if i < self.results@.len() - 1 {
                            if i < w {
                                assert(self.results@[i] == old_results[i]);
                            } else {
                                assert(self.results@[i] == old_results[i + 1]);
                            }
                        }
                    }
                    lemma_worst_exists(self.goal, self.results@);
                    let ni = choose|i: int| is_worst_index(self.goal, self.results@, i);
                    if ni < self.results@.len() - 1 {
                        if ni < w {
                            assert(self.results@[ni] == old_results[ni]);
                        } else {
                            assert(self.results@[ni] == old_results[ni + 1]);
                        }
                    }
                }
            } else {
                proof {
                    self.pool@ = self.pool@.insert(node);
                    self.dropped@ = self.dropped@.insert(node);
                    let old_ms = old_results.to_multiset();
                    assert(self.pool@ =~= old_ms.add(self.dropped@));
                    assert forall|u: ResultNode<S, V>, x: ResultNode<S, V>|
                        #![trigger self.dropped@.count(u), old_ms.count(x)]
                        self.dropped@.count(u) > 0 && old_ms.count(x) > 0 implies score(
                            self.goal,
                            u.value,
                        ) <= score(self.goal, x.value) by {
                        assert(old_results.contains(x));
                        let xi = choose|j: int| 0 <= j < old_results.len() && old_results[j] == x;
                        if u != node {
                            assert(old_dropped.count(u) > 0);
                        } else {
                            assert(score(self.goal, old_results[w as int].value) <= score(self.goal, old_results[xi].value));
                        }
                    }
                }
            }
        }
    }

    /// The kept results, best first.
    pub fn into_sorted_vec(self) -> (r: Vec<ResultNode<S, V>>)
        requires
            self.wf(),
        ensures
            r@.to_multiset() == self.entries().to_multiset(),
            is_sorted_best_first(self.spec_goal(), r@),
    {
        sort_best_first(self.goal, self.results)
    }

    /// Returns the current pruning threshold (the worst value in Top-K).
    pub fn threshold(&self) -> (t: V)
        requires
            self.wf(),
            self.capacity() > 0,
        ensures
            self.entries().len() < self.capacity() ==> t == self.initial(),
            self.entries().len() >= self.capacity() ==> exists|i: int|
                is_worst_index(self.spec_goal(), self.entries(), i) && t == self.entries()[i].value,
            score(self.spec_goal(), t) == self.threshold_score(),
    {
        if self.results.len() < self.k {
            self.initial_threshold
        } else {
            let w = worst_index(self.goal, &self.results);
            proof {
                lemma_worst_exists(self.goal, self.results@);
            }
            self.results[w].value
        }
    }
}

/// Results ordered from the best to the worst.
pub open spec fn is_sorted_best_first<S, V: ObjectiveValue>(
    goal: OptimizationGoal,
    s: Seq<ResultNode<S, V>>,
) -> bool {
    forall|i: int, j: int|
        0 <= i < j < s.len() ==> score(goal, #[trigger] s[i].value) >= score(goal, #[trigger] s[j].value)
}

/// Law: the kept results are a choice of the `k` best of all admitted results
/// ever offered to the collector, and every one of those was admitted.
pub proof fn lemma_collector_keeps_top_k<S, V: ObjectiveValue>(c: &ResultCollector<S, V>)
    requires
        c.wf(),
    ensures
        is_top_k(c.spec_goal(), c.capacity(), c.entries().to_multiset(), c.pool()),
        forall|u: ResultNode<S, V>|
            #[trigger] c.pool().count(u) > 0 ==> admitted(c.spec_goal(), c.initial(), u.value),
{
    broadcast use vstd::seq_lib::group_to_multiset_ensures;
    broadcast use vstd::multiset::group_multiset_axioms;

    let ms = c.results@.to_multiset();
    assert(c.pool().len() == ms.len() + c.dropped@.len());
    assert forall|u: ResultNode<S, V>| #[trigger] c.pool().count(u) > 0 implies admitted(
        c.spec_goal(),
        c.initial(),
        u.value,
    ) by {
        if ms.count(u) > 0 {
            assert(c.results@.contains(u));
        }
    }
}

/// Any arrangement of the kept results holds at most `k` results, each admitted.
pub proof fn lemma_kept_results_bounded<S, V: ObjectiveValue>(
    c: &ResultCollector<S, V>,
    r: Seq<ResultNode<S, V>>,
)
    requires
        c.wf(),
        r.to_multiset() == c.entries().to_multiset(),
    ensures
        r.len() <= c.capacity(),
        forall|i: int| 0 <= i < r.len() ==> admitted(c.spec_goal(), c.initial(), #[trigger] r[i].value),
{
    broadcast use vstd::seq_lib::group_to_multiset_ensures;

    lemma_collector_keeps_top_k(c);
    assert forall|i: int| 0 <= i < r.len() implies admitted(
        c.spec_goal(),
        c.initial(),
        #[trigger] r[i].value,
    ) by {
        assert(r.contains(r[i]));
        assert(c.entries().to_multiset().count(r[i]) > 0);
        assert(c.pool().count(r[i]) > 0);
    }
}

/// Sorts results from the best to the worst.
fn sort_best_first<S, V: ObjectiveValue>(goal: OptimizationGoal, v: Vec<ResultNode<S, V>>) -> (r: Vec<
    ResultNode<S, V>,
>)
    ensures
        r@.to_multiset() == v@.to_multiset(),
        is_sorted_best_first(goal, r@),
{
    broadcast use vstd::seq_lib::group_to_multiset_ensures;
    broadcast use vstd::multiset::group_multiset_axioms;

    let mut rest = v;
    let mut out: Vec<ResultNode<S, V>> = Vec::new();
    while rest.len() > 0
        invariant
            out@.to_multiset().add(rest@.to_multiset()) =~= v@.to_multiset(),
            is_sorted_best_first(goal, out@),
            forall|i: int, j: int|
                0 <= i < out@.len() && 0 <= j < rest@.len() ==> score(goal, #[trigger] out@[i].value)
                    >= score(goal, #[trigger] rest@[j].value),
        decreases rest.len(),
    {
        let b = best_index(goal, &rest);
        let ghost old_rest = rest@;
        let ghost old_out = out@;
        let node = rest.remove(b);
        out.push(node);
        proof {
            assert(node == old_rest[b as int]);
            assert(old_rest.contains(node));
            old_rest.to_multiset_ensures();
            assert(old_rest.to_multiset().count(node) > 0);
            assert(old_rest.remove(b as int).to_multiset() =~= old_rest.to_multiset().remove(node));
            old_out.to_multiset_ensures();
            assert(out@ == old_out.push(node));
            assert(out@.to_multiset() =~= old_out.to_multiset().insert(node));
            assert(out@.to_multiset().add(rest@.to_multiset()) =~= v@.to_multiset());
            assert forall|i: int, j: int| 0 <= i < out@.len() && 0 <= j < rest@.len() implies score(
                goal,
                #[trigger] out@[i].value,
            ) >= score(goal, #[trigger] rest@[j].value) by {
                if j < b {
                    assert(rest@[j] == old_rest[j]);
                } else {
                    assert(rest@[j] == old_rest[j + 1]);
                }
                if i < old_out.len() {
                    assert(out@[i] == old_out[i]);
                }
            }
            assert forall|i: int, j: int| 0 <= i < j < out@.len() implies score(
                goal,
                #[trigger] out@[i].value,
            ) >= score(goal, #[trigger] out@[j].value) by {
                assert(out@[i] == old_out[i]);
                if j < old_out.len() {
                    assert(out@[j] == old_out[j]);
                }
            }
        }
    }
    proof {
        assert(rest@.to_multiset() =~= Multiset::empty());
        assert(out@.to_multiset() =~= v@.to_multiset());
    }
    out
}

/// Index of a best result of a non-empty vector.
fn best_index<S, V: ObjectiveValue>(goal: OptimizationGoal, v: &Vec<ResultNode<S, V>>) -> (i: usize)
    requires
        v.len() > 0,
    ensures
        0 <= i < v.len(),
        forall|j: int| 0 <= j < v.len() ==> score(goal, v@[i as int].value) >= #[trigger] score(goal, v@[j].value),
{
    let mut b: usize = 0;
    let mut j: usize = 1;
    while j < v.len()
        invariant
            0 <= b < v.len(),
            1 <= j <= v.len(),
            forall|m: int| 0 <= m < j ==> score(goal, v@[b as int].value) >= #[trigger] score(goal, v@[m].value),
        decreases v.len() - j,
    {
        if worse_than(goal, v[b].value, v[j].value) {
            b = j;
        }
        j += 1;
    }
    b
}

/// Defines the problem logic.
///
/// `subtree_size` is a measure of the work left below a state; every call to
/// `branch` hands out children whose measures add up to less than that of
/// their parent, so that every search ends.
///
/// The spec functions describe an implementation to the verifier. An
/// implementation checked by Verus defines them. Their default bodies are
/// `arbitrary()`: one fixed value that nothing describes, the same for every
/// state. An implementation outside Verus keeps them, and its methods cannot
/// meet the contracts below with them (its `branch` would have to give every
/// state the same children, with measures adding up to less than a
/// constant); so no guarantee of the solvers that rests on these contracts
/// covers such an implementation.
pub trait SearchProblem<S: SearchState, V: ObjectiveValue> {
    /// A bound on the number of states that can be explored from `state`.
    closed spec fn subtree_size(&self, state: S) -> nat {
        arbitrary()
    }

    /// The goal that `goal` reports.
    closed spec fn spec_goal(&self) -> OptimizationGoal {
        arbitrary()
    }

    /// The children that `branch` hands out for a state.
    closed spec fn spec_children(&self, state: S) -> Seq<S> {
        arbitrary()
    }

    /// The bound that `bound` gives a state.
    closed spec fn spec_bound(&self, state: S) -> V {
        arbitrary()
    }

    /// The states that `root_states` hands out.
    closed spec fn spec_roots(&self) -> Seq<S> {
        arbitrary()
    }

    /// Whether `evaluate` answers for each state with `spec_value` of it,
    /// whatever was evaluated before.
    closed spec fn evaluates_purely(&self) -> bool {
        arbitrary()
    }

    /// The value of a state, where `evaluate` answers by it.
    closed spec fn spec_value(&self, state: S) -> Option<V> {
        arbitrary()
    }

    /// Initial states to start the search.
    fn root_states(&self) -> (roots: Vec<S>)
        ensures
            roots@ == self.spec_roots(),
    ;

    /// Generate descendants of a state.
    fn branch(&self, state: &S) -> (children: Vec<S>)
        ensures
            children@ == self.spec_children(*state),
            sum_nat(children@.map_values(|c: S| self.subtree_size(c))) < self.subtree_size(*state),
    ;

    /// Calculate the objective value of a state.
    /// Returns None if the state is not a valid solution.
    fn evaluate(&self, state: &S) -> (r: Option<V>)
        ensures
            self.evaluates_purely() ==> r == self.spec_value(*state),
    ;

    /// Calculate the optimistic bound for descendants.
    fn bound(&self, state: &S) -> (b: V)
        ensures
            b == self.spec_bound(*state),
    ;

    /// Optional: Perform pruning on children before they are even created or
    /// evaluated. It may only take children away, and only children whose
    /// bound is worse than `threshold`.
    fn prune_children(&self, state: &S, children: &mut Vec<S>, threshold: V)
        ensures
            final(children)@.to_multiset().subset_of(old(children)@.to_multiset()),
            forall|c: S|
                #[trigger] final(children)@.to_multiset().count(c) < old(children)@.to_multiset().count(c)
                    ==> score(self.spec_goal(), self.spec_bound(c)) < score(self.spec_goal(), threshold),
    {
    }

    /// Optimization goal (Minimize/Maximize).
    fn goal(&self) -> (g: OptimizationGoal)
        ensures
            g == self.spec_goal(),
    ;

    /// Whether the current bound is worse than the target (pruning logic).
    fn is_worse(&self, bound: V, target: V) -> (r: bool)
        ensures
            r == (score(self.spec_goal(), bound) < score(self.spec_goal(), target)),
    {
        worse_than(self.goal(), bound, target)
    }
}

/// The sum of a sequence of natural numbers.
pub open spec fn sum_nat(s: Seq<nat>) -> nat
    decreases s.len(),
{
    if s.len() == 0 {
        0
    } else {
        sum_nat(s.drop_last()) + s.last()
    }
}

/// The subtree measures of a sequence of states.
pub open spec fn sizes<S: SearchState, V: ObjectiveValue, P: SearchProblem<S, V> + ?Sized>(
    p: &P,
    s: Seq<S>,
) -> Seq<nat> {
    s.map_values(|x: S| p.subtree_size(x))
}

/// The sum of the subtree measures of a sequence of states.
pub open spec fn total_size<S: SearchState, V: ObjectiveValue, P: SearchProblem<S, V> + ?Sized>(
    p: &P,
    s: Seq<S>,
) -> nat {
    sum_nat(sizes(p, s))
}

/// Removing an element takes it off the sum.
pub proof fn lemma_sum_nat_remove(s: Seq<nat>, i: int)
    requires
        0 <= i < s.len(),
    ensures
        sum_nat(s) == sum_nat(s.remove(i)) + s[i],
    decreases s.len(),
{
    if i == s.len() - 1 {
        assert(s.remove(i) =~= s.drop_last());
    } else {
        lemma_sum_nat_remove(s.drop_last(), i);
        assert(s.remove(i).drop_last() =~= s.drop_last().remove(i));
    }
}

/// Appending a state adds its measure to the sum.
pub proof fn lemma_total_size_push<S: SearchState, V: ObjectiveValue, P: SearchProblem<S, V> + ?Sized>(
    p: &P,
    s: Seq<S>,
    x: S,
)
    ensures
        total_size(p, s.push(x)) == total_size(p, s) + p.subtree_size(x),
{
    assert(sizes(p, s.push(x)).drop_last() =~= sizes(p, s));
}

/// Removing a state takes its measure off the sum.
pub proof fn lemma_total_size_remove<S: SearchState, V: ObjectiveValue, P: SearchProblem<S, V> + ?Sized>(
    p: &P,
    s: Seq<S>,
    i: int,
)
    requires
        0 <= i < s.len(),
    ensures
        total_size(p, s) == total_size(p, s.remove(i)) + p.subtree_size(s[i]),
{
    lemma_sum_nat_remove(sizes(p, s), i);
    assert(sizes(p, s).remove(i) =~= sizes(p, s.remove(i)));
}

/// A prefix of a sequence of states has no larger a sum.
pub proof fn lemma_total_size_take<S: SearchState, V: ObjectiveValue, P: SearchProblem<S, V> + ?Sized>(
    p: &P,
    s: Seq<S>,
    i: int,
)
    requires
        0 <= i < s.len(),
    ensures
        total_size(p, s.take(i + 1)) == total_size(p, s.take(i)) + p.subtree_size(s[i]),
        total_size(p, s.take(i + 1)) <= total_size(p, s),
    decreases s.len() - i,
{
    assert(s.take(i + 1) =~= s.take(i).push(s[i]));
    lemma_total_size_push(p, s.take(i), s[i]);
    if i + 1 < s.len() {
        lemma_total_size_take(p, s, i + 1);
    } else {
        assert(s.take(i + 1) =~= s);
    }
}

/// A part of a sequence of states, counted with multiplicity, has no larger a sum.
pub proof fn lemma_total_size_sub<S: SearchState, V: ObjectiveValue, P: SearchProblem<S, V> + ?Sized>(
    p: &P,
    sub: Seq<S>,
    sup: Seq<S>,
)
    requires
        sub.to_multiset().subset_of(sup.to_multiset()),
    ensures
        total_size(p, sub) <= total_size(p, sup),
    decreases sub.len(),
{
    broadcast use vstd::multiset::group_multiset_axioms;

    if sub.len() > 0 {
        let x = sub.last();
        let rest = sub.drop_last();
        sub.to_multiset_ensures();
        rest.to_multiset_ensures();
        sup.to_multiset_ensures();
        assert(sub =~= rest.push(x));
        assert(sub.to_multiset() =~= rest.to_multiset().insert(x));
        assert(sup.to_multiset().count(x) > 0);
        assert(sup.contains(x));
        let i = choose|i: int| 0 <= i < sup.len() && sup[i] == x;
        lemma_total_size_remove(p, sup, i);
        assert(sup.remove(i).to_multiset() =~= sup.to_multiset().remove(x));
        assert(rest.to_multiset().subset_of(sup.remove(i).to_multiset()));
        lemma_total_size_sub(p, rest, sup.remove(i));
        lemma_total_size_push(p, rest, x);
    } else {
        assert(sizes(p, sub) =~= Seq::<nat>::empty());
    }
}

/// Every state of a sequence has a measure no larger than the sum.
pub proof fn lemma_total_size_element<S: SearchState, V: ObjectiveValue, P: SearchProblem<S, V> + ?Sized>(
    p: &P,
    s: Seq<S>,
    i: int,
)
    requires
        0 <= i < s.len(),
    ensures
        p.subtree_size(s[i]) <= total_size(p, s),
{
    lemma_total_size_remove(p, s, i);
}

/// Every non-empty sequence of results has a worst one.
pub proof fn lemma_worst_exists<S, V: ObjectiveValue>(
    goal: OptimizationGoal,
    s: Seq<ResultNode<S, V>>,
)
    requires
        s.len() > 0,
    ensures
        exists|i: int| is_worst_index(goal, s, i),
    decreases s.len(),
{
    if s.len() == 1 {
        assert(is_worst_index(goal, s, 0));
    } else {
        let t = s.drop_last();
        lemma_worst_exists(goal, t);
        let i = choose|i: int| is_worst_index(goal, t, i);
        assert forall|j: int| 0 <= j < t.len() implies #[trigger] s[j] == t[j] by {}
        assert(forall|j: int| 0 <= j < t.len() ==> score(goal, t[i].value) <= #[trigger] score(goal, t[j].value));
        if score(goal, s.last().value) < score(goal, t[i].value) {
            assert(is_worst_index(goal, s, s.len() - 1));
        } else {
            assert(is_worst_index(goal, s, i));
        }
    }
}

/// Index of a worst result of a non-empty vector.
fn worst_index<S, V: ObjectiveValue>(goal: OptimizationGoal, v: &Vec<ResultNode<S, V>>) -> (i: usize)
    requires
        v.len() > 0,
    ensures
        is_worst_index(goal, v@, i as int),
{
    let mut w: usize = 0;
    let mut j: usize = 1;
    while j < v.len()
        invariant
            0 <= w < v.len(),
            1 <= j <= v.len(),
            forall|m: int| 0 <= m < j ==> score(goal, v@[w as int].value) <= #[trigger] score(goal, v@[m].value),
        decreases v.len() - j,
    {
        if worse_than(goal, v[j].value, v[w].value) {
            w = j;
        }
        j += 1;
    }
    w
}

/// Step `k` of a chain of states goes from a state to one of its children.
pub open spec fn link<S: SearchState, V: ObjectiveValue, P: SearchProblem<S, V> + ?Sized>(
    p: &P,
    c: Seq<S>,
    k: int,
) -> bool {
    p.spec_children(c[k]).contains(c[k + 1])
}

/// A non-empty chain of states, each after the first a child of the one
/// before it.
pub open spec fn is_chain<S: SearchState, V: ObjectiveValue, P: SearchProblem<S, V> + ?Sized>(
    p: &P,
    c: Seq<S>,
) -> bool {
    &&& c.len() > 0
    &&& forall|k: int| 0 <= k < c.len() - 1 ==> #[trigger] link(p, c, k)
}

/// `d` is `s` or lies below it: a chain leads from `s` to `d`.
pub open spec fn descends<S: SearchState, V: ObjectiveValue, P: SearchProblem<S, V> + ?Sized>(
    p: &P,
    d: S,
    s: S,
) -> bool {
    exists|c: Seq<S>| #[trigger] is_chain(p, c) && c[0] == s && c.last() == d
}

/// `d` is reached from a root of the search.
pub open spec fn reachable<S: SearchState, V: ObjectiveValue, P: SearchProblem<S, V> + ?Sized>(
    p: &P,
    d: S,
) -> bool {
    exists|i: int| 0 <= i < p.spec_roots().len() && #[trigger] descends(p, d, p.spec_roots()[i])
}

/// The bound of each state is no worse than the value of anything at or
/// below it.
pub open spec fn admissible<S: SearchState, V: ObjectiveValue, P: SearchProblem<S, V> + ?Sized>(
    p: &P,
) -> bool {
    forall|c: Seq<S>|
        #[trigger] is_chain(p, c) && p.spec_value(c.last()) is Some ==> score(
            p.spec_goal(),
            p.spec_value(c.last())->0,
        ) <= score(p.spec_goal(), p.spec_bound(c[0]))
}

/// A solution of the search: a reachable state with its value.
pub open spec fn is_solution<S: SearchState, V: ObjectiveValue, P: SearchProblem<S, V> + ?Sized>(
    p: &P,
    x: ResultNode<S, V>,
) -> bool {
    reachable(p, x.state) && p.spec_value(x.state) == Some(x.value)
}

/// Every state lies below itself.
pub proof fn lemma_descends_refl<S: SearchState, V: ObjectiveValue, P: SearchProblem<S, V> + ?Sized>(
    p: &P,
    s: S,
)
    ensures
        descends(p, s, s),
{
    let c = seq![s];
    assert(is_chain(p, c));
}

/// A child of a state below `s` lies below `s`.
pub proof fn lemma_descends_child<S: SearchState, V: ObjectiveValue, P: SearchProblem<S, V> + ?Sized>(
    p: &P,
    d: S,
    s: S,
    i: int,
)
    requires
        descends(p, d, s),
        0 <= i < p.spec_children(d).len(),
    ensures
        descends(p, p.spec_children(d)[i], s),
{
    let c = choose|c: Seq<S>| #[trigger] is_chain(p, c) && c[0] == s && c.last() == d;
    let e = c.push(p.spec_children(d)[i]);
    assert forall|k: int| 0 <= k < e.len() - 1 implies #[trigger] link(p, e, k) by {
        if k < c.len() - 1 {
            assert(link(p, c, k));
        } else {
            assert(p.spec_children(d).contains(p.spec_children(d)[i]));
        }
    }
    assert(is_chain(p, e));
}

/// A state strictly below `s` lies below one of the children of `s`; the
/// result is the index of that child.
pub proof fn lemma_descends_split<S: SearchState, V: ObjectiveValue, P: SearchProblem<S, V> + ?Sized>(
    p: &P,
    d: S,
    s: S,
) -> (j: int)
    requires
        descends(p, d, s),
        d != s,
    ensures
        0 <= j < p.spec_children(s).len(),
        descends(p, d, p.spec_children(s)[j]),
{
    let c = choose|c: Seq<S>| #[trigger] is_chain(p, c) && c[0] == s && c.last() == d;
    assert(c.len() > 1);
    assert(link(p, c, 0));
    let j = p.spec_children(s).index_of(c[1]);
    let e = c.drop_first();
    assert forall|k: int| 0 <= k < e.len() - 1 implies #[trigger] link(p, e, k) by {
        assert(link(p, c, k + 1));
    }
    assert(is_chain(p, e));
    j
}

/// With an admissible bound, what lies below a state is no better than its bound.
pub proof fn lemma_admissible_below<S: SearchState, V: ObjectiveValue, P: SearchProblem<S, V> + ?Sized>(
    p: &P,
    d: S,
    s: S,
)
    requires
        admissible(p),
        descends(p, d, s),
        p.spec_value(d) is Some,
    ensures
        score(p.spec_goal(), p.spec_value(d)->0) <= score(p.spec_goal(), p.spec_bound(s)),
{
    let c = choose|c: Seq<S>| #[trigger] is_chain(p, c) && c[0] == s && c.last() == d;
}

/// The children of a reachable state are reachable.
pub proof fn lemma_reachable_child<S: SearchState, V: ObjectiveValue, P: SearchProblem<S, V> + ?Sized>(
    p: &P,
    d: S,
    i: int,
)
    requires
        reachable(p, d),
        0 <= i < p.spec_children(d).len(),
    ensures
        reachable(p, p.spec_children(d)[i]),
{
    let r = choose|r: int| 0 <= r < p.spec_roots().len() && #[trigger] descends(p, d, p.spec_roots()[r]);
    lemma_descends_child(p, d, p.spec_roots()[r], i);
}

/// The roots are reachable.
pub proof fn lemma_root_reachable<S: SearchState, V: ObjectiveValue, P: SearchProblem<S, V> + ?Sized>(
    p: &P,
    i: int,
)
    requires
        0 <= i < p.spec_roots().len(),
    ensures
        reachable(p, p.spec_roots()[i]),
{
    lemma_descends_refl(p, p.spec_roots()[i]);
}

impl<S, V: ObjectiveValue> ResultCollector<S, V> {
    /// The collector accounts for a result: the result was offered, or it is
    /// worse than the threshold, or it is not admitted at all.
    pub open spec fn covers(&self, x: ResultNode<S, V>) -> bool {
        ||| self.pool().count(x) > 0
        ||| score(self.spec_goal(), x.value) < self.threshold_score()
        ||| !admitted(self.spec_goal(), self.initial(), x.value)
    }

    /// `later` is this collector after further offers: the same settings, no
    /// offer forgotten and a threshold no worse.
    pub open spec fn grows_to(&self, later: Self) -> bool {
        &&& later.capacity() == self.capacity()
        &&& later.spec_goal() == self.spec_goal()
        &&& later.initial() == self.initial()
        &&& forall|x: ResultNode<S, V>| #[trigger] self.pool().count(x) <= later.pool().count(x)
        &&& self.threshold_score() <= later.threshold_score()
    }
}

/// What a collector accounts for, it still accounts for after further offers.
pub proof fn lemma_covers_grows<S, V: ObjectiveValue>(
    c1: ResultCollector<S, V>,
    c2: ResultCollector<S, V>,
    x: ResultNode<S, V>,
)
    requires
        c1.grows_to(c2),
        c1.covers(x),
    ensures
        c2.covers(x),
{
    assert(c1.pool().count(x) <= c2.pool().count(x));
}

/// A collector grows to itself.
pub proof fn lemma_grows_refl<S, V: ObjectiveValue>(c: ResultCollector<S, V>)
    ensures
        c.grows_to(c),
{
}

/// Further offers after further offers are further offers.
pub proof fn lemma_grows_trans<S, V: ObjectiveValue>(
    c1: ResultCollector<S, V>,
    c2: ResultCollector<S, V>,
    c3: ResultCollector<S, V>,
)
    requires
        c1.grows_to(c2),
        c2.grows_to(c3),
    ensures
        c1.grows_to(c3),
{
    assert forall|x: ResultNode<S, V>| #[trigger] c1.pool().count(x) <= c3.pool().count(x) by {
        assert(c1.pool().count(x) <= c2.pool().count(x));
        assert(c2.pool().count(x) <= c3.pool().count(x));
    }
}

/// Law: an admitted result that a collector accounts for is kept, or else the
/// collector is full and keeps nothing worse than it.
pub proof fn lemma_covered_result_kept_or_beaten<S, V: ObjectiveValue>(
    c: &ResultCollector<S, V>,
    x: ResultNode<S, V>,
)
    requires
        c.wf(),
        c.covers(x),
        admitted(c.spec_goal(), c.initial(), x.value),
    ensures
        c.entries().contains(x) || (c.entries().len() == c.capacity() && forall|i: int|
            0 <= i < c.entries().len() ==> score(c.spec_goal(), x.value) <= #[trigger] score(
                c.spec_goal(),
                c.entries()[i].value,
            )),
{
    broadcast use vstd::seq_lib::group_to_multiset_ensures;
    broadcast use vstd::multiset::group_multiset_axioms;

    let ms = c.results@.to_multiset();
    let goal = c.goal;
    if c.pool().count(x) > 0 {
        if ms.count(x) == 0 {
            assert(c.dropped@.count(x) > 0);
            assert(c.dropped@.len() > 0);
            assert forall|i: int| 0 <= i < c.entries().len() implies score(goal, x.value) <= #[trigger] score(
                goal,
                c.entries()[i].value,
            ) by {
                assert(c.results@.contains(c.results@[i]));
                assert(ms.count(c.results@[i]) > 0);
            }
        }
    } else {
        if c.entries().len() >= c.capacity() && c.entries().len() > 0 {
            lemma_worst_exists(goal, c.results@);
            let w = choose|i: int| is_worst_index(goal, c.entries(), i);
            assert forall|i: int| 0 <= i < c.entries().len() implies score(goal, x.value) <= #[trigger] score(
                goal,
                c.entries()[i].value,
            ) by {
                assert(score(goal, c.entries()[w].value) <= score(goal, c.entries()[i].value));
            }
        }
    }
}

/// Every kept result was offered.
pub proof fn lemma_entries_in_pool<S, V: ObjectiveValue>(c: &ResultCollector<S, V>, x: ResultNode<S, V>)
    requires
        c.wf(),
        c.entries().contains(x),
    ensures
        c.pool().count(x) > 0,
{
    broadcast use vstd::seq_lib::group_to_multiset_ensures;
    broadcast use vstd::multiset::group_multiset_axioms;
}

/// Every result ever offered to the collector is a solution.
pub open spec fn pool_sound<S: SearchState, V: ObjectiveValue, P: SearchProblem<S, V> + ?Sized>(
    p: &P,
    c: ResultCollector<S, V>,
) -> bool {
    forall|x: ResultNode<S, V>| #[trigger] c.pool().count(x) > 0 ==> is_solution(p, x)
}

/// The collector accounts for every state at or below `s` that has a value.
pub open spec fn covers_below<S: SearchState, V: ObjectiveValue, P: SearchProblem<S, V> + ?Sized>(
    p: &P,
    c: ResultCollector<S, V>,
    s: S,
) -> bool {
    forall|d: S|
        #[trigger] descends(p, d, s) && p.spec_value(d) is Some ==> c.covers(
            ResultNode { state: d, value: p.spec_value(d)->0 },
        )
}

/// `r` holds the best solutions: each admitted solution is in `r`, or `r` holds
/// `k` results, none of them worse than it.
pub open spec fn finds_top_k<S: SearchState, V: ObjectiveValue, P: SearchProblem<S, V> + ?Sized>(
    p: &P,
    k: nat,
    initial: V,
    r: Seq<ResultNode<S, V>>,
) -> bool {
    forall|x: ResultNode<S, V>|
        #[trigger] is_solution(p, x) && admitted(p.spec_goal(), initial, x.value) ==> r.contains(x) || (
        r.len() == k && forall|i: int|
            0 <= i < r.len() ==> score(p.spec_goal(), x.value) <= #[trigger] score(p.spec_goal(), r[i].value))
}

/// The outcome of a search from its final collector: with a state-determined
/// evaluation, the results are solutions; if moreover the collector accounts
/// for every solution, they are the best ones.
pub proof fn lemma_search_outcome<S: SearchState, V: ObjectiveValue, P: SearchProblem<S, V> + ?Sized>(
    p: &P,
    c: &ResultCollector<S, V>,
    r: Seq<ResultNode<S, V>>,
)
    requires
        c.wf(),
        c.spec_goal() == p.spec_goal(),
        r.to_multiset() == c.entries().to_multiset(),
        pool_sound(p, *c),
    ensures
        forall|i: int| 0 <= i < r.len() ==> is_solution(p, #[trigger] r[i]),
        (forall|x: ResultNode<S, V>| #[trigger] is_solution(p, x) ==> c.covers(x)) ==> finds_top_k(
            p,
            c.capacity(),
            c.initial(),
            r,
        ),
{
    broadcast use vstd::seq_lib::group_to_multiset_ensures;

    assert forall|i: int| 0 <= i < r.len() implies is_solution(p, #[trigger] r[i]) by {
        assert(r.contains(r[i]));
        assert(c.entries().to_multiset().count(r[i]) > 0);
        lemma_entries_in_pool(c, r[i]);
    }
    if forall|x: ResultNode<S, V>| #[trigger] is_solution(p, x) ==> c.covers(x) {
        assert forall|x: ResultNode<S, V>|
            #[trigger] is_solution(p, x) && admitted(p.spec_goal(), c.initial(), x.value) implies r.contains(x)
                || (r.len() == c.capacity() && forall|i: int|
                0 <= i < r.len() ==> score(p.spec_goal(), x.value) <= #[trigger] score(
                    p.spec_goal(),
                    r[i].value,
                )) by {
            lemma_covered_result_kept_or_beaten(c, x);
            if c.entries().contains(x) {
                assert(c.entries().to_multiset().count(x) > 0);
            } else {
                assert(r.len() == c.entries().len()) by {
                    r.to_multiset_ensures();
                    c.entries().to_multiset_ensures();
                }
                assert forall|i: int| 0 <= i < r.len() implies score(p.spec_goal(), x.value) <= #[trigger] score(
                    p.spec_goal(),
                    r[i].value,
                ) by {
                    assert(r.contains(r[i]));
                    assert(c.entries().to_multiset().count(r[i]) > 0);
                    let j = choose|j: int| 0 <= j < c.entries().len() && c.entries()[j] == r[i];
                    assert(score(p.spec_goal(), x.value) <= score(p.spec_goal(), c.entries()[j].value));
                }
            }
        }
    }
}

/// Every result ever offered to the collector is at a reachable state.
pub open spec fn pool_reached<S: SearchState, V: ObjectiveValue, P: SearchProblem<S, V> + ?Sized>(
    p: &P,
    c: ResultCollector<S, V>,
) -> bool {
    forall|x: ResultNode<S, V>| #[trigger] c.pool().count(x) > 0 ==> reachable(p, x.state)
}

/// The solution a state itself gives, if it has a value.
pub open spec fn own_solution<S: SearchState, V: ObjectiveValue, P: SearchProblem<S, V> + ?Sized>(
    p: &P,
    s: S,
) -> Multiset<ResultNode<S, V>> {
    match p.spec_value(s) {
        Some(v) => Multiset::singleton(ResultNode { state: s, value: v }),
        None => Multiset::empty(),
    }
}

/// The solutions of the search tree at and below `s`, one for each place in
/// the tree where a state with a value stands. A child is followed while its
/// measure is below that of its parent, which holds of every child that
/// `branch` hands out.
pub open spec fn tree_solutions<S: SearchState, V: ObjectiveValue, P: SearchProblem<S, V> + ?Sized>(
    p: &P,
    s: S,
) -> Multiset<ResultNode<S, V>>
    decreases p.subtree_size(s), 1nat, 0nat,
{
    own_solution(p, s).add(forest_solutions(p, p.spec_children(s), p.subtree_size(s)))
}

/// The solutions of the trees of `cs` whose measure is below `b`.
pub open spec fn forest_solutions<S: SearchState, V: ObjectiveValue, P: SearchProblem<S, V> + ?Sized>(
    p: &P,
    cs: Seq<S>,
    b: nat,
) -> Multiset<ResultNode<S, V>>
    decreases b, 0nat, cs.len(),
{
    if cs.len() == 0 {
        Multiset::empty()
    } else {
        forest_solutions(p, cs.drop_last(), b).add(
            if p.subtree_size(cs.last()) < b {
                tree_solutions(p, cs.last())
            } else {
                Multiset::empty()
            },
        )
    }
}

/// The solutions of the trees of all the states of `cs`.
pub open spec fn solutions_below<S: SearchState, V: ObjectiveValue, P: SearchProblem<S, V> + ?Sized>(
    p: &P,
    cs: Seq<S>,
) -> Multiset<ResultNode<S, V>>
    decreases cs.len(),
{
    if cs.len() == 0 {
        Multiset::empty()
    } else {
        solutions_below(p, cs.drop_last()).add(tree_solutions(p, cs.last()))
    }
}

/// The solutions of the whole search tree, one per place in it.
pub open spec fn all_solutions<S: SearchState, V: ObjectiveValue, P: SearchProblem<S, V> + ?Sized>(
    p: &P,
) -> Multiset<ResultNode<S, V>> {
    solutions_below(p, p.spec_roots())
}

/// Where every state of `cs` has a measure below `b`, the forest holds the
/// whole trees.
pub proof fn lemma_forest_whole<S: SearchState, V: ObjectiveValue, P: SearchProblem<S, V> + ?Sized>(
    p: &P,
    cs: Seq<S>,
    b: nat,
)
    requires
        forall|i: int| 0 <= i < cs.len() ==> p.subtree_size(#[trigger] cs[i]) < b,
    ensures
        forest_solutions(p, cs, b) == solutions_below(p, cs),
    decreases cs.len(),
{
    if cs.len() > 0 {
        lemma_forest_whole(p, cs.drop_last(), b);
        assert(p.subtree_size(cs[cs.len() - 1]) < b);
    }
}

/// Removing a state takes its tree off the sum.
pub proof fn lemma_solutions_below_remove<S: SearchState, V: ObjectiveValue, P: SearchProblem<S, V> + ?Sized>(
    p: &P,
    cs: Seq<S>,
    i: int,
)
    requires
        0 <= i < cs.len(),
    ensures
        solutions_below(p, cs) == solutions_below(p, cs.remove(i)).add(tree_solutions(p, cs[i])),
    decreases cs.len(),
{
    broadcast use vstd::multiset::group_multiset_axioms;

    if i == cs.len() - 1 {
        assert(cs.remove(i) =~= cs.drop_last());
    } else {
        lemma_solutions_below_remove(p, cs.drop_last(), i);
        assert(cs.remove(i).drop_last() =~= cs.drop_last().remove(i));
        assert(cs.remove(i).last() == cs.last());
        assert(solutions_below(p, cs) =~= solutions_below(p, cs.remove(i)).add(tree_solutions(p, cs[i])));
    }
}

/// Appending a state adds its tree to the sum.
pub proof fn lemma_solutions_below_push<S: SearchState, V: ObjectiveValue, P: SearchProblem<S, V> + ?Sized>(
    p: &P,
    cs: Seq<S>,
    x: S,
)
    ensures
        solutions_below(p, cs.push(x)) == solutions_below(p, cs).add(tree_solutions(p, x)),
{
    assert(cs.push(x).drop_last() =~= cs);
}

/// A part of a sequence of states, counted with multiplicity, has part of
/// the solutions.
pub proof fn lemma_solutions_below_sub<S: SearchState, V: ObjectiveValue, P: SearchProblem<S, V> + ?Sized>(
    p: &P,
    sub: Seq<S>,
    sup: Seq<S>,
)
    requires
        sub.to_multiset().subset_of(sup.to_multiset()),
    ensures
        solutions_below(p, sub).subset_of(solutions_below(p, sup)),
    decreases sub.len(),
{
    broadcast use vstd::multiset::group_multiset_axioms;

    if sub.len() > 0 {
        let x = sub.last();
        let rest = sub.drop_last();
        sub.to_multiset_ensures();
        rest.to_multiset_ensures();
        sup.to_multiset_ensures();
        assert(sub =~= rest.push(x));
        assert(sub.to_multiset() =~= rest.to_multiset().insert(x));
        assert(sup.to_multiset().count(x) > 0);
        assert(sup.contains(x));
        let i = choose|i: int| 0 <= i < sup.len() && sup[i] == x;
        lemma_solutions_below_remove(p, sup, i);
        assert(sup.remove(i).to_multiset() =~= sup.to_multiset().remove(x));
        assert(rest.to_multiset().subset_of(sup.remove(i).to_multiset()));
        lemma_solutions_below_sub(p, rest, sup.remove(i));
    } else {
        assert(solutions_below(p, sub) =~= Multiset::empty());
    }
}

/// The kept results are among the offered ones.
pub proof fn lemma_entries_sub_pool<S, V: ObjectiveValue>(c: &ResultCollector<S, V>)
    requires
        c.wf(),
    ensures
        c.entries().to_multiset().subset_of(c.pool()),
{
    broadcast use vstd::multiset::group_multiset_axioms;
}

impl<S, V: ObjectiveValue> ResultCollector<S, V> {
    /// The collector rules a result out: it is worse than the threshold, or
    /// not admitted at all.
    pub open spec fn beats(&self, x: ResultNode<S, V>) -> bool {
        ||| score(self.spec_goal(), x.value) < self.threshold_score()
        ||| !admitted(self.spec_goal(), self.initial(), x.value)
    }
}

/// A result that a collector rules out stays ruled out after further offers.
pub proof fn lemma_beats_grows<S, V: ObjectiveValue>(
    c1: ResultCollector<S, V>,
    c2: ResultCollector<S, V>,
    x: ResultNode<S, V>,
)
    requires
        c1.grows_to(c2),
        c1.beats(x),
    ensures
        c2.beats(x),
{
}

/// Every solution in the tree of `s` lies at or below `s` and carries the
/// value of its state.
pub proof fn lemma_tree_member<S: SearchState, V: ObjectiveValue, P: SearchProblem<S, V> + ?Sized>(
    p: &P,
    s: S,
    x: ResultNode<S, V>,
)
    requires
        tree_solutions(p, s).count(x) > 0,
    ensures
        descends(p, x.state, s),
        p.spec_value(x.state) == Some(x.value),
    decreases p.subtree_size(s), 1nat, 0nat,
{
    broadcast use vstd::multiset::group_multiset_axioms;

    if own_solution(p, s).count(x) > 0 {
        lemma_descends_refl(p, s);
    } else {
        let i = lemma_forest_member(p, p.spec_children(s), p.subtree_size(s), x);
        lemma_descends_through(p, x.state, s, i);
    }
}

/// Every solution of a forest lies in the tree of one of its states; the
/// result is that state's index.
pub proof fn lemma_forest_member<S: SearchState, V: ObjectiveValue, P: SearchProblem<S, V> + ?Sized>(
    p: &P,
    cs: Seq<S>,
    b: nat,
    x: ResultNode<S, V>,
) -> (i: int)
    requires
        forest_solutions(p, cs, b).count(x) > 0,
    ensures
        0 <= i < cs.len(),
        descends(p, x.state, cs[i]),
        p.spec_value(x.state) == Some(x.value),
    decreases b, 0nat, cs.len(),
{
    broadcast use vstd::multiset::group_multiset_axioms;

    if forest_solutions(p, cs.drop_last(), b).count(x) > 0 {
        lemma_forest_member(p, cs.drop_last(), b, x)
    } else {
        lemma_tree_member(p, cs.last(), x);
        cs.len() - 1
    }
}

/// What lies below a child of `s` lies below `s`.
pub proof fn lemma_descends_through<S: SearchState, V: ObjectiveValue, P: SearchProblem<S, V> + ?Sized>(
    p: &P,
    d: S,
    s: S,
    i: int,
)
    requires
        0 <= i < p.spec_children(s).len(),
        descends(p, d, p.spec_children(s)[i]),
    ensures
        descends(p, d, s),
{
    let c = choose|c: Seq<S>| #[trigger] is_chain(p, c) && c[0] == p.spec_children(s)[i] && c.last() == d;
    let e = seq![s] + c;
    assert forall|k: int| 0 <= k < e.len() - 1 implies #[trigger] link(p, e, k) by {
        if k == 0 {
            assert(p.spec_children(s).contains(p.spec_children(s)[i]));
        } else {
            assert(link(p, c, k - 1));
        }
    }
    assert(is_chain(p, e));
}

/// With an admissible bound, a tree whose root's bound is worse than a
/// collector's threshold holds nothing that the collector does not rule out.
pub proof fn lemma_tree_beaten<S: SearchState, V: ObjectiveValue, P: SearchProblem<S, V> + ?Sized>(
    p: &P,
    c: ResultCollector<S, V>,
    s: S,
    x: ResultNode<S, V>,
)
    requires
        admissible(p),
        c.spec_goal() == p.spec_goal(),
        score(p.spec_goal(), p.spec_bound(s)) < c.threshold_score(),
        !c.beats(x),
    ensures
        tree_solutions(p, s).count(x) == 0,
{
    if tree_solutions(p, s).count(x) > 0 {
        lemma_tree_member(p, s, x);
        lemma_admissible_below(p, x.state, s);
    }
}

/// Where the states that `sup` holds more often than `sub` have no share in
/// `x`, both hold `x` equally often.
pub proof fn lemma_solutions_below_count<S: SearchState, V: ObjectiveValue, P: SearchProblem<S, V> + ?Sized>(
    p: &P,
    sub: Seq<S>,
    sup: Seq<S>,
    x: ResultNode<S, V>,
)
    requires
        sub.to_multiset().subset_of(sup.to_multiset()),
        forall|c: S|
            #[trigger] sub.to_multiset().count(c) < sup.to_multiset().count(c) ==> tree_solutions(p, c).count(x)
                == 0,
    ensures
        solutions_below(p, sub).count(x) == solutions_below(p, sup).count(x),
    decreases sup.len(),
{
    broadcast use vstd::multiset::group_multiset_axioms;

    sub.to_multiset_ensures();
    sup.to_multiset_ensures();
    if sup.len() == 0 {
        assert(sup.to_multiset() =~= Multiset::empty());
        assert(sub.to_multiset() =~= Multiset::empty());
        assert(sub.len() == 0);
    } else {
        let y = sup.last();
        let rest = sup.drop_last();
        rest.to_multiset_ensures();
        assert(sup =~= rest.push(y));
        assert(sup.to_multiset() =~= rest.to_multiset().insert(y));
        if sub.to_multiset().count(y) > 0 {
            assert(sub.contains(y));
            let i = choose|i: int| 0 <= i < sub.len() && sub[i] == y;
            let sub2 = sub.remove(i);
            sub2.to_multiset_ensures();
            assert(sub2.to_multiset() =~= sub.to_multiset().remove(y));
            lemma_solutions_below_remove(p, sub, i);
            assert forall|c: S| #[trigger] sub2.to_multiset().count(c) < rest.to_multiset().count(c) implies tree_solutions(
                p,
                c,
            ).count(x) == 0 by {
                assert(sub.to_multiset().count(c) < sup.to_multiset().count(c));
            }
            lemma_solutions_below_count(p, sub2, rest, x);
        } else {
            assert(sub.to_multiset().count(y) < sup.to_multiset().count(y));
            assert forall|c: S| #[trigger] sub.to_multiset().count(c) < rest.to_multiset().count(c) implies tree_solutions(
                p,
                c,
            ).count(x) == 0 by {
                assert(sub.to_multiset().count(c) < sup.to_multiset().count(c));
            }
            lemma_solutions_below_count(p, sub, rest, x);
        }
    }
}

/// `r` holds the best solutions, counted with multiplicity: each admitted
/// solution is in `r` as often as it stands in the search tree, or `r` holds
/// `k` results, none of them worse than it.
pub open spec fn finds_top_k_counted<S: SearchState, V: ObjectiveValue, P: SearchProblem<S, V> + ?Sized>(
    p: &P,
    k: nat,
    initial: V,
    r: Seq<ResultNode<S, V>>,
) -> bool {
    forall|x: ResultNode<S, V>|
        admitted(p.spec_goal(), initial, x.value) ==> #[trigger] r.to_multiset().count(x) == all_solutions(p).count(x)
            || (r.len() == k && forall|i: int|
            0 <= i < r.len() ==> score(p.spec_goal(), x.value) <= #[trigger] score(p.spec_goal(), r[i].value))
}

/// The counted outcome of a search from its final collector: if the collector
/// was offered every solution that it does not rule out as often as the tree
/// holds it, the results are the best, counted with multiplicity.
pub proof fn lemma_search_outcome_counted<S: SearchState, V: ObjectiveValue, P: SearchProblem<S, V> + ?Sized>(
    p: &P,
    c: &ResultCollector<S, V>,
    r: Seq<ResultNode<S, V>>,
)
    requires
        c.wf(),
        c.spec_goal() == p.spec_goal(),
        r.to_multiset() == c.entries().to_multiset(),
        c.pool().subset_of(all_solutions(p)),
        forall|x: ResultNode<S, V>| !c.beats(x) ==> #[trigger] c.pool().count(x) >= all_solutions(p).count(x),
    ensures
        finds_top_k_counted(p, c.capacity(), c.initial(), r),
{
    broadcast use vstd::seq_lib::group_to_multiset_ensures;
    broadcast use vstd::multiset::group_multiset_axioms;

    assert(r.len() == c.entries().len()) by {
        r.to_multiset_ensures();
        c.entries().to_multiset_ensures();
    }
    assert forall|x: ResultNode<S, V>| admitted(p.spec_goal(), c.initial(), x.value) implies #[trigger] r.to_multiset().count(x)
        == all_solutions(p).count(x) || (r.len() == c.capacity() && forall|i: int|
        0 <= i < r.len() ==> score(p.spec_goal(), x.value) <= #[trigger] score(p.spec_goal(), r[i].value)) by {
        let full = c.entries().len() == c.capacity() && forall|i: int|
            0 <= i < c.entries().len() ==> score(p.spec_goal(), x.value) <= #[trigger] score(
                p.spec_goal(),
                c.entries()[i].value,
            );
        if c.beats(x) || c.pool().count(x) > c.entries().to_multiset().count(x) {
            // x is worse than the threshold, or some offer of x was dropped.
            lemma_full_and_beaten(c, x);
            assert(full);
        } else {
            assert(c.pool().count(x) == all_solutions(p).count(x));
        }
        if full {
            assert forall|i: int| 0 <= i < r.len() implies score(p.spec_goal(), x.value) <= #[trigger] score(
                p.spec_goal(),
                r[i].value,
            ) by {
                assert(r.contains(r[i]));
                assert(c.entries().to_multiset().count(r[i]) > 0);
                let j = choose|j: int| 0 <= j < c.entries().len() && c.entries()[j] == r[i];
                assert(score(p.spec_goal(), x.value) <= score(p.spec_goal(), c.entries()[j].value));
            }
        }
    }
}

/// An admitted result that the collector rules out, or of which an offer was
/// dropped, is no better than any kept result, and the collector is full.
pub proof fn lemma_full_and_beaten<S, V: ObjectiveValue>(c: &ResultCollector<S, V>, x: ResultNode<S, V>)
    requires
        c.wf(),
        admitted(c.spec_goal(), c.initial(), x.value),
        c.beats(x) || c.pool().count(x) > c.entries().to_multiset().count(x),
    ensures
        c.entries().len() == c.capacity(),
        forall|i: int|
            0 <= i < c.entries().len() ==> score(c.spec_goal(), x.value) <= #[trigger] score(
                c.spec_goal(),
                c.entries()[i].value,
            ),
{
    broadcast use vstd::seq_lib::group_to_multiset_ensures;
    broadcast use vstd::multiset::group_multiset_axioms;

    let ms = c.results@.to_multiset();
    let goal = c.goal;
    if c.pool().count(x) > ms.count(x) {
        assert(c.dropped@.count(x) > 0);
        assert(c.dropped@.len() > 0);
        assert forall|i: int| 0 <= i < c.entries().len() implies score(goal, x.value) <= #[trigger] score(
            goal,
            c.entries()[i].value,
        ) by {
            assert(c.results@.contains(c.results@[i]));
            assert(ms.count(c.results@[i]) > 0);
        }
    } else {
        assert(c.entries().len() >= c.capacity());
        if c.entries().len() > 0 {
            lemma_worst_exists(goal, c.results@);
            let w = choose|i: int| is_worst_index(goal, c.entries(), i);
            assert forall|i: int| 0 <= i < c.entries().len() implies score(goal, x.value) <= #[trigger] score(
                goal,
                c.entries()[i].value,
            ) by {
                assert(score(goal, c.entries()[w].value) <= score(goal, c.entries()[i].value));
            }
        }
    }
}

/// What a search hands back: at most `k` results, sorted best first, all
/// admitted, drawn from the solutions of the tree, and the best `k` of them
/// counted with multiplicity.
pub open spec fn is_search_result<S: SearchState, V: ObjectiveValue, P: SearchProblem<S, V> + ?Sized>(
    p: &P,
    k: nat,
    initial: V,
    r: Seq<ResultNode<S, V>>,
) -> bool {
    &&& r.len() <= k
    &&& is_sorted_best_first(p.spec_goal(), r)
    &&& forall|i: int| 0 <= i < r.len() ==> admitted(p.spec_goal(), initial, #[trigger] r[i].value)
    &&& r.to_multiset().subset_of(all_solutions(p))
    &&& finds_top_k_counted(p, k, initial, r)
}

/// A part of a multiset is no larger than the whole.
proof fn lemma_subset_len<A>(sub: Multiset<A>, sup: Multiset<A>)
    requires
        sub.subset_of(sup),
    ensures
        sub.len() <= sup.len(),
{
    broadcast use vstd::multiset::group_multiset_axioms;

    assert(sup =~= sub.add(sup.sub(sub)));
}

/// One search result holds at least as many copies of an admitted result as
/// another, unless it is full and the result is no better than all it holds.
proof fn lemma_result_count<S: SearchState, V: ObjectiveValue, P: SearchProblem<S, V> + ?Sized>(
    p: &P,
    k: nat,
    initial: V,
    ra: Seq<ResultNode<S, V>>,
    rb: Seq<ResultNode<S, V>>,
    x: ResultNode<S, V>,
)
    requires
        is_search_result(p, k, initial, ra),
        is_search_result(p, k, initial, rb),
        ra.to_multiset().count(x) > 0,
    ensures
        rb.to_multiset().count(x) >= ra.to_multiset().count(x) || (rb.len() == k && forall|i: int|
            0 <= i < rb.len() ==> score(p.spec_goal(), x.value) <= #[trigger] score(p.spec_goal(), rb[i].value)),
{
    broadcast use vstd::seq_lib::group_to_multiset_ensures;

    assert(ra.contains(x));
    let j = choose|j: int| 0 <= j < ra.len() && ra[j] == x;
    assert(admitted(p.spec_goal(), initial, ra[j].value));
    assert(ra.to_multiset().count(x) <= all_solutions(p).count(x));
    assert(admitted(p.spec_goal(), initial, x.value) ==> #[trigger] rb.to_multiset().count(x) == all_solutions(p).count(x)
        || (rb.len() == k && forall|i: int|
        0 <= i < rb.len() ==> score(p.spec_goal(), x.value) <= #[trigger] score(p.spec_goal(), rb[i].value)));
}

/// Two search results cannot differ at a place with the first better there.
proof fn lemma_results_no_better_at<S: SearchState, V: ObjectiveValue, P: SearchProblem<S, V> + ?Sized>(
    p: &P,
    k: nat,
    initial: V,
    ra: Seq<ResultNode<S, V>>,
    rb: Seq<ResultNode<S, V>>,
    i: int,
)
    requires
        is_search_result(p, k, initial, ra),
        is_search_result(p, k, initial, rb),
        0 <= i < ra.len(),
        0 <= i < rb.len(),
    ensures
        score(p.spec_goal(), ra[i].value) <= score(p.spec_goal(), rb[i].value),
{
    broadcast use vstd::seq_lib::group_to_multiset_ensures;
    broadcast use vstd::multiset::group_multiset_axioms;

    let goal = p.spec_goal();
    let t = score(goal, ra[i].value);
    if t > score(goal, rb[i].value) {
        let pre = ra.take(i + 1);
        let qre = rb.take(i);
        assert(ra =~= pre + ra.skip(i + 1));
        assert(rb =~= qre + rb.skip(i));
        vstd::seq_lib::lemma_multiset_commutative(pre, ra.skip(i + 1));
        vstd::seq_lib::lemma_multiset_commutative(qre, rb.skip(i));
        assert forall|x: ResultNode<S, V>| #[trigger] pre.to_multiset().count(x) <= qre.to_multiset().count(x) by {
            if pre.to_multiset().count(x) > 0 {
                assert(pre.contains(x));
                let j = choose|j: int| 0 <= j < pre.len() && pre[j] == x;
                assert(score(goal, ra[j].value) >= t);
                assert(ra.to_multiset().count(x) >= pre.to_multiset().count(x));
                lemma_result_count(p, k, initial, ra, rb, x);
                if rb.to_multiset().count(x) < ra.to_multiset().count(x) {
                    assert(score(goal, x.value) <= score(goal, rb[i].value));
                }
                if rb.skip(i).to_multiset().count(x) > 0 {
                    assert(rb.skip(i).contains(x));
                    let m = choose|m: int| 0 <= m < rb.skip(i).len() && rb.skip(i)[m] == x;
                    assert(rb[i + m] == x);
                    if m > 0 {
                        assert(score(goal, rb[i].value) >= score(goal, rb[i + m].value));
                    }
                }
            }
        }
        assert(pre.to_multiset().subset_of(qre.to_multiset()));
        lemma_subset_len(pre.to_multiset(), qre.to_multiset());
    }
}

/// Law: two results of searches of one problem that each meet the search's
/// guarantees agree: they have the same length and, place by place, values of
/// the same rank. So the depth-first and best-first searches give the same
/// values, where the evaluation depends on the state alone and the bounds
/// are admissible.
pub proof fn lemma_search_results_agree<S: SearchState, V: ObjectiveValue, P: SearchProblem<S, V> + ?Sized>(
    p: &P,
    k: nat,
    initial: V,
    r1: Seq<ResultNode<S, V>>,
    r2: Seq<ResultNode<S, V>>,
)
    requires
        is_search_result(p, k, initial, r1),
        is_search_result(p, k, initial, r2),
    ensures
        r1.len() == r2.len(),
        forall|i: int|
            0 <= i < r1.len() ==> score(p.spec_goal(), #[trigger] r1[i].value) == score(
                p.spec_goal(),
                r2[i].value,
            ),
{
    lemma_results_len_le(p, k, initial, r1, r2);
    lemma_results_len_le(p, k, initial, r2, r1);
    assert forall|i: int| 0 <= i < r1.len() implies score(p.spec_goal(), #[trigger] r1[i].value) == score(
        p.spec_goal(),
        r2[i].value,
    ) by {
        lemma_results_no_better_at(p, k, initial, r1, r2, i);
        lemma_results_no_better_at(p, k, initial, r2, r1, i);
    }
}

/// A search result is no longer than another.
proof fn lemma_results_len_le<S: SearchState, V: ObjectiveValue, P: SearchProblem<S, V> + ?Sized>(
    p: &P,
    k: nat,
    initial: V,
    ra: Seq<ResultNode<S, V>>,
    rb: Seq<ResultNode<S, V>>,
)
    requires
        is_search_result(p, k, initial, ra),
        is_search_result(p, k, initial, rb),
    ensures
        ra.len() <= rb.len(),
{
    broadcast use vstd::seq_lib::group_to_multiset_ensures;

    if ra.len() > rb.len() {
        assert forall|x: ResultNode<S, V>| #[trigger] ra.to_multiset().count(x) <= rb.to_multiset().count(x) by {
            if ra.to_multiset().count(x) > 0 {
                lemma_result_count(p, k, initial, ra, rb, x);
            }
        }
        assert(ra.to_multiset().subset_of(rb.to_multiset()));
        lemma_subset_len(ra.to_multiset(), rb.to_multiset());
    }
}

} // verus!
