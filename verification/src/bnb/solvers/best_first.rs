//! Best-first branch and bound.
use crate::bnb::{
    is_search_result,
    ObjectiveValue, OptimizationGoal, ResultCollector, ResultNode, SearchProblem, SearchState,
    admissible, admitted, descends, finds_top_k, is_solution, is_sorted_best_first,
    lemma_admissible_below, lemma_covers_grows, lemma_descends_split, lemma_grows_refl,
    lemma_kept_results_bounded, lemma_reachable_child, lemma_root_reachable, lemma_search_outcome,
    lemma_total_size_push, lemma_total_size_remove, lemma_total_size_sub, lemma_total_size_take,
    pool_sound, reachable, score, sizes, total_size, worse_than, pool_reached, tree_solutions,
    forest_solutions, solutions_below, all_solutions, own_solution, lemma_forest_whole,
    lemma_solutions_below_sub, lemma_solutions_below_push, lemma_solutions_below_remove,
    lemma_entries_sub_pool, lemma_total_size_element, finds_top_k_counted, lemma_search_outcome_counted,
    lemma_beats_grows, lemma_tree_beaten, lemma_solutions_below_count,
};
use vstd::multiset::Multiset;
use vstd::prelude::*;

verus! {

pub struct BestFirstSolver;

/// A state waiting to be explored, with its bound.
struct Node<S, V> {
    state: S,
    bound: V,
}

/// The states of a queue of nodes.
spec fn node_states<S, V>(q: Seq<Node<S, V>>) -> Seq<S> {
    q.map_values(|n: Node<S, V>| n.state)
}

/// Each node of the queue carries the bound of its state, and its state is
/// reachable.
spec fn queue_ok<S: SearchState, V: ObjectiveValue, P: SearchProblem<S, V>>(p: &P, q: Seq<Node<S, V>>) -> bool {
    forall|i: int|
        0 <= i < q.len() ==> (#[trigger] q[i]).bound == p.spec_bound(q[i].state) && reachable(p, q[i].state)
}

/// Every solution is accounted for by the collector or lies below a state
/// still waiting in the queue.
spec fn accounted<S: SearchState, V: ObjectiveValue, P: SearchProblem<S, V>>(
    p: &P,
    c: ResultCollector<S, V>,
    q: Seq<Node<S, V>>,
) -> bool {
    forall|x: ResultNode<S, V>|
        #[trigger] is_solution(p, x) ==> c.covers(x) || exists|i: int|
            0 <= i < q.len() && #[trigger] descends(p, x.state, q[i].state)
}

/// Index of a node whose bound is the best of a non-empty queue.
fn best_bound_index<S, V: ObjectiveValue>(goal: OptimizationGoal, q: &Vec<Node<S, V>>) -> (i: usize)
    requires
        q.len() > 0,
    ensures
        0 <= i < q.len(),
        forall|j: int| 0 <= j < q.len() ==> score(goal, q@[i as int].bound) >= #[trigger] score(goal, q@[j].bound),
{
    let mut b: usize = 0;
    let mut j: usize = 1;
    while j < q.len()
        invariant
            0 <= b < q.len(),
            1 <= j <= q.len(),
            forall|m: int| 0 <= m < j ==> score(goal, q@[b as int].bound) >= #[trigger] score(goal, q@[m].bound),
        decreases q.len() - j,
    {
        if worse_than(goal, q[b].bound, q[j].bound) {
            b = j;
        }
        j += 1;
    }
    b
}

impl BestFirstSolver {
    /// Best-first search: always explores a waiting state with the best
    /// bound, and stops as soon as that bound is worse than the threshold.
    /// Returns the best results found, best first, each at a reachable state.
    /// Where each state has one value, the results are solutions, never more
    /// often than they stand in the search tree; where moreover the bounds are
    /// admissible, they are the best `k` solutions of the tree, counted with
    /// multiplicity.
    pub fn search<S, V, P>(problem: &P, k: usize, initial_threshold: V) -> (r: Vec<ResultNode<S, V>>)
        where
            S: SearchState,
            V: ObjectiveValue,
            P: SearchProblem<S, V>,
        requires
            k > 0 || problem.spec_roots().len() == 0,
        ensures
            r@.len() <= k,
            is_sorted_best_first(problem.spec_goal(), r@),
            forall|i: int|
                0 <= i < r@.len() ==> admitted(problem.spec_goal(), initial_threshold, #[trigger] r@[i].value),
            forall|i: int| 0 <= i < r@.len() ==> reachable(problem, (#[trigger] r@[i]).state),
            problem.evaluates_purely() ==> forall|i: int| 0 <= i < r@.len() ==> is_solution(problem, #[trigger] r@[i]),
            problem.evaluates_purely() ==> r@.to_multiset().subset_of(all_solutions(problem)),
            problem.evaluates_purely() && admissible(problem) ==> finds_top_k(problem, k as nat, initial_threshold, r@),
            problem.evaluates_purely() && admissible(problem) ==> finds_top_k_counted(
                problem,
                k as nat,
                initial_threshold,
                r@,
            ),
            problem.evaluates_purely() && admissible(problem) ==> is_search_result(
                problem,
                k as nat,
                initial_threshold,
                r@,
            ),
    {
        let goal = problem.goal();
        let mut collector = ResultCollector::new(k, goal, initial_threshold);
        let mut queue: Vec<Node<S, V>> = Vec::new();
        let roots = problem.root_states();
        let ghost rs = roots@;
        for root in it: roots
            invariant
                it.seq() == rs,
                rs == problem.spec_roots(),
                queue@.len() == it.index(),
                forall|j: int| 0 <= j < it.index() ==> (#[trigger] queue@[j]).state == rs[j],
                queue_ok(problem, queue@),
        {
            let ghost i0 = it.index();
            proof {
                lemma_root_reachable(problem, i0);
            }
            let bound = problem.bound(&root);
            queue.push(Node { state: root, bound });
        }
        proof {
            broadcast use vstd::multiset::group_multiset_axioms;

            assert(node_states(queue@) =~= rs);
            assert(collector.pool().add(solutions_below(problem, node_states(queue@))) =~= all_solutions(problem));
            assert forall|x: ResultNode<S, V>| #[trigger] is_solution(problem, x) implies collector.covers(x)
                || exists|i: int| 0 <= i < queue@.len() && #[trigger] descends(problem, x.state, queue@[i].state) by {
                let i = choose|i: int| 0 <= i < rs.len() && #[trigger] descends(problem, x.state, rs[i]);
                assert(queue@[i].state == rs[i]);
            }
        }
        while queue.len() > 0
            invariant
                collector.wf(),
                collector.capacity() == k,
                k > 0 || queue@.len() == 0,
                collector.spec_goal() == goal,
                goal == problem.spec_goal(),
                collector.initial() == initial_threshold,
                queue_ok(problem, queue@),
                pool_reached(problem, collector),
                problem.evaluates_purely() ==> pool_sound(problem, collector),
                problem.evaluates_purely() ==> collector.pool().add(
                    solutions_below(problem, node_states(queue@)),
                ).subset_of(all_solutions(problem)),
                problem.evaluates_purely() && admissible(problem) ==> accounted(problem, collector, queue@),
                problem.evaluates_purely() && admissible(problem) ==> forall|x: ResultNode<S, V>|
                    !collector.beats(x) ==> #[trigger] collector.pool().count(x) + solutions_below(
                        problem,
                        node_states(queue@),
                    ).count(x) >= all_solutions(problem).count(x),
            ensures
                collector.wf(),
                collector.capacity() == k,
                collector.spec_goal() == goal,
                collector.initial() == initial_threshold,
                pool_reached(problem, collector),
                problem.evaluates_purely() ==> pool_sound(problem, collector),
                problem.evaluates_purely() ==> collector.pool().subset_of(all_solutions(problem)),
                problem.evaluates_purely() && admissible(problem) ==> forall|x: ResultNode<S, V>|
                    !collector.beats(x) ==> #[trigger] collector.pool().count(x) >= all_solutions(problem).count(x),
                problem.evaluates_purely() && admissible(problem) ==> forall|x: ResultNode<S, V>|
                    #[trigger] is_solution(problem, x) ==> collector.covers(x),
            decreases total_size(problem, node_states(queue@)),
        {
            let b = best_bound_index(goal, &queue);
            let ghost q0 = queue@;
            let current = queue.remove(b);
            proof {
                assert(node_states(q0).remove(b as int) =~= node_states(queue@));
                lemma_total_size_remove(problem, node_states(q0), b as int);
                lemma_solutions_below_remove(problem, node_states(q0), b as int);
                assert(current == q0[b as int]);
                assert forall|i: int| 0 <= i < queue@.len() implies #[trigger] queue@[i] == q0[if i < b { i } else { i + 1 }] by {}
            }
            let threshold = collector.threshold();
            let ghost c0 = collector;
            // Since it's a priority queue, if this bound is worse than threshold,
            // all subsequent bounds in the queue will also be worse.
            if problem.is_worse(current.bound, threshold) {
                proof {
                    broadcast use vstd::multiset::group_multiset_axioms;

                    if problem.evaluates_purely() && admissible(problem) {
                        assert forall|x: ResultNode<S, V>| !collector.beats(x) implies #[trigger] collector.pool().count(x)
                            >= all_solutions(problem).count(x) by {
                            let e = Seq::<S>::empty();
                            e.to_multiset_ensures();
                            node_states(q0).to_multiset_ensures();
                            assert(e.to_multiset() =~= Multiset::empty());
                            assert forall|c: S| #[trigger] e.to_multiset().count(c) < node_states(q0).to_multiset().count(c)
                                implies tree_solutions(problem, c).count(x) == 0 by {
                                assert(node_states(q0).contains(c));
                                let i = choose|i: int| 0 <= i < node_states(q0).len() && node_states(q0)[i] == c;
                                assert(q0[i].state == c);
                                assert(score(goal, q0[b as int].bound) >= score(goal, q0[i].bound));
                                lemma_tree_beaten(problem, collector, c, x);
                            }
                            lemma_solutions_below_count(problem, e, node_states(q0), x);
                            assert(solutions_below(problem, e) =~= Multiset::empty());
                        }
                        assert forall|x: ResultNode<S, V>| #[trigger] is_solution(problem, x) implies collector.covers(x) by {
                            if !collector.covers(x) {
                                let i = choose|i: int| 0 <= i < q0.len() && #[trigger] descends(problem, x.state, q0[i].state);
                                lemma_admissible_below(problem, x.state, q0[i].state);
                                assert(score(goal, q0[b as int].bound) >= score(goal, q0[i].bound));
                            }
                        }
                    }
                }
                break;
            }
            // Evaluation and branching
            let value = problem.evaluate(&current.state);
            let mut children = problem.branch(&current.state);
            let ghost all = children@;
            problem.prune_children(&current.state, &mut children, threshold);
            let ghost pruned = children@;
            let ghost cs = current.state;
            if let Some(val) = value {
                collector.add(current.state, val);
            } else {
                proof {
                    lemma_grows_refl(collector);
                }
            }
            let ghost c1 = collector;
            let ghost base = queue@;
            proof {
                broadcast use vstd::multiset::group_multiset_axioms;

                assert(sizes(problem, all) =~= all.map_values(|c: S| problem.subtree_size(c)));
                lemma_total_size_sub(problem, pruned, all);
                assert(pruned.take(0) =~= Seq::<S>::empty());
                assert(sizes(problem, Seq::<S>::empty()) =~= Seq::<nat>::empty());
                assert(reachable(problem, q0[b as int].state));
                assert forall|x: ResultNode<S, V>| #[trigger] c1.pool().count(x) > 0 implies reachable(problem, x.state) by {
                    if c0.pool().count(x) == 0 {
                        assert(x == ResultNode { state: cs, value: value->0 });
                    }
                }
                if problem.evaluates_purely() {
                    assert forall|x: ResultNode<S, V>| #[trigger] c1.pool().count(x) > 0 implies is_solution(problem, x) by {
                        if c0.pool().count(x) == 0 {
                            assert(x == ResultNode { state: cs, value: value->0 });
                        }
                    }
                    assert(c1.pool().subset_of(c0.pool().add(own_solution(problem, cs))));
                    if admissible(problem) {
                        assert forall|x: ResultNode<S, V>| !c1.beats(x) implies #[trigger] c1.pool().count(x) >= c0.pool().count(x)
                            + own_solution(problem, cs).count(x) by {
                            assert(c0.pool().count(x) <= c1.pool().count(x));
                        }
                    }
                }
            }
            for child in it: children
                invariant
                    collector == c1,
                    collector.wf(),
                    collector.capacity() == k,
                    k > 0,
                    collector.spec_goal() == goal,
                    goal == problem.spec_goal(),
                    collector.initial() == initial_threshold,
                    score(goal, threshold) == c0.threshold_score(),
                    it.seq() == pruned,
                    all == problem.spec_children(cs),
                    pruned.to_multiset().subset_of(all.to_multiset()),
                    reachable(problem, cs),
                    queue_ok(problem, queue@),
                    queue@.len() >= base.len(),
                    forall|i: int| 0 <= i < base.len() ==> #[trigger] queue@[i] == base[i],
                    forall|j: int|
                        0 <= j < it.index() ==> (exists|i: int| 0 <= i < queue@.len() && #[trigger] queue@[i].state == pruned[j])
                            || score(goal, problem.spec_bound(#[trigger] pruned[j])) < score(goal, threshold),
                    total_size(problem, pruned) < problem.subtree_size(cs),
                    total_size(problem, node_states(q0)) == total_size(problem, node_states(base))
                        + problem.subtree_size(cs),
                    total_size(problem, node_states(queue@)) <= total_size(problem, node_states(base))
                        + total_size(problem, pruned.take(it.index())),
                    problem.evaluates_purely() ==> solutions_below(problem, node_states(queue@)).subset_of(
                        solutions_below(problem, node_states(base)).add(
                            forest_solutions(problem, pruned.take(it.index() as int), problem.subtree_size(cs)),
                        ),
                    ),
                    problem.evaluates_purely() && admissible(problem) ==> forall|x: ResultNode<S, V>|
                        !c1.beats(x) ==> #[trigger] solutions_below(problem, node_states(queue@)).count(x) >= solutions_below(
                            problem,
                            node_states(base),
                        ).count(x) + forest_solutions(problem, pruned.take(it.index() as int), problem.subtree_size(cs)).count(
                            x,
                        ),
                    c0.grows_to(c1),
            {
                let ghost qb = queue@;
                let ghost j0 = it.index();
                proof {
                    lemma_total_size_take(problem, pruned, it.index());
                    lemma_total_size_element(problem, pruned, it.index());
                    assert(pruned.take(j0 + 1).drop_last() =~= pruned.take(j0));
                    assert(pruned.take(j0 + 1).last() == pruned[j0]);
                }
                let bnd = problem.bound(&child);
                if !problem.is_worse(bnd, threshold) {
                    proof {
                        broadcast use vstd::multiset::group_multiset_axioms;
                        broadcast use vstd::seq_lib::group_to_multiset_ensures;

                        assert(child == pruned[j0]);
                        assert(pruned.contains(child));
                        assert(pruned.to_multiset().count(child) > 0);
                        assert(all.contains(child));
                        let i = choose|i: int| 0 <= i < all.len() && all[i] == child;
                        lemma_reachable_child(problem, cs, i);
                    }
                    queue.push(Node { state: child, bound: bnd });
                    proof {
                        broadcast use vstd::multiset::group_multiset_axioms;

                        assert(node_states(queue@) =~= node_states(qb).push(child));
                        lemma_solutions_below_push(problem, node_states(qb), child);
                        lemma_total_size_push(problem, node_states(qb), child);
                        assert(queue@[qb.len() as int].state == pruned[j0]);
                        assert forall|j: int|
                            0 <= j < j0 + 1 implies (exists|i: int| 0 <= i < queue@.len() && #[trigger] queue@[i].state == pruned[j])
                                || score(goal, problem.spec_bound(#[trigger] pruned[j])) < score(goal, threshold) by {
                            if j < j0 {
                                if exists|i: int| 0 <= i < qb.len() && #[trigger] qb[i].state == pruned[j] {
                                    let i = choose|i: int| 0 <= i < qb.len() && #[trigger] qb[i].state == pruned[j];
                                    assert(queue@[i] == qb[i]);
                                }
                            }
                        }
                    }
                } else {
                    proof {
                        broadcast use vstd::multiset::group_multiset_axioms;

                        assert(child == pruned[j0]);
                        assert forall|j: int|
                            0 <= j < j0 + 1 implies (exists|i: int| 0 <= i < queue@.len() && #[trigger] queue@[i].state == pruned[j])
                                || score(goal, problem.spec_bound(#[trigger] pruned[j])) < score(goal, threshold) by {
                        }
                        if problem.evaluates_purely() && admissible(problem) {
                            assert forall|x: ResultNode<S, V>| !c1.beats(x) implies #[trigger] solutions_below(
                                problem,
                                node_states(queue@),
                            ).count(x) >= solutions_below(problem, node_states(base)).count(x) + forest_solutions(
                                problem,
                                pruned.take(j0 + 1),
                                problem.subtree_size(cs),
                            ).count(x) by {
                                lemma_tree_beaten(problem, c1, child, x);
                            }
                        }
                    }
                }
            }
            proof {
                broadcast use vstd::multiset::group_multiset_axioms;
                broadcast use vstd::seq_lib::group_to_multiset_ensures;

                assert(pruned.take(pruned.len() as int) =~= pruned);
                if problem.evaluates_purely() {
                    let bb = problem.subtree_size(cs);
                    assert forall|i: int| 0 <= i < all.len() implies problem.subtree_size(#[trigger] all[i]) < bb by {
                        lemma_total_size_element(problem, all, i);
                    }
                    assert forall|i: int| 0 <= i < pruned.len() implies problem.subtree_size(#[trigger] pruned[i]) < bb by {
                        lemma_total_size_element(problem, pruned, i);
                    }
                    lemma_forest_whole(problem, all, bb);
                    lemma_forest_whole(problem, pruned, bb);
                    lemma_solutions_below_sub(problem, pruned, all);
                    assert(tree_solutions(problem, cs) == own_solution(problem, cs).add(forest_solutions(problem, all, bb)));
                    assert(collector.pool().add(solutions_below(problem, node_states(queue@))).subset_of(
                        all_solutions(problem),
                    ));
                }
                if problem.evaluates_purely() && admissible(problem) {
                    assert forall|x: ResultNode<S, V>| !collector.beats(x) implies #[trigger] collector.pool().count(x)
                        + solutions_below(problem, node_states(queue@)).count(x) >= all_solutions(problem).count(x) by {
                        assert forall|c: S| #[trigger] pruned.to_multiset().count(c) < all.to_multiset().count(c) implies tree_solutions(
                            problem,
                            c,
                        ).count(x) == 0 by {
                            lemma_tree_beaten(problem, c1, c, x);
                        }
                        lemma_solutions_below_count(problem, pruned, all, x);
                        if c0.beats(x) {
                            lemma_beats_grows(c0, c1, x);
                        }
                    }
                }
                if problem.evaluates_purely() && admissible(problem) {
                    assert forall|x: ResultNode<S, V>| #[trigger] is_solution(problem, x) implies collector.covers(x)
                        || exists|i: int| 0 <= i < queue@.len() && #[trigger] descends(problem, x.state, queue@[i].state) by {
                        if !collector.covers(x) {
                            if c0.covers(x) {
                                lemma_covers_grows(c0, c1, x);
                            }
                            let i = choose|i: int| 0 <= i < q0.len() && #[trigger] descends(problem, x.state, q0[i].state);
                            if i != b {
                                let ii = if i < b { i } else { i - 1 };
                                assert(queue@[ii] == base[ii]);
                                assert(descends(problem, x.state, queue@[ii].state));
                            } else if x.state == cs {
                                assert(c1.covers(x));
                            } else {
                                let j = lemma_descends_split(problem, x.state, cs);
                                let ch = all[j];
                                assert(all.contains(ch));
                                if pruned.to_multiset().count(ch) > 0 {
                                    assert(pruned.contains(ch));
                                    let jj = choose|jj: int| 0 <= jj < pruned.len() && pruned[jj] == ch;
                                    if exists|i2: int| 0 <= i2 < queue@.len() && #[trigger] queue@[i2].state == pruned[jj] {
                                        let i2 = choose|i2: int| 0 <= i2 < queue@.len() && #[trigger] queue@[i2].state == pruned[jj];
                                        assert(descends(problem, x.state, queue@[i2].state));
                                    } else {
                                        lemma_admissible_below(problem, x.state, ch);
                                    }
                                } else {
                                    assert(all.to_multiset().count(ch) > 0);
                                    lemma_admissible_below(problem, x.state, ch);
                                }
                            }
                        }
                    }
                }
            }
        }
        let ghost c = collector;
        let r = collector.into_sorted_vec();
        proof {
            broadcast use vstd::multiset::group_multiset_axioms;

            lemma_kept_results_bounded(&c, r@);
            lemma_entries_sub_pool(&c);
            assert forall|i: int| 0 <= i < r@.len() implies reachable(problem, (#[trigger] r@[i]).state) by {
                r@.to_multiset_ensures();
                assert(r@.to_multiset().count(r@[i]) > 0);
            }
            if problem.evaluates_purely() {
                lemma_search_outcome(problem, &c, r@);
                if admissible(problem) {
                    lemma_search_outcome_counted(problem, &c, r@);
                }
            }
        }
        r
    }
}

} // verus!
