//! Depth-first branch and bound.
use crate::bnb::{
    is_search_result,
    ObjectiveValue, ResultCollector, ResultNode, SearchProblem, SearchState, admissible, admitted,
    covers_below, descends, finds_top_k, is_solution, is_sorted_best_first, lemma_admissible_below,
    lemma_covers_grows, lemma_descends_split, lemma_grows_refl, lemma_grows_trans, lemma_kept_results_bounded,
    lemma_reachable_child, lemma_root_reachable, lemma_search_outcome, lemma_total_size_element,
    lemma_total_size_sub, pool_sound, reachable, score, sizes, total_size, pool_reached,
    tree_solutions, forest_solutions, solutions_below, all_solutions, own_solution,
    lemma_forest_whole, lemma_solutions_below_sub, lemma_solutions_below_push, lemma_entries_sub_pool,
    finds_top_k_counted, lemma_search_outcome_counted, lemma_beats_grows,
    lemma_tree_beaten, lemma_solutions_below_count,
};
use vstd::prelude::*;

verus! {

pub struct DfsSolver;

impl DfsSolver {
    /// Depth-first search: evaluates each state, then explores the children
    /// whose bound is not worse than the threshold at that time. Returns the
    /// best results found, best first, each at a reachable state. Where each
    /// state has one value, the results are solutions, never more often than
    /// they stand in the search tree; where moreover the bounds are
    /// admissible, they are the best `k` solutions of the tree, counted with
    /// multiplicity.
    pub fn search<S, V, P>(problem: &P, k: usize, initial_threshold: V) -> (r: Vec<ResultNode<S, V>>)
        where
            S: SearchState,
            V: ObjectiveValue,
            P: SearchProblem<S, V>,
        requires
            k > 0 || problem.spec_roots().len() == 0,
        ensures
            r@.len() <= k,
            is_sorted_best_first(problem.spec_goal(), r@),
            forall|i: int|
                0 <= i < r@.len() ==> admitted(problem.spec_goal(), initial_threshold, #[trigger] r@[i].value),
            forall|i: int| 0 <= i < r@.len() ==> reachable(problem, (#[trigger] r@[i]).state),
            problem.evaluates_purely() ==> forall|i: int| 0 <= i < r@.len() ==> is_solution(problem, #[trigger] r@[i]),
            problem.evaluates_purely() ==> r@.to_multiset().subset_of(all_solutions(problem)),
            problem.evaluates_purely() && admissible(problem) ==> finds_top_k(problem, k as nat, initial_threshold, r@),
            problem.evaluates_purely() && admissible(problem) ==> finds_top_k_counted(
                problem,
                k as nat,
                initial_threshold,
                r@,
            ),
            problem.evaluates_purely() && admissible(problem) ==> is_search_result(
                problem,
                k as nat,
                initial_threshold,
                r@,
            ),
    {
        let mut collector = ResultCollector::new(k, problem.goal(), initial_threshold);
        let roots = problem.root_states();
        let ghost rs = roots@;
        proof {
            broadcast use vstd::multiset::group_multiset_axioms;
        }
        for root in it: roots
            invariant
                it.seq() == rs,
                rs == problem.spec_roots(),
                collector.wf(),
                collector.capacity() == k,
                k > 0 || rs.len() == 0,
                collector.spec_goal() == problem.spec_goal(),
                collector.initial() == initial_threshold,
                pool_reached(problem, collector),
                problem.evaluates_purely() ==> pool_sound(problem, collector),
                problem.evaluates_purely() ==> collector.pool().subset_of(
                    solutions_below(problem, rs.take(it.index() as int)),
                ),
                problem.evaluates_purely() && admissible(problem) ==> forall|x: ResultNode<S, V>|
                    !collector.beats(x) ==> #[trigger] collector.pool().count(x) >= solutions_below(
                        problem,
                        rs.take(it.index() as int),
                    ).count(x),
                problem.evaluates_purely() && admissible(problem) ==> forall|j: int|
                    0 <= j < it.index() ==> covers_below(problem, collector, #[trigger] rs[j]),
        {
            let ghost before = collector;
            let ghost j0 = it.index();
            proof {
                lemma_root_reachable(problem, j0);
                assert(rs.take(j0 + 1) =~= rs.take(j0).push(root));
                lemma_solutions_below_push(problem, rs.take(j0), root);
            }
            Self::dfs(problem, root, &mut collector);
            proof {
                broadcast use vstd::multiset::group_multiset_axioms;

                if problem.evaluates_purely() && admissible(problem) {
                    assert forall|x: ResultNode<S, V>| !collector.beats(x) implies #[trigger] collector.pool().count(x)
                        >= solutions_below(problem, rs.take(j0 + 1)).count(x) by {
                        if before.beats(x) {
                            lemma_beats_grows(before, collector, x);
                        }
                    }
                    assert forall|j: int| 0 <= j < it.index() + 1 implies covers_below(problem, collector, #[trigger] rs[j]) by {
                        if j < it.index() {
                            assert forall|d: S| #[trigger] descends(problem, d, rs[j]) && problem.spec_value(d) is Some implies collector.covers(
                                ResultNode { state: d, value: problem.spec_value(d)->0 },
                            ) by {
                                lemma_covers_grows(before, collector, ResultNode { state: d, value: problem.spec_value(d)->0 });
                            }
                        }
                    }
                }
            }
        }
        let ghost c = collector;
        let r = collector.into_sorted_vec();
        proof {
            broadcast use vstd::multiset::group_multiset_axioms;

            lemma_kept_results_bounded(&c, r@);
            lemma_entries_sub_pool(&c);
            assert(rs.take(rs.len() as int) =~= rs);
            assert forall|i: int| 0 <= i < r@.len() implies reachable(problem, (#[trigger] r@[i]).state) by {
                r@.to_multiset_ensures();
                assert(r@.to_multiset().count(r@[i]) > 0);
            }
            if problem.evaluates_purely() {
                lemma_search_outcome(problem, &c, r@);
                if admissible(problem) {
                    lemma_search_outcome_counted(problem, &c, r@);
                }
                if admissible(problem) {
                    assert forall|x: ResultNode<S, V>| #[trigger] is_solution(problem, x) implies c.covers(x) by {
                        let i = choose|i: int| 0 <= i < rs.len() && #[trigger] descends(problem, x.state, rs[i]);
                        assert(covers_below(problem, c, rs[i]));
                    }
                }
            }
        }
        r
    }

    fn dfs<S, V, P>(problem: &P, state: S, collector: &mut ResultCollector<S, V>)
        where
            S: SearchState,
            V: ObjectiveValue,
            P: SearchProblem<S, V>,
        requires
            old(collector).wf(),
            old(collector).capacity() > 0,
            old(collector).spec_goal() == problem.spec_goal(),
            reachable(problem, state),
            pool_reached(problem, *old(collector)),
            problem.evaluates_purely() ==> pool_sound(problem, *old(collector)),
        ensures
            final(collector).wf(),
            old(collector).grows_to(*final(collector)),
            pool_reached(problem, *final(collector)),
            problem.evaluates_purely() ==> pool_sound(problem, *final(collector)),
            problem.evaluates_purely() ==> final(collector).pool().subset_of(
                old(collector).pool().add(tree_solutions(problem, state)),
            ),
            problem.evaluates_purely() && admissible(problem) ==> forall|x: ResultNode<S, V>|
                !final(collector).beats(x) ==> #[trigger] final(collector).pool().count(x) >= old(
                    collector,
                ).pool().count(x) + tree_solutions(problem, state).count(x),
            problem.evaluates_purely() && admissible(problem) ==> covers_below(problem, *final(collector), state),
        decreases problem.subtree_size(state),
    {
        let ghost c0 = *collector;
        let ghost s0 = state;
        // Evaluation
        let value = problem.evaluate(&state);
        let mut children = problem.branch(&state);
        let ghost all = children@;
        let kept_state = state.clone();
        if let Some(val) = value {
            collector.add(state, val);
        } else {
            proof {
                lemma_grows_refl(c0);
            }
        }
        let ghost c1 = *collector;
        proof {
            broadcast use vstd::multiset::group_multiset_axioms;

            assert forall|x: ResultNode<S, V>| #[trigger] c1.pool().count(x) > 0 implies reachable(problem, x.state) by {
                if c0.pool().count(x) == 0 {
                    assert(x == ResultNode { state: s0, value: value->0 });
                }
            }
            if problem.evaluates_purely() {
                assert forall|x: ResultNode<S, V>| #[trigger] c1.pool().count(x) > 0 implies is_solution(problem, x) by {
                    if c0.pool().count(x) == 0 {
                        assert(x == ResultNode { state: s0, value: value->0 });
                    }
                }
                assert(c1.pool().subset_of(c0.pool().add(own_solution(problem, s0))));
                if admissible(problem) {
                    assert forall|x: ResultNode<S, V>| !c1.beats(x) implies #[trigger] c1.pool().count(x) >= c0.pool().count(x)
                        + own_solution(problem, s0).count(x) by {
                        assert(c0.pool().count(x) <= c1.pool().count(x));
                    }
                }
            }
        }
        let threshold = collector.threshold();
        problem.prune_children(&kept_state, &mut children, threshold);
        let ghost pruned = children@;
        proof {
            assert(sizes(problem, all) =~= all.map_values(|c: S| problem.subtree_size(c)));
            lemma_total_size_sub(problem, pruned, all);
            assert(pruned.take(0) =~= Seq::<S>::empty());
        }
        for child in it: children
            invariant
                collector.wf(),
                c1.grows_to(*collector),
                c0.grows_to(c1),
                collector.capacity() > 0,
                collector.spec_goal() == problem.spec_goal(),
                score(problem.spec_goal(), threshold) == c1.threshold_score(),
                it.seq() == pruned,
                s0 == state,
                all == problem.spec_children(s0),
                pruned.to_multiset().subset_of(all.to_multiset()),
                total_size(problem, pruned) < problem.subtree_size(s0),
                reachable(problem, s0),
                pool_reached(problem, *collector),
                problem.evaluates_purely() ==> pool_sound(problem, *collector),
                problem.evaluates_purely() ==> collector.pool().subset_of(
                    c1.pool().add(forest_solutions(problem, pruned.take(it.index() as int), problem.subtree_size(s0))),
                ),
                problem.evaluates_purely() && admissible(problem) ==> forall|x: ResultNode<S, V>|
                    !collector.beats(x) ==> #[trigger] collector.pool().count(x) >= c1.pool().count(x)
                        + forest_solutions(problem, pruned.take(it.index() as int), problem.subtree_size(s0)).count(x),
                problem.evaluates_purely() && admissible(problem) ==> forall|j: int, d: S|
                    0 <= j < it.index() && #[trigger] descends(problem, d, pruned[j])
                        && problem.spec_value(d) is Some ==> collector.covers(
                        ResultNode { state: d, value: problem.spec_value(d)->0 },
                    ),
        {
            proof {
                lemma_total_size_element(problem, pruned, it.index());
            }
            let ghost before = *collector;
            let ghost j0 = it.index();
            assert(child == pruned[j0]);
            proof {
                assert(pruned.take(j0 + 1).drop_last() =~= pruned.take(j0));
                assert(pruned.take(j0 + 1).last() == child);
            }
            let b = problem.bound(&child);
            let worse = problem.is_worse(b, threshold);
            if !worse {
                proof {
                    broadcast use vstd::multiset::group_multiset_axioms;
                    broadcast use vstd::seq_lib::group_to_multiset_ensures;

                    assert(pruned.contains(child));
                    assert(pruned.to_multiset().count(child) > 0);
                    assert(all.contains(child));
                    let i = choose|i: int| 0 <= i < all.len() && all[i] == child;
                    lemma_reachable_child(problem, s0, i);
                }
                Self::dfs(problem, child, collector);
                proof {
                    broadcast use vstd::multiset::group_multiset_axioms;

                    lemma_grows_trans(c1, before, *collector);
                    if problem.evaluates_purely() && admissible(problem) {
                        assert forall|x: ResultNode<S, V>| !collector.beats(x) implies #[trigger] collector.pool().count(x)
                            >= c1.pool().count(x) + forest_solutions(problem, pruned.take(j0 + 1), problem.subtree_size(s0)).count(x) by {
                            if before.beats(x) {
                                lemma_beats_grows(before, *collector, x);
                            }
                        }
                    }
                    if problem.evaluates_purely() {
                        assert(collector.pool().subset_of(
                            c1.pool().add(forest_solutions(problem, pruned.take(j0 + 1), problem.subtree_size(s0))),
                        ));
                    }
                }
            } else {
                proof {
                    broadcast use vstd::multiset::group_multiset_axioms;

                    lemma_grows_refl(before);
                    if problem.evaluates_purely() && admissible(problem) {
                        assert forall|x: ResultNode<S, V>| !collector.beats(x) implies #[trigger] collector.pool().count(x)
                            >= c1.pool().count(x) + forest_solutions(problem, pruned.take(j0 + 1), problem.subtree_size(s0)).count(x) by {
                            lemma_tree_beaten(problem, *collector, child, x);
                        }
                    }
                    if problem.evaluates_purely() {
                        assert(collector.pool().subset_of(
                            c1.pool().add(forest_solutions(problem, pruned.take(j0 + 1), problem.subtree_size(s0))),
                        ));
                    }
                }
            }
            proof {
                if problem.evaluates_purely() && admissible(problem) {
                    assert forall|j: int, d: S|
                        0 <= j < j0 + 1 && #[trigger] descends(problem, d, pruned[j])
                            && problem.spec_value(d) is Some implies collector.covers(
                            ResultNode { state: d, value: problem.spec_value(d)->0 },
                        ) by {
                        let x = ResultNode { state: d, value: problem.spec_value(d)->0 };
                        if j < j0 {
                            lemma_covers_grows(before, *collector, x);
                        } else {
                            if worse {
                                lemma_admissible_below(problem, d, pruned[j]);
                            }
                        }
                    }
                }
            }
        }
        proof {
            broadcast use vstd::multiset::group_multiset_axioms;
            broadcast use vstd::seq_lib::group_to_multiset_ensures;

            lemma_grows_trans(c0, c1, *collector);
            if problem.evaluates_purely() {
                let b = problem.subtree_size(s0);
                assert(pruned.take(pruned.len() as int) =~= pruned);
                assert forall|i: int| 0 <= i < all.len() implies problem.subtree_size(#[trigger] all[i]) < b by {
                    assert(sizes(problem, all) =~= all.map_values(|c: S| problem.subtree_size(c)));
                    lemma_total_size_element(problem, all, i);
                }
                assert forall|i: int| 0 <= i < pruned.len() implies problem.subtree_size(#[trigger] pruned[i]) < b by {
                    lemma_total_size_element(problem, pruned, i);
                }
                lemma_forest_whole(problem, all, b);
                lemma_forest_whole(problem, pruned, b);
                lemma_solutions_below_sub(problem, pruned, all);
                assert(tree_solutions(problem, s0) == own_solution(problem, s0).add(forest_solutions(problem, all, b)));
                assert(collector.pool().subset_of(c0.pool().add(tree_solutions(problem, s0))));
                if admissible(problem) {
                    assert forall|x: ResultNode<S, V>| !collector.beats(x) implies #[trigger] collector.pool().count(x)
                        >= c0.pool().count(x) + tree_solutions(problem, s0).count(x) by {
                        assert forall|c: S| #[trigger] pruned.to_multiset().count(c) < all.to_multiset().count(c) implies tree_solutions(
                            problem,
                            c,
                        ).count(x) == 0 by {
                            lemma_tree_beaten(problem, *collector, c, x);
                        }
                        lemma_solutions_below_count(problem, pruned, all, x);
                        if c1.beats(x) {
                            lemma_beats_grows(c1, *collector, x);
                        }
                    }
                }
            }
            if problem.evaluates_purely() && admissible(problem) {
                assert forall|d: S| #[trigger] descends(problem, d, s0) && problem.spec_value(d) is Some implies collector.covers(
                    ResultNode { state: d, value: problem.spec_value(d)->0 },
                ) by {
                    let x = ResultNode { state: d, value: problem.spec_value(d)->0 };
                    if d == s0 {
                        assert(c1.covers(x));
                        lemma_covers_grows(c1, *collector, x);
                    } else {
                        let j = lemma_descends_split(problem, d, s0);
                        let ch = all[j];
                        assert(all.contains(ch));
                        if pruned.to_multiset().count(ch) > 0 {
                            assert(pruned.contains(ch));
                            let jj = choose|jj: int| 0 <= jj < pruned.len() && pruned[jj] == ch;
                            assert(descends(problem, d, pruned[jj]));
                        } else {
                            assert(all.to_multiset().count(ch) > 0);
                            lemma_admissible_below(problem, d, ch);
                        }
                    }
                }
            }
        }
    }
}

} // verus!
