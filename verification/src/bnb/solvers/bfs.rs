//! Breadth-first branch and bound: the work done for one state of a level.
use crate::bnb::{
    ObjectiveValue, SearchProblem, SearchState, lemma_total_size_push, lemma_total_size_sub,
    lemma_total_size_take, score, sizes, total_size,
};
use vstd::prelude::*;

verus! {

pub struct BfsSolver;

/// The states of a list of expanded children.
pub open spec fn child_states<S, V>(r: Seq<(S, Option<V>)>) -> Seq<S> {
    r.map_values(|p: (S, Option<V>)| p.0)
}

/// The states of `cs` whose bound is not worse than `threshold`, in order.
pub open spec fn within_bound<S: SearchState, V: ObjectiveValue, P: SearchProblem<S, V>>(
    p: &P,
    cs: Seq<S>,
    threshold: V,
) -> Seq<S>
    decreases cs.len(),
{
    if cs.len() == 0 {
        Seq::empty()
    } else {
        let rest = within_bound(p, cs.drop_last(), threshold);
        if score(p.spec_goal(), p.spec_bound(cs.last())) < score(p.spec_goal(), threshold) {
            rest
        } else {
            rest.push(cs.last())
        }
    }
}

impl BfsSolver {
    /// Expands one state of a level: branches it, prunes the children against
    /// `threshold`, and returns, in order, each remaining child whose bound is
    /// not worse than `threshold`, with its evaluation. The children returned
    /// carry less search measure than their parent, so that a level-by-level
    /// search ends.
    pub fn expand<S, V, P>(problem: &P, state: &S, threshold: V) -> (r: Vec<(S, Option<V>)>)
        where
            S: SearchState,
            V: ObjectiveValue,
            P: SearchProblem<S, V>,
        ensures
            exists|pruned: Seq<S>|
                #![trigger pruned.to_multiset()]
                {
                    &&& pruned.to_multiset().subset_of(problem.spec_children(*state).to_multiset())
                    &&& forall|c: S|
                        #[trigger] pruned.to_multiset().count(c) < problem.spec_children(
                            *state,
                        ).to_multiset().count(c) ==> score(problem.spec_goal(), problem.spec_bound(c))
                            < score(problem.spec_goal(), threshold)
                    &&& child_states(r@) == within_bound(problem, pruned, threshold)
                },
            problem.evaluates_purely() ==> forall|i: int|
                0 <= i < r@.len() ==> (#[trigger] r@[i]).1 == problem.spec_value(r@[i].0),
            total_size(problem, child_states(r@)) < problem.subtree_size(*state),
    {
        let mut children = problem.branch(state);
        let ghost all = children@;
        problem.prune_children(state, &mut children, threshold);
        let ghost pruned = children@;
        proof {
            assert(sizes(problem, all) =~= all.map_values(|c: S| problem.subtree_size(c)));
            lemma_total_size_sub(problem, pruned, all);
            assert(pruned.take(0) =~= Seq::<S>::empty());
            assert(child_states(Seq::<(S, Option<V>)>::empty()) =~= Seq::<S>::empty());
            assert(sizes(problem, Seq::<S>::empty()) =~= Seq::<nat>::empty());
        }
        let mut out: Vec<(S, Option<V>)> = Vec::new();
        for child in it: children
            invariant
                it.seq() == pruned,
                total_size(problem, pruned) < problem.subtree_size(*state),
                child_states(out@) == within_bound(problem, pruned.take(it.index()), threshold),
                total_size(problem, child_states(out@)) <= total_size(problem, pruned.take(it.index())),
                problem.evaluates_purely() ==> forall|i: int|
                    0 <= i < out@.len() ==> (#[trigger] out@[i]).1 == problem.spec_value(out@[i].0),
        {
            let ghost j = it.index();
            proof {
                lemma_total_size_take(problem, pruned, j);
                assert(pruned.take(j + 1).drop_last() =~= pruned.take(j));
                assert(pruned.take(j + 1).last() == child);
            }
            let b = problem.bound(&child);
            if !problem.is_worse(b, threshold) {
                let val = problem.evaluate(&child);
                let ghost before = out@;
                out.push((child, val));
                proof {
                    assert(child_states(out@) =~= child_states(before).push(child));
                    lemma_total_size_push(problem, child_states(before), child);
                }
            }
        }
        proof {
            assert(pruned.take(pruned.len() as int) =~= pruned);
        }
        out
    }
}

} // verus!
