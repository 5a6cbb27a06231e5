//! The Kingfisher search space: which attribute sets are explored, and which
//! rules each of them yields. The statistical measures that rank the rules
//! are computed outside this library.
use crate::bnb::SearchState;
use crate::matrix::{BitMatrix, lemma_count_true_le_len};
use crate::rules::Rule;
use vstd::multiset::Multiset;
use vstd::prelude::*;

verus! {

/// A node of the search: a set of attributes, in increasing order, and the
/// number of rows that hold all of them.
#[derive(Clone, Debug)]
pub struct KingfisherState {
    pub path: Vec<usize>,
    pub freq: usize,
}

impl SearchState for KingfisherState {
    type Key = Vec<usize>;

    fn key(&self) -> (k: Vec<usize>)
        ensures
            k@ == self.path@,
    {
        let k = self.path.clone();
        proof {
            assert(k@ =~= self.path@);
        }
        k
    }

    fn depth(&self) -> (d: usize)
        ensures
            d == self.path@.len(),
    {
        self.path.len()
    }
}

/// Whether `a` is in an optional list.
pub open spec fn listed(list: Option<Vec<usize>>, a: usize) -> bool {
    match list {
        Some(v) => v@.contains(a),
        None => false,
    }
}

/// Whether a vector holds a value.
fn vec_contains(v: &Vec<usize>, a: usize) -> (r: bool)
    ensures
        r == v@.contains(a),
{
    for i in 0..v.len()
        invariant
            forall|j: int| 0 <= j < i ==> v@[j] != a,
    {
        if v[i] == a {
            return true;
        }
    }
    false
}

/// Whether `a` is in an optional list.
fn option_contains(list: &Option<Vec<usize>>, a: usize) -> (r: bool)
    ensures
        r == listed(*list, a),
{
    match list {
        Some(v) => vec_contains(v, a),
        None => false,
    }
}

/// A sequence in strictly increasing order.
pub open spec fn is_strictly_increasing(s: Seq<usize>) -> bool {
    forall|i: int, j: int| 0 <= i < j < s.len() ==> #[trigger] s[i] < #[trigger] s[j]
}

/// The number of attributes below `a` that are not in the path.
pub open spec fn absent_below(path: Seq<usize>, a: nat) -> nat
    decreases a,
{
    if a == 0 {
        0
    } else {
        absent_below(path, (a - 1) as nat) + if path.contains((a - 1) as usize) {
            0nat
        } else {
            1nat
        }
    }
}

/// Counting absent attributes further along never gives fewer.
pub proof fn lemma_absent_below_grows(path: Seq<usize>, a: nat, b: nat)
    requires
        a <= b,
    ensures
        absent_below(path, a) <= absent_below(path, b),
    decreases b,
{
    if a < b {
        lemma_absent_below_grows(path, a, (b - 1) as nat);
    }
}

/// A sequence in non-decreasing order.
pub open spec fn is_ascending(s: Seq<usize>) -> bool {
    forall|i: int, j: int| 0 <= i < j < s.len() ==> #[trigger] s[i] <= #[trigger] s[j]
}

/// Sorts a vector in non-decreasing order.
pub fn sort_ascending(v: Vec<usize>) -> (r: Vec<usize>)
    ensures
        is_ascending(r@),
        r@.to_multiset() == v@.to_multiset(),
{
    let mut out: Vec<usize> = Vec::new();
    let mut k: usize = 0;
    proof {
        broadcast use vstd::seq_lib::group_to_multiset_ensures;
        assert(v@.take(0) =~= Seq::<usize>::empty());
        assert(out@.to_multiset() =~= Multiset::empty());
        assert(v@.take(0).to_multiset() =~= Multiset::empty());
    }
    while k < v.len()
        invariant
            0 <= k <= v@.len(),
            is_ascending(out@),
            out@.to_multiset() == v@.take(k as int).to_multiset(),
        decreases v@.len() - k,
    {
        let x = v[k];
        let mut pos: usize = out.len();
        while pos > 0 && out[pos - 1] > x
            invariant
                0 <= pos <= out@.len(),
                forall|j: int| pos <= j < out@.len() ==> #[trigger] out@[j] > x,
            decreases pos,
        {
            pos -= 1;
        }
        let ghost before = out@;
        out.insert(pos, x);
        proof {
            assert forall|i: int, j: int| 0 <= i < j < out@.len() implies #[trigger] out@[i]
                <= #[trigger] out@[j] by {
                if i < pos && j > pos {
                    assert(out@[i] == before[i]);
                    assert(out@[j] == before[j - 1]);
                } else if i < pos && j == pos {
                    assert(out@[i] == before[i]);
                    if i < pos - 1 {
                        assert(before[i] <= before[pos - 1]);
                    }
                } else if i == pos {
                    assert(out@[j] == before[j - 1]);
                } else if i > pos {
                    assert(out@[i] == before[i - 1]);
                    assert(out@[j] == before[j - 1]);
                } else {
                    assert(out@[i] == before[i]);
                    assert(out@[j] == before[j]);
                }
            }
            v@.take(k + 1).to_multiset_ensures();
            v@.take(k as int).to_multiset_ensures();
            assert(v@.take(k + 1) =~= v@.take(k as int).push(x));
            out@.to_multiset_ensures();
            assert(out@.remove(pos as int) =~= before);
            assert(out@[pos as int] == x);
            assert(out@.contains(x));
            assert(out@.to_multiset() =~= before.to_multiset().insert(x));
        }
        k += 1;
    }
    proof {
        assert(v@.take(v@.len() as int) =~= v@);
    }
    out
}

/// A rule that a search state yields, with the counts of its contingency table.
pub struct RuleCandidate {
    pub antecedent: Vec<usize>,
    pub consequent: usize,
    /// Rows that hold the antecedent.
    pub frequency_x: usize,
    /// Rows that hold the antecedent and the consequent.
    pub frequency_xa: usize,
    /// Rows that hold the consequent.
    pub frequency_a: usize,
    /// Rows that hold the antecedent and not the consequent.
    pub frequency_x_not_a: usize,
    /// Rows that do not hold the consequent.
    pub frequency_not_a: usize,
}

impl RuleCandidate {
    /// The rule of this candidate with the given measure (bits of a
    /// binary64): a positive rule counts the rows with the consequent, a
    /// negative one the rows without it.
    pub fn to_rule(&self, is_negative: bool, measure_bits: u64) -> (r: Rule)
        ensures
            r.antecedent@ == self.antecedent@,
            r.consequent == self.consequent,
            r.is_negative == is_negative,
            r.measure_bits == measure_bits,
            r.frequency_x == self.frequency_x,
            r.frequency_xa == if is_negative { self.frequency_x_not_a } else { self.frequency_xa },
            r.frequency_a == if is_negative { self.frequency_not_a } else { self.frequency_a },
    {
        let antecedent = self.antecedent.clone();
        proof {
            assert(antecedent@ =~= self.antecedent@);
        }
        Rule {
            antecedent,
            consequent: self.consequent,
            is_negative,
            measure_bits,
            frequency_x: self.frequency_x,
            frequency_xa: if is_negative { self.frequency_x_not_a } else { self.frequency_xa },
            frequency_a: if is_negative { self.frequency_not_a } else { self.frequency_a },
        }
    }

    /// The paths of the rules one step more general than this one: for each
    /// attribute of the antecedent, the rule without it, as its attributes
    /// (antecedent and consequent) in ascending order.
    pub fn generalizations(&self) -> (r: Vec<Vec<usize>>)
        ensures
            r@.len() == self.antecedent@.len(),
            forall|i: int|
                0 <= i < r@.len() ==> is_ascending((#[trigger] r@[i])@) && r@[i]@.to_multiset()
                    == self.antecedent@.remove(i).push(self.consequent).to_multiset(),
    {
        let mut out: Vec<Vec<usize>> = Vec::new();
        for i in 0..self.antecedent.len()
            invariant
                out@.len() == i,
                forall|j: int|
                    0 <= j < i ==> is_ascending((#[trigger] out@[j])@) && out@[j]@.to_multiset()
                        == self.antecedent@.remove(j).push(self.consequent).to_multiset(),
        {
            let mut p_ant = self.antecedent.clone();
            proof {
                assert(p_ant@ =~= self.antecedent@);
            }
            p_ant.remove(i);
            p_ant.push(self.consequent);
            let p_full = sort_ascending(p_ant);
            out.push(p_full);
        }
        out
    }
}

/// The path without any occurrence of `c`.
pub open spec fn antecedent_of(path: Seq<usize>, c: usize) -> Seq<usize> {
    path.filter(other_than(c))
}

/// The test "is not `c`".
pub open spec fn other_than(c: usize) -> spec_fn(usize) -> bool {
    |x: usize| x != c
}

/// Every attribute of an antecedent is an attribute of the path.
pub proof fn lemma_antecedent_in_path(path: Seq<usize>, c: usize)
    ensures
        forall|i: int|
            0 <= i < antecedent_of(path, c).len() ==> path.contains(#[trigger] antecedent_of(path, c)[i])
                && antecedent_of(path, c)[i] != c,
    decreases path.len(),
{
    if path.len() == 0 {
        reveal(Seq::filter);
    } else {
        let rest = path.drop_last();
        lemma_antecedent_in_path(rest, c);
        assert(rest.push(path.last()) =~= path);
        rest.lemma_filter_push(path.last(), other_than(c));
        assert forall|i: int| 0 <= i < antecedent_of(path, c).len() implies path.contains(
            #[trigger] antecedent_of(path, c)[i],
        ) && antecedent_of(path, c)[i] != c by {
            if i < antecedent_of(rest, c).len() {
                assert(antecedent_of(path, c)[i] == antecedent_of(rest, c)[i]);
                let k = choose|k: int| 0 <= k < rest.len() && rest[k] == antecedent_of(rest, c)[i];
                assert(path[k] == rest[k]);
            } else {
                assert(antecedent_of(path, c)[i] == path.last());
                assert(path[path.len() - 1] == path.last());
            }
        }
    }
}

/// The search settings of Kingfisher that are independent of the measure.
pub struct KingfisherProblem {
    pub matrix: BitMatrix,
    pub l_max: usize,
    pub min_fr: usize,
    pub t_type: u8,
    pub measure_type: u8,
    pub required_consequents: Option<Vec<usize>>,
    pub excluded_consequents: Option<Vec<usize>>,
    pub excluded_attributes: Option<Vec<usize>>,
    pub constraints: Option<Vec<(usize, usize)>>,
    pub consequent_only: Option<Vec<usize>>,
}

impl KingfisherProblem {
    /// The search settings, as given.
    pub fn new(
        matrix: BitMatrix,
        l_max: usize,
        min_fr: usize,
        t_type: u8,
        measure_type: u8,
        required_consequents: Option<Vec<usize>>,
        excluded_consequents: Option<Vec<usize>>,
        excluded_attributes: Option<Vec<usize>>,
        constraints: Option<Vec<(usize, usize)>>,
        consequent_only: Option<Vec<usize>>,
    ) -> (p: Self)
        ensures
            p.matrix == matrix,
            p.l_max == l_max,
            p.min_fr == min_fr,
            p.t_type == t_type,
            p.measure_type == measure_type,
            p.required_consequents == required_consequents,
            p.excluded_consequents == excluded_consequents,
            p.excluded_attributes == excluded_attributes,
            p.constraints == constraints,
            p.consequent_only == consequent_only,
    {
        KingfisherProblem {
            matrix,
            l_max,
            min_fr,
            t_type,
            measure_type,
            required_consequents,
            excluded_consequents,
            excluded_attributes,
            constraints,
            consequent_only,
        }
    }

    /// The number of consequent-only attributes in a path.
    pub open spec fn co_count(&self, path: Seq<usize>) -> nat
        decreases path.len(),
    {
        if path.len() == 0 {
            0
        } else {
            self.co_count(path.drop_last()) + if listed(self.consequent_only, path.last()) {
                1nat
            } else {
                0nat
            }
        }
    }

    /// Attribute `a` starts a search: it is not excluded and frequent enough.
    pub open spec fn is_root(&self, a: int) -> bool {
        &&& 0 <= a < self.matrix.num_cols
        &&& !listed(self.excluded_attributes, a as usize)
        &&& self.matrix.attr_freqs@[a] >= self.min_fr
    }

    /// Attribute `a` extends `path`: it comes after the last attribute, it is
    /// not excluded, it is not consequent-only when the path already holds a
    /// consequent-only attribute, and the extended path is frequent enough.
    pub open spec fn is_child(&self, path: Seq<usize>, a: int) -> bool {
        &&& path.len() > 0
        &&& path.last() < a < self.matrix.num_cols
        &&& !listed(self.excluded_attributes, a as usize)
        &&& !(self.co_count(path) > 0 && listed(self.consequent_only, a as usize))
        &&& self.matrix.support(path.push(a as usize)) >= self.min_fr
    }

    /// Law: a path in strictly increasing order stays so when a child extends
    /// it; as the roots are single attributes, every path of the search lists
    /// a set of attributes in strictly increasing order, and no set is reached
    /// along two paths.
    pub proof fn lemma_child_path_increasing(&self, path: Seq<usize>, a: int)
        requires
            is_strictly_increasing(path),
            self.is_child(path, a),
        ensures
            is_strictly_increasing(path.push(a as usize)),
    {
        let q = path.push(a as usize);
        assert forall|i: int, j: int| 0 <= i < j < q.len() implies #[trigger] q[i] < #[trigger] q[j] by {
            if j == q.len() - 1 {
                if i < path.len() - 1 {
                    assert(path[i] < path[path.len() - 1]);
                }
            }
        }
    }

    /// The single-attribute states that are frequent enough, in increasing
    /// order of attribute. A consequent-only attribute may start a search.
    pub fn root_states(&self) -> (r: Vec<KingfisherState>)
        requires
            self.matrix.wf(),
        ensures
            forall|j: int|
                0 <= j < r@.len() ==> (#[trigger] r@[j]).path@.len() == 1 && self.is_root(
                    r@[j].path@[0] as int,
                ) && r@[j].freq == self.matrix.support(r@[j].path@),
            forall|j1: int, j2: int|
                0 <= j1 < j2 < r@.len() ==> (#[trigger] r@[j1]).path@[0] < (#[trigger] r@[j2]).path@[0],
            forall|a: int| #[trigger] self.is_root(a) ==> exists|j: int| 0 <= j < r@.len() && r@[j].path@[0] == a,
    {
        let mut out: Vec<KingfisherState> = Vec::new();
        for i in 0..self.matrix.num_cols
            invariant
                self.matrix.wf(),
                forall|j: int|
                    0 <= j < out@.len() ==> (#[trigger] out@[j]).path@.len() == 1 && self.is_root(
                        out@[j].path@[0] as int,
                    ) && out@[j].freq == self.matrix.support(out@[j].path@) && out@[j].path@[0] < i,
                forall|j1: int, j2: int|
                    0 <= j1 < j2 < out@.len() ==> (#[trigger] out@[j1]).path@[0] < (
                    #[trigger] out@[j2]).path@[0],
                forall|a: int|
                    0 <= a < i && #[trigger] self.is_root(a) ==> exists|j: int|
                        0 <= j < out@.len() && out@[j].path@[0] == a,
        {
            if !self.is_excluded(i) {
                let freq = self.matrix.attr_freqs[i];
                if freq >= self.min_fr {
                    let ghost before = out@;
                    out.push(KingfisherState { path: vec![i], freq });
                    proof {
                        self.matrix.lemma_support_single(i);
                        assert(out@[before.len() as int].path@ =~= seq![i]);
                        assert forall|a: int|
                            0 <= a < i + 1 && #[trigger] self.is_root(a) implies exists|j: int|
                                0 <= j < out@.len() && out@[j].path@[0] == a by {
                            if a < i {
                                let j = choose|j: int| 0 <= j < before.len() && before[j].path@[0] == a;
                                assert(out@[j] == before[j]);
                            } else {
                                assert(out@[before.len() as int].path@[0] == a);
                            }
                        }
                    }
                }
            }
        }
        out
    }

    /// The states one attribute longer than `state`, in increasing order of
    /// the added attribute; none once the path has `l_max` attributes or holds
    /// two consequent-only attributes.
    pub fn branch(&self, state: &KingfisherState) -> (r: Vec<KingfisherState>)
        requires
            self.matrix.wf(),
            state.path@.len() < self.l_max && self.co_count(state.path@) <= 1 ==> forall|i: int|
                0 <= i < state.path@.len() ==> #[trigger] state.path@[i] < self.matrix.num_cols,
            state.path@.len() > 0 || self.l_max == 0,
        ensures
            state.path@.len() >= self.l_max || self.co_count(state.path@) > 1 ==> r@.len() == 0,
            forall|j: int|
                0 <= j < r@.len() ==> (#[trigger] r@[j]).path@ == state.path@.push(r@[j].path@.last())
                    && self.is_child(state.path@, r@[j].path@.last() as int) && r@[j].freq
                    == self.matrix.support(r@[j].path@),
            forall|j1: int, j2: int|
                0 <= j1 < j2 < r@.len() ==> (#[trigger] r@[j1]).path@.last() < (
                #[trigger] r@[j2]).path@.last(),
            state.path@.len() < self.l_max && self.co_count(state.path@) <= 1 ==> forall|a: int|
                #[trigger] self.is_child(state.path@, a) ==> exists|j: int|
                    0 <= j < r@.len() && r@[j].path@.last() == a,
    {
        if state.path.len() >= self.l_max {
            return Vec::new();
        }
        let mut co_count: usize = 0;
        for k in 0..state.path.len()
            invariant
                co_count == self.co_count(state.path@.take(k as int)),
                co_count <= k,
        {
            proof {
                assert(state.path@.take(k + 1).drop_last() =~= state.path@.take(k as int));
            }
            if self.is_consequent_only(state.path[k]) {
                co_count += 1;
            }
        }
        proof {
            assert(state.path@.take(state.path@.len() as int) =~= state.path@);
        }
        if co_count > 1 {
            return Vec::new();
        }
        let last = state.path[state.path.len() - 1];
        let mut out: Vec<KingfisherState> = Vec::new();
        for i in last + 1..self.matrix.num_cols
            invariant
                self.matrix.wf(),
                forall|i2: int| 0 <= i2 < state.path@.len() ==> #[trigger] state.path@[i2] < self.matrix.num_cols,
                state.path@.len() > 0,
                last == state.path@.last(),
                co_count == self.co_count(state.path@),
                forall|j: int|
                    0 <= j < out@.len() ==> (#[trigger] out@[j]).path@ == state.path@.push(
                        out@[j].path@.last(),
                    ) && self.is_child(state.path@, out@[j].path@.last() as int) && out@[j].freq
                        == self.matrix.support(out@[j].path@) && out@[j].path@.last() < i,
                forall|j1: int, j2: int|
                    0 <= j1 < j2 < out@.len() ==> (#[trigger] out@[j1]).path@.last() < (
                    #[trigger] out@[j2]).path@.last(),
                forall|a: int|
                    a < i && #[trigger] self.is_child(state.path@, a) ==> exists|j: int|
                        0 <= j < out@.len() && out@[j].path@.last() == a,
        {
            let allowed = !self.is_excluded(i) && !(co_count > 0 && self.is_consequent_only(i));
            if allowed {
                let mut new_path = state.path.clone();
                proof {
                    assert(new_path@ =~= state.path@);
                }
                new_path.push(i);
                let freq = self.matrix.frequency(&new_path);
                if freq >= self.min_fr {
                    let ghost before = out@;
                    out.push(KingfisherState { path: new_path, freq });
                    proof {
                        assert forall|a: int|
                            a < i + 1 && #[trigger] self.is_child(state.path@, a) implies exists|j: int|
                                0 <= j < out@.len() && out@[j].path@.last() == a by {
                            if a < i {
                                let j = choose|j: int| 0 <= j < before.len() && before[j].path@.last() == a;
                                assert(out@[j] == before[j]);
                            } else {
                                assert(out@[before.len() as int].path@.last() == a);
                            }
                        }
                    }
                }
            }
        }
        out
    }

    /// `c` may be the consequent of a rule of `path`: it is a required
    /// consequent if any are required, it is not an excluded consequent, the
    /// rest of the path is not empty, holds no consequent-only attribute and
    /// breaks no compatibility constraint with `c`.
    pub open spec fn consequent_allowed(&self, path: Seq<usize>, c: usize) -> bool {
        &&& match self.required_consequents {
            Some(v) => v@.contains(c),
            None => true,
        }
        &&& !listed(self.excluded_consequents, c)
        &&& antecedent_of(path, c).len() > 0
        &&& forall|i: int|
            0 <= i < antecedent_of(path, c).len() ==> !listed(
                self.consequent_only,
                #[trigger] antecedent_of(path, c)[i],
            )
        &&& !self.spec_is_constrained(antecedent_of(path, c), c)
    }

    /// The test "may be a consequent of `path`".
    pub open spec fn allowed_pred(&self, path: Seq<usize>) -> spec_fn(usize) -> bool {
        |c: usize| self.consequent_allowed(path, c)
    }

    /// The consequents of the rules of `path`, in path order.
    pub open spec fn allowed_consequents(&self, path: Seq<usize>) -> Seq<usize> {
        path.filter(self.allowed_pred(path))
    }

    /// The rules that a state yields, one per allowed consequent of its path,
    /// in path order, each with its antecedent (the rest of the path) and its
    /// contingency counts. The count of rows with the antecedent and without
    /// the consequent is that of the antecedent less the state's frequency,
    /// and 0 where the state's frequency is the larger (no state of the
    /// search is so).
    pub fn rule_candidates(&self, state: &KingfisherState) -> (r: Vec<RuleCandidate>)
        requires
            self.matrix.wf(),
            forall|i: int| 0 <= i < state.path@.len() ==> #[trigger] state.path@[i] < self.matrix.num_cols,
        ensures
            r@.len() == self.allowed_consequents(state.path@).len(),
            forall|j: int|
                0 <= j < r@.len() ==> {
                    let c = self.allowed_consequents(state.path@)[j];
                    &&& (#[trigger] r@[j]).consequent == c
                    &&& r@[j].antecedent@ == antecedent_of(state.path@, c)
                    &&& r@[j].frequency_x == self.matrix.support(r@[j].antecedent@)
                    &&& r@[j].frequency_xa == state.freq
                    &&& r@[j].frequency_a == self.matrix.attr_freqs@[c as int]
                    &&& r@[j].frequency_x_not_a == if state.freq <= r@[j].frequency_x {
                        (r@[j].frequency_x - state.freq) as usize
                    } else {
                        0usize
                    }
                    &&& r@[j].frequency_not_a == self.matrix.num_rows - r@[j].frequency_a
                },
    {
        let ghost path = state.path@;
        let ghost pred = self.allowed_pred(path);
        let mut out: Vec<RuleCandidate> = Vec::new();
        let n = self.matrix.num_rows;
        proof {
            assert(path.take(0) =~= Seq::<usize>::empty());
            reveal(Seq::filter);
        }
        for k in 0..state.path.len()
            invariant
                self.matrix.wf(),
                path == state.path@,
                pred == self.allowed_pred(path),
                forall|i: int| 0 <= i < path.len() ==> #[trigger] path[i] < self.matrix.num_cols,
                n == self.matrix.num_rows,
                out@.len() == path.take(k as int).filter(pred).len(),
                forall|j: int|
                    0 <= j < out@.len() ==> {
                        let c = path.take(k as int).filter(pred)[j];
                        &&& (#[trigger] out@[j]).consequent == c
                        &&& out@[j].antecedent@ == antecedent_of(path, c)
                        &&& out@[j].frequency_x == self.matrix.support(out@[j].antecedent@)
                        &&& out@[j].frequency_xa == state.freq
                        &&& out@[j].frequency_a == self.matrix.attr_freqs@[c as int]
                        &&& out@[j].frequency_x_not_a == if state.freq <= out@[j].frequency_x {
                            (out@[j].frequency_x - state.freq) as usize
                        } else {
                            0usize
                        }
                        &&& out@[j].frequency_not_a == self.matrix.num_rows - out@[j].frequency_a
                    },
        {
            let consequent = state.path[k];
            proof {
                assert(path.take(k as int).push(consequent) =~= path.take(k + 1));
                path.take(k as int).lemma_filter_push(consequent, pred);
            }
            // 1. Check if consequent is allowed
            let required_ok = match &self.required_consequents {
                Some(req) => vec_contains(req, consequent),
                None => true,
            };
            let excluded = option_contains(&self.excluded_consequents, consequent);
            let mut antecedent: Vec<usize> = Vec::new();
            proof {
                assert(path.take(0) =~= Seq::<usize>::empty());
                reveal(Seq::filter);
            }
            for m in 0..state.path.len()
                invariant
                    path == state.path@,
                    antecedent@ == antecedent_of(path.take(m as int), consequent),
            {
                proof {
                    assert(path.take(m as int).push(path[m as int]) =~= path.take(m + 1));
                    path.take(m as int).lemma_filter_push(path[m as int], other_than(consequent));
                }
                if state.path[m] != consequent {
                    antecedent.push(state.path[m]);
                }
            }
            proof {
                assert(path.take(path.len() as int) =~= path);
                lemma_antecedent_in_path(path, consequent);
            }
            // 2. Check if any attribute in antecedent is "consequent_only"
            let mut has_co = false;
            for m in 0..antecedent.len()
                invariant
                    has_co == exists|i: int| 0 <= i < m && listed(self.consequent_only, #[trigger] antecedent@[i]),
            {
                if self.is_consequent_only(antecedent[m]) {
                    has_co = true;
                }
            }
            // 3. Check compatibility constraints
            let constrained = self.is_constrained(antecedent.as_slice(), consequent);
            let allowed = required_ok && !excluded && antecedent.len() > 0 && !has_co && !constrained;
            proof {
                assert(allowed == pred(consequent));
            }
            if allowed {
                proof {
                    self.matrix.lemma_support_subset(antecedent@, path);
                    lemma_count_true_le_len(self.matrix.column(consequent as int));
                }
                let freq_x_ant = self.matrix.frequency(antecedent.as_slice());
                let freq_a = self.matrix.attr_freqs[consequent];
                let ghost before = out@;
                out.push(RuleCandidate {
                    antecedent,
                    consequent,
                    frequency_x: freq_x_ant,
                    frequency_xa: state.freq,
                    frequency_a: freq_a,
                    frequency_x_not_a: if state.freq <= freq_x_ant {
                        freq_x_ant - state.freq
                    } else {
                        0
                    },
                    frequency_not_a: n - freq_a,
                });
                proof {
                    assert forall|j: int| 0 <= j < before.len() implies out@[j] == before[j] by {}
                }
            }
        }
        proof {
            assert(path.take(path.len() as int) =~= path);
        }
        out
    }

    /// Whether positive rules are mined.
    pub open spec fn mines_positive(&self) -> bool {
        self.t_type == 1 || self.t_type == 3
    }

    /// Whether a state's candidate is tried as a positive rule (`false`) and
    /// as a negative one (`true`), in that order, as the rule type asks.
    pub fn polarities(&self) -> (r: Vec<bool>)
        ensures
            r@ == (if self.mines_positive() {
                seq![false]
            } else {
                Seq::empty()
            }) + (if self.mines_negative() {
                seq![true]
            } else {
                Seq::empty()
            }),
    {
        let mut r: Vec<bool> = Vec::new();
        if self.t_type == 1 || self.t_type == 3 {
            r.push(false);
        }
        if self.t_type == 2 || self.t_type == 3 {
            r.push(true);
        }
        proof {
            let pos = if self.mines_positive() {
                seq![false]
            } else {
                Seq::empty()
            };
            let neg = if self.mines_negative() {
                seq![true]
            } else {
                Seq::empty()
            };
            assert(r@ =~= pos + neg);
        }
        r
    }

    /// Whether negative rules are mined.
    pub open spec fn mines_negative(&self) -> bool {
        self.t_type == 2 || self.t_type == 3
    }

    /// The consequent frequencies that bound the rules reachable from `path`
    /// through the attributes below `m`: for each attribute not in the path,
    /// its frequency (positive rules) and the count of rows without it
    /// (negative rules), as the rule types mined ask.
    pub open spec fn margins_upto(&self, path: Seq<usize>, m: nat) -> Seq<usize>
        decreases m,
    {
        if m == 0 {
            Seq::empty()
        } else {
            let a = (m - 1) as int;
            let f = self.matrix.attr_freqs@[a];
            let pos = if self.mines_positive() {
                seq![f]
            } else {
                Seq::empty()
            };
            let neg = if self.mines_negative() {
                seq![(self.matrix.num_rows - f) as usize]
            } else {
                Seq::empty()
            };
            self.margins_upto(path, (m - 1) as nat) + if path.contains(a as usize) {
                Seq::empty()
            } else {
                pos + neg
            }
        }
    }

    /// How many margins an attribute not in the path gives: one for each rule
    /// type mined.
    pub open spec fn kinds(&self) -> nat {
        (if self.mines_positive() {
            1nat
        } else {
            0nat
        }) + (if self.mines_negative() {
            1nat
        } else {
            0nat
        })
    }

    /// `r` holds the margins of attribute `a` at the place that the absent
    /// attributes before it leave: its frequency (positive rules), then the
    /// count of rows without it (negative rules).
    pub open spec fn margins_of(&self, path: Seq<usize>, r: Seq<usize>, a: int) -> bool {
        let j: int = (self.kinds() * absent_below(path, a as nat)) as int;
        let off: int = if self.mines_positive() {
            1
        } else {
            0
        };
        &&& self.mines_positive() ==> j < r.len() && r[j] == self.matrix.attr_freqs@[a]
        &&& self.mines_negative() ==> j + off < r.len() && r[j + off] == (self.matrix.num_rows
            - self.matrix.attr_freqs@[a]) as usize
    }

    /// Law: the margins of a path through the attributes below `m` give, for
    /// each attribute `a < m` not in the path and whatever its place with
    /// respect to the path's attributes, its frequency (positive rules) and
    /// the count of rows without it (negative rules), at the place fixed by
    /// the number of absent attributes before it; and nothing else.
    pub proof fn lemma_margins_cover_absent(&self, path: Seq<usize>, m: nat)
        requires
            m <= self.matrix.num_cols,
            self.matrix.attr_freqs@.len() == self.matrix.num_cols,
        ensures
            self.margins_upto(path, m).len() == self.kinds() * absent_below(path, m),
            forall|a: int|
                0 <= a < m && !path.contains(a as usize) ==> #[trigger] self.margins_of(
                    path,
                    self.margins_upto(path, m),
                    a,
                ),
        decreases m,
    {
        if m > 0 {
            let k = self.kinds();
            let r0 = self.margins_upto(path, (m - 1) as nat);
            let r = self.margins_upto(path, m);
            self.lemma_margins_cover_absent(path, (m - 1) as nat);
            let a0: int = m - 1;
            let f = self.matrix.attr_freqs@[a0];
            let pos = if self.mines_positive() {
                seq![f]
            } else {
                Seq::empty()
            };
            let neg = if self.mines_negative() {
                seq![(self.matrix.num_rows - f) as usize]
            } else {
                Seq::empty()
            };
            let extra = if path.contains(a0 as usize) {
                Seq::empty()
            } else {
                pos + neg
            };
            assert(r == r0 + extra);
            let c0 = absent_below(path, (m - 1) as nat);
            assert(k * (c0 + 1) == k * c0 + k) by (nonlinear_arith);
            assert(r0.len() == k * c0);
            assert(absent_below(path, m) == c0 + if path.contains(a0 as usize) { 0nat } else { 1nat });
            if path.contains(a0 as usize) {
                assert(r.len() == k * c0);
            } else {
                assert(extra.len() == k);
                assert(r.len() == k * c0 + k);
            }
            assert forall|a: int|
                0 <= a < m && !path.contains(a as usize) implies #[trigger] self.margins_of(path, r, a) by {
                if a < m - 1 {
                    assert(self.margins_of(path, r0, a));
                } else {
                    assert(a == a0);
                    assert(absent_below(path, a as nat) == c0);
                }
            }
        } else {
            let k = self.kinds();
            assert(k * 0 == 0) by (nonlinear_arith);
        }
    }

    /// The consequent frequencies against which the bound of a state is
    /// taken, in attribute order (positive before negative).
    pub fn bound_margins(&self, state: &KingfisherState) -> (r: Vec<usize>)
        requires
            self.matrix.wf(),
        ensures
            r@ == self.margins_upto(state.path@, self.matrix.num_cols as nat),
            r@.len() == self.kinds() * absent_below(state.path@, self.matrix.num_cols as nat),
            forall|a: int|
                0 <= a < self.matrix.num_cols && !state.path@.contains(a as usize) ==> #[trigger] self.margins_of(
                    state.path@,
                    r@,
                    a,
                ),
    {
        proof {
            self.lemma_margins_cover_absent(state.path@, self.matrix.num_cols as nat);
        }
        let n = self.matrix.num_rows;
        let mut out: Vec<usize> = Vec::new();
        for i in 0..self.matrix.num_cols
            invariant
                self.matrix.wf(),
                n == self.matrix.num_rows,
                out@ == self.margins_upto(state.path@, i as nat),
        {
            let ghost before = out@;
            if !vec_contains(&state.path, i) {
                let f = self.matrix.attr_freqs[i];
                proof {
                    lemma_count_true_le_len(self.matrix.column(i as int));
                }
                if self.t_type == 1 || self.t_type == 3 {
                    out.push(f);
                }
                if self.t_type == 2 || self.t_type == 3 {
                    out.push(n - f);
                }
                proof {
                    let pos = if self.mines_positive() {
                        seq![f]
                    } else {
                        Seq::empty()
                    };
                    let neg = if self.mines_negative() {
                        seq![(n - f) as usize]
                    } else {
                        Seq::empty()
                    };
                    assert(out@ =~= before + (pos + neg));
                }
            } else {
                proof {
                    assert(before + Seq::<usize>::empty() =~= before);
                }
            }
        }
        out
    }

    /// Whether the attribute may not appear in any rule.
    pub fn is_excluded(&self, attr: usize) -> (r: bool)
        ensures
            r == listed(self.excluded_attributes, attr),
    {
        option_contains(&self.excluded_attributes, attr)
    }

    /// Whether the attribute may only be a consequent.
    pub fn is_consequent_only(&self, attr: usize) -> (r: bool)
        ensures
            r == listed(self.consequent_only, attr),
    {
        option_contains(&self.consequent_only, attr)
    }

    /// Whether some pair `(a, b)` of the constraints has `a` in the
    /// antecedent and `b` as the consequent.
    pub open spec fn spec_is_constrained(&self, antecedent: Seq<usize>, consequent: usize) -> bool {
        match self.constraints {
            Some(c) => exists|i: int, j: int|
                0 <= i < antecedent.len() && 0 <= j < c@.len() && #[trigger] c@[j].0
                    == #[trigger] antecedent[i] && c@[j].1 == consequent,
            None => false,
        }
    }

    /// Law: a single attribute `a` as antecedent breaks a constraint with
    /// `consequent` exactly when the pair `(a, consequent)` is a constraint.
    pub proof fn lemma_constrained_single(&self, a: usize, consequent: usize)
        ensures
            self.spec_is_constrained(seq![a], consequent) <==> (self.constraints is Some && exists|j: int|
                0 <= j < self.constraints->0@.len() && #[trigger] self.constraints->0@[j] == (a, consequent)),
    {
        if let Some(c) = self.constraints {
            if self.spec_is_constrained(seq![a], consequent) {
                let (i, j) = choose|i: int, j: int|
                    0 <= i < 1 && 0 <= j < c@.len() && #[trigger] c@[j].0 == #[trigger] seq![a][i]
                        && c@[j].1 == consequent;
                assert(c@[j] == (a, consequent));
            }
            if exists|j: int| 0 <= j < c@.len() && #[trigger] c@[j] == (a, consequent) {
                let j = choose|j: int| 0 <= j < c@.len() && #[trigger] c@[j] == (a, consequent);
                assert(c@[j].0 == seq![a][0]);
            }
        }
    }

    /// Law: an antecedent breaks a constraint with `consequent` exactly when
    /// one of its attributes, at any place, does so alone.
    pub proof fn lemma_constrained_by_some_attribute(&self, antecedent: Seq<usize>, consequent: usize)
        ensures
            self.spec_is_constrained(antecedent, consequent) <==> exists|i: int|
                0 <= i < antecedent.len() && #[trigger] self.spec_is_constrained(seq![antecedent[i]], consequent),
    {
        if let Some(c) = self.constraints {
            if self.spec_is_constrained(antecedent, consequent) {
                let (i, j) = choose|i: int, j: int|
                    0 <= i < antecedent.len() && 0 <= j < c@.len() && #[trigger] c@[j].0
                        == #[trigger] antecedent[i] && c@[j].1 == consequent;
                assert(c@[j].0 == seq![antecedent[i]][0]);
                assert(self.spec_is_constrained(seq![antecedent[i]], consequent));
            }
            if exists|i: int|
                0 <= i < antecedent.len() && #[trigger] self.spec_is_constrained(seq![antecedent[i]], consequent) {
                let i = choose|i: int|
                    0 <= i < antecedent.len() && #[trigger] self.spec_is_constrained(seq![antecedent[i]], consequent);
                let (i2, j) = choose|i2: int, j: int|
                    0 <= i2 < 1 && 0 <= j < c@.len() && #[trigger] c@[j].0 == #[trigger] seq![antecedent[i]][i2]
                        && c@[j].1 == consequent;
                assert(c@[j].0 == antecedent[i]);
            }
        }
    }

    /// Whether the rule `antecedent => consequent` breaks a compatibility constraint.
    pub fn is_constrained(&self, antecedent: &[usize], consequent: usize) -> (r: bool)
        ensures
            r == self.spec_is_constrained(antecedent@, consequent),
    {
        if let Some(constr) = &self.constraints {
            for i in 0..antecedent.len()
                invariant
                    self.constraints == Some(*constr),
                    forall|i2: int, j: int|
                        0 <= i2 < i && 0 <= j < constr@.len() ==> !(#[trigger] constr@[j].0
                            == #[trigger] antecedent@[i2] && constr@[j].1 == consequent),
            {
                let ant_attr = antecedent[i];
                for j in 0..constr.len()
                    invariant
                        self.constraints == Some(*constr),
                        i < antecedent@.len(),
                        ant_attr == antecedent@[i as int],
                        forall|i2: int, j2: int|
                            0 <= i2 < i && 0 <= j2 < constr@.len() ==> !(#[trigger] constr@[j2].0
                                == #[trigger] antecedent@[i2] && constr@[j2].1 == consequent),
                        forall|j2: int|
                            0 <= j2 < j ==> !(#[trigger] constr@[j2].0 == ant_attr && constr@[j2].1
                                == consequent),
                {
                    let (a, b) = constr[j];
                    if a == ant_attr && b == consequent {
                        proof {
                            assert(constr@[j as int].0 == antecedent@[i as int]);
                            assert(constr@[j as int].1 == consequent);
                            let c = self.constraints.unwrap();
                            assert(c@[j as int].0 == antecedent@[i as int] && c@[j as int].1 == consequent);
                            assert(self.spec_is_constrained(antecedent@, consequent));
                        }
                        return true;
                    }
                }
            }
        }
        false
    }
}

} // verus!
