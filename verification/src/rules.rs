//! The mined rules and the top-K rule set.
//!
//! A rule's measure is a binary64 floating-point number (smaller is better).
//! The library holds it as its IEEE-754 bit pattern and orders it by
//! `measure_rank`: for any two binary64 values that are not NaN, `x < y`
//! holds exactly when the rank of the bits of `x` is below that of `y`, and
//! `+0.0` and `-0.0` share the rank 0.
use vstd::multiset::Multiset;
use vstd::prelude::*;

verus! {

/// Where the binary64 value with bit pattern `b` stands among all values:
/// its magnitude bits, negated when the sign bit is set.
pub open spec fn measure_rank(b: u64) -> int {
    if b >= 0x8000_0000_0000_0000 {
        -((b - 0x8000_0000_0000_0000) as int)
    } else {
        b as int
    }
}

/// Whether the bit pattern is that of a NaN: all exponent bits set and a
/// non-zero mantissa.
pub open spec fn is_nan_bits(b: u64) -> bool {
    let mag = if b >= 0x8000_0000_0000_0000 {
        b - 0x8000_0000_0000_0000
    } else {
        b as int
    };
    mag > 0x7FF0_0000_0000_0000
}

/// Compares two bit patterns as binary64 values: -1, 0 or 1, or `None`
/// when either is NaN (as `f64::partial_cmp` does).
pub fn compare_measures(a: u64, b: u64) -> (r: Option<i8>)
    ensures
        is_nan_bits(a) || is_nan_bits(b) ==> r is None,
        !is_nan_bits(a) && !is_nan_bits(b) ==> r == Some(
            if measure_rank(a) < measure_rank(b) {
                -1i8
            } else if measure_rank(a) > measure_rank(b) {
                1i8
            } else {
                0i8
            },
        ),
{
    let ma: u64 = if a >= 0x8000_0000_0000_0000 { a - 0x8000_0000_0000_0000 } else { a };
    let mb: u64 = if b >= 0x8000_0000_0000_0000 { b - 0x8000_0000_0000_0000 } else { b };
    if ma > 0x7FF0_0000_0000_0000 || mb > 0x7FF0_0000_0000_0000 {
        return None;
    }
    let na = a >= 0x8000_0000_0000_0000;
    let nb = b >= 0x8000_0000_0000_0000;
    // rank(x) = if negative { -mag } else { mag }
    let lt = if na && nb {
        ma > mb
    } else if na && !nb {
        ma > 0 || mb > 0
    } else if !na && nb {
        false
    } else {
        ma < mb
    };
    let gt = if na && nb {
        ma < mb
    } else if na && !nb {
        false
    } else if !na && nb {
        ma > 0 || mb > 0
    } else {
        ma > mb
    };
    if lt {
        Some(-1)
    } else if gt {
        Some(1)
    } else {
        Some(0)
    }
}

/// Lexicographic comparison of two sequences from index `i` on, as `Vec`'s
/// `Ord` has it: -1, 0 or 1.
pub open spec fn lex_from(a: Seq<usize>, b: Seq<usize>, i: int) -> int
    decreases a.len() - i,
{
    if i >= a.len() && i >= b.len() {
        0
    } else if i >= a.len() {
        -1
    } else if i >= b.len() {
        1
    } else if a[i] < b[i] {
        -1
    } else if a[i] > b[i] {
        1
    } else {
        lex_from(a, b, i + 1)
    }
}

/// Lexicographic comparison of two sequences: -1, 0 or 1.
pub open spec fn lex_order(a: Seq<usize>, b: Seq<usize>) -> int {
    lex_from(a, b, 0)
}

/// Swapping the sequences negates the comparison.
pub proof fn lemma_lex_from_antisym(a: Seq<usize>, b: Seq<usize>, i: int)
    requires
        0 <= i,
    ensures
        lex_from(a, b, i) == -lex_from(b, a, i),
        -1 <= lex_from(a, b, i) <= 1,
    decreases a.len() - i,
{
    if i < a.len() && i < b.len() && a[i] == b[i] {
        lemma_lex_from_antisym(a, b, i + 1);
    }
}

/// The lexicographic order is transitive.
pub proof fn lemma_lex_from_trans(a: Seq<usize>, b: Seq<usize>, c: Seq<usize>, i: int)
    requires
        0 <= i,
        lex_from(a, b, i) <= 0,
        lex_from(b, c, i) <= 0,
    ensures
        lex_from(a, c, i) <= 0,
        lex_from(a, c, i) == 0 ==> lex_from(a, b, i) == 0 && lex_from(b, c, i) == 0,
    decreases a.len() - i,
{
    if i < a.len() && i < b.len() && i < c.len() && a[i] == b[i] && b[i] == c[i] {
        lemma_lex_from_trans(a, b, c, i + 1);
    }
}

/// Compares two vectors lexicographically.
pub fn compare_seq(a: &Vec<usize>, b: &Vec<usize>) -> (r: i8)
    ensures
        r as int == lex_order(a@, b@),
{
    let mut i: usize = 0;
    while i < a.len() && i < b.len()
        invariant
            0 <= i <= a@.len(),
            i <= b@.len(),
            lex_order(a@, b@) == lex_from(a@, b@, i as int),
        decreases a@.len() - i,
    {
        if a[i] < b[i] {
            return -1;
        } else if a[i] > b[i] {
            return 1;
        }
        i += 1;
    }
    if i >= a.len() && i >= b.len() {
        0
    } else if i >= a.len() {
        -1
    } else {
        1
    }
}

/// A mined rule `antecedent => consequent` (or `=> not consequent`).
pub struct Rule {
    pub antecedent: Vec<usize>,
    pub consequent: usize,
    pub is_negative: bool,
    /// The IEEE-754 bit pattern of the measure value (`f64::to_bits`).
    pub measure_bits: u64,
    pub frequency_x: usize,
    pub frequency_xa: usize,
    pub frequency_a: usize,
}

/// The order of rules: by measure, then positive before negative, then by
/// antecedent (lexicographically), then by consequent. -1, 0 or 1.
pub open spec fn rule_order(a: Rule, b: Rule) -> int {
    if measure_rank(a.measure_bits) < measure_rank(b.measure_bits) {
        -1
    } else if measure_rank(a.measure_bits) > measure_rank(b.measure_bits) {
        1
    } else if !a.is_negative && b.is_negative {
        -1
    } else if a.is_negative && !b.is_negative {
        1
    } else if lex_order(a.antecedent@, b.antecedent@) != 0 {
        lex_order(a.antecedent@, b.antecedent@)
    } else if a.consequent < b.consequent {
        -1
    } else if a.consequent > b.consequent {
        1
    } else {
        0
    }
}

/// Swapping the rules negates the comparison.
pub proof fn lemma_rule_order_antisym(a: Rule, b: Rule)
    ensures
        rule_order(a, b) == -rule_order(b, a),
{
    lemma_lex_from_antisym(a.antecedent@, b.antecedent@, 0);
}

/// A rule ties with itself.
pub proof fn lemma_rule_order_refl(a: Rule)
    ensures
        rule_order(a, a) == 0,
{
    lemma_lex_from_antisym(a.antecedent@, a.antecedent@, 0);
}

/// The rule order is transitive, strictly so when either step is strict.
pub proof fn lemma_rule_order_trans(a: Rule, b: Rule, c: Rule)
    requires
        rule_order(a, b) <= 0,
        rule_order(b, c) <= 0,
    ensures
        rule_order(a, c) <= 0,
        rule_order(a, b) < 0 || rule_order(b, c) < 0 ==> rule_order(a, c) < 0,
{
    lemma_lex_from_antisym(a.antecedent@, b.antecedent@, 0);
    lemma_lex_from_antisym(b.antecedent@, c.antecedent@, 0);
    lemma_lex_from_antisym(a.antecedent@, c.antecedent@, 0);
    if lex_order(a.antecedent@, b.antecedent@) <= 0 && lex_order(b.antecedent@, c.antecedent@) <= 0 {
        lemma_lex_from_trans(a.antecedent@, b.antecedent@, c.antecedent@, 0);
    }
}

/// Compares two rules: -1, 0 or 1. Neither measure may be NaN.
pub fn compare_rules(a: &Rule, b: &Rule) -> (r: i8)
    requires
        !is_nan_bits(a.measure_bits),
        !is_nan_bits(b.measure_bits),
    ensures
        r as int == rule_order(*a, *b),
{
    let m = compare_measures(a.measure_bits, b.measure_bits);
    let m = match m {
        Some(x) => x,
        None => 0,
    };
    if m != 0 {
        return m;
    }
    if !a.is_negative && b.is_negative {
        return -1;
    }
    if a.is_negative && !b.is_negative {
        return 1;
    }
    let c = compare_seq(&a.antecedent, &b.antecedent);
    if c != 0 {
        return c;
    }
    if a.consequent < b.consequent {
        -1
    } else if a.consequent > b.consequent {
        1
    } else {
        0
    }
}

/// A rule held in a rule set.
pub struct RuleEntry {
    pub rule: Rule,
    pub is_decreasing: bool,
}

/// Whether a rule may enter a rule set with this initial threshold: its
/// measure is not above the threshold.
pub open spec fn admits(threshold: u64, r: Rule) -> bool {
    is_nan_bits(threshold) || measure_rank(r.measure_bits) <= measure_rank(threshold)
}

/// The rules of a sequence of entries.
pub open spec fn entry_rules(s: Seq<RuleEntry>) -> Seq<Rule> {
    s.map_values(|e: RuleEntry| e.rule)
}

/// `kept` is a choice of the `k` best rules of `pool` (the smallest in the
/// rule order): drawn from the pool, `min(k, |pool|)` of them, and none
/// left out comes before any kept.
pub open spec fn is_top_k_rules(k: nat, kept: Multiset<Rule>, pool: Multiset<Rule>) -> bool {
    &&& kept.subset_of(pool)
    &&& kept.len() == if pool.len() < k { pool.len() } else { k }
    &&& forall|u: Rule, x: Rule|
        #![trigger pool.count(u), kept.count(x)]
        pool.count(u) > kept.count(u) && kept.count(x) > 0 ==> rule_order(x, u) <= 0
}

/// What every entry of a rule set satisfies: it is marked decreasing, its
/// measure is not NaN and it was admitted.
pub open spec fn entry_ok(threshold: u64, e: RuleEntry) -> bool {
    e.is_decreasing && !is_nan_bits(e.rule.measure_bits) && admits(threshold, e.rule)
}

/// The top-K rules found so far.
pub struct RuleSet {
    max_k: usize,
    rules: Vec<RuleEntry>,
    is_decreasing: bool,
    initial_threshold: u64,
    pool: Ghost<Multiset<Rule>>,
    dropped: Ghost<Multiset<Rule>>,
}

impl RuleSet {
    /// The rules kept, in no particular order.
    pub closed spec fn kept(&self) -> Seq<Rule> {
        entry_rules(self.rules@)
    }

    /// Every admitted rule offered since the set was made.
    pub closed spec fn pool(&self) -> Multiset<Rule> {
        self.pool@
    }

    /// The number of rules kept at most.
    pub closed spec fn spec_max_k(&self) -> nat {
        self.max_k as nat
    }

    /// The initial threshold (bits of a binary64).
    pub closed spec fn spec_initial_threshold(&self) -> u64 {
        self.initial_threshold
    }

    /// Whether the set orders its rules as decreasing (always so).
    pub closed spec fn spec_is_decreasing(&self) -> bool {
        self.is_decreasing
    }

    /// The rule set's invariant, as for the result collector: every admitted
    /// offer is kept or dropped, at most `max_k` are kept, nothing is dropped
    /// while there is room, nothing dropped comes before anything kept, and
    /// every entry is well formed.
    pub closed spec fn wf(&self) -> bool {
        let kept = entry_rules(self.rules@).to_multiset();
        &&& self.pool@ =~= kept.add(self.dropped@)
        &&& self.rules@.len() <= self.max_k
        &&& self.rules@.len() < self.max_k ==> self.dropped@.len() == 0
        &&& forall|u: Rule, x: Rule|
            #![trigger self.dropped@.count(u), kept.count(x)]
            self.dropped@.count(u) > 0 && kept.count(x) > 0 ==> rule_order(x, u) <= 0
        &&& forall|i: int|
            0 <= i < self.rules@.len() ==> entry_ok(self.initial_threshold, #[trigger] self.rules@[i])
        &&& forall|u: Rule|
            #[trigger] self.dropped@.count(u) > 0 ==> admits(self.initial_threshold, u)
                && !is_nan_bits(u.measure_bits)
    }

    /// An empty set that keeps at most `max_k` rules whose measure is not
    /// above `initial_threshold` (bits of a binary64). All measures are to be
    /// minimised, so the set is always ordered as decreasing.
    pub fn new(max_k: usize, _is_decreasing: bool, initial_threshold: u64) -> (s: Self)
        ensures
            s.wf(),
            s.kept() == Seq::<Rule>::empty(),
            s.pool() == Multiset::<Rule>::empty(),
            s.spec_max_k() == max_k,
            s.spec_initial_threshold() == initial_threshold,
            s.spec_is_decreasing(),
    {
        let s = RuleSet {
            max_k,
            rules: Vec::new(),
            is_decreasing: true,
            initial_threshold,
            pool: Ghost(Multiset::empty()),
            dropped: Ghost(Multiset::empty()),
        };
        proof {
            broadcast use vstd::seq_lib::group_to_multiset_ensures;

            assert(entry_rules(s.rules@) =~= Seq::<Rule>::empty());
            assert(entry_rules(s.rules@).to_multiset() =~= Multiset::empty());
        }
        s
    }

    /// Offers a rule. A rule whose measure is above the initial threshold is
    /// turned away; otherwise it is kept while fewer than `max_k` rules are
    /// kept, and after that it takes the place of a last rule in the rule
    /// order if it comes strictly before it.
    pub fn add(&mut self, rule: Rule)
        requires
            old(self).wf(),
            !is_nan_bits(rule.measure_bits),
        ensures
            final(self).wf(),
            final(self).spec_max_k() == old(self).spec_max_k(),
            final(self).spec_initial_threshold() == old(self).spec_initial_threshold(),
            final(self).spec_is_decreasing() == old(self).spec_is_decreasing(),
            final(self).pool() == if admits(old(self).spec_initial_threshold(), rule) {
                old(self).pool().insert(rule)
            } else {
                old(self).pool()
            },
            !admits(old(self).spec_initial_threshold(), rule) ==> final(self).kept() == old(self).kept(),
            admits(old(self).spec_initial_threshold(), rule) && old(self).kept().len() < old(
                self,
            ).spec_max_k() ==> final(self).kept() == old(self).kept().push(rule),
            admits(old(self).spec_initial_threshold(), rule) && old(self).kept().len() >= old(
                self,
            ).spec_max_k() ==> if exists|i: int|
                is_last_index(old(self).kept(), i) && rule_order(rule, old(self).kept()[i]) < 0 {
                exists|i: int|
                    is_last_index(old(self).kept(), i) && final(self).kept() == old(self).kept().remove(
                        i,
                    ).push(rule)
            } else {
                final(self).kept() == old(self).kept()
            },
    {
        broadcast use vstd::seq_lib::group_to_multiset_ensures;
        broadcast use vstd::multiset::group_multiset_axioms;

        // All measures are transformed such that smaller is better.
        let above = match compare_measures(rule.measure_bits, self.initial_threshold) {
            Some(c) => c > 0,
            None => false,
        };
        if above {
            return;
        }
        let ghost old_rules = self.rules@;
        let ghost old_kept = entry_rules(old_rules);
        let ghost old_dropped = self.dropped@;
        let ghost r = rule;
        if self.rules.len() < self.max_k {
            self.rules.push(RuleEntry { rule, is_decreasing: true });
            proof {
                self.pool@ = self.pool@.insert(r);
                assert(entry_rules(self.rules@) =~= old_kept.push(r));
                assert(entry_rules(self.rules@).to_multiset() =~= old_kept.to_multiset().insert(r));
                assert forall|i: int| 0 <= i < self.rules@.len() implies entry_ok(self.initial_threshold, #[trigger] self.rules@[i]) by {
                    if i < old_rules.len() {
                        assert(self.rules@[i] == old_rules[i]);
                    }
                }
            }
        } else if self.rules.len() > 0 {
            let w = last_index(&self.rules);
            let c = compare_rules(&rule, &self.rules[w].rule);
            if c < 0 {
                let removed = self.rules.remove(w);
                self.rules.push(RuleEntry { rule, is_decreasing: true });
                proof {
                    let gone = removed.rule;
                    self.pool@ = self.pool@.insert(r);
                    self.dropped@ = self.dropped@.insert(gone);
                    let old_ms = old_kept.to_multiset();
                    assert(old_kept[w as int] == gone);
                    assert(old_kept.contains(gone));
                    assert(old_ms.count(gone) > 0);
                    assert(entry_rules(old_rules.remove(w as int)) =~= old_kept.remove(w as int));
                    assert(old_kept.remove(w as int).to_multiset() =~= old_ms.remove(gone));
                    let new_kept = entry_rules(self.rules@);
                    assert(new_kept =~= old_kept.remove(w as int).push(r));
                    let new_ms = new_kept.to_multiset();
                    assert(new_ms =~= old_ms.remove(gone).insert(r));
                    assert(self.pool@ =~= new_ms.add(self.dropped@));
                    assert(is_last_index(old_kept, w as int));
                    assert forall|u: Rule, x: Rule|
                        #![trigger self.dropped@.count(u), new_ms.count(x)]
                        self.dropped@.count(u) > 0 && new_ms.count(x) > 0 implies rule_order(x, u) <= 0 by {
                        if u == gone {
                            if x == r {
                                assert(rule_order(r, gone) < 0);
                            } else {
                                assert(old_ms.count(x) > 0);
                                assert(old_kept.contains(x));
                                let xi = choose|j: int| 0 <= j < old_kept.len() && old_kept[j] == x;
                                assert(rule_order(old_kept[xi], old_kept[w as int]) <= 0);
                            }
                        } else {
                            assert(old_dropped.count(u) > 0);
                            if x == r {
                                assert(old_ms.count(gone) > 0);
                                assert(rule_order(gone, u) <= 0);
                                lemma_rule_order_trans(r, gone, u);
                            } else {
                                assert(old_ms.count(x) > 0);
                            }
                        }
                    }
                    assert forall|i: int| 0 <= i < self.rules@.len() implies entry_ok(self.initial_threshold, #[trigger] self.rules@[i]) by {
                        if i < self.rules@.len() - 1 {
                            if i < w {
                                assert(self.rules@[i] == old_rules[i]);
                            } else {
                                assert(self.rules@[i] == old_rules[i + 1]);
                            }
                        }
                    }
                    assert(exists|i: int|
                        is_last_index(old_kept, i) && entry_rules(self.rules@) == old_kept.remove(i).push(r));
                }
            } else {
                proof {
                    self.pool@ = self.pool@.insert(r);
                    self.dropped@ = self.dropped@.insert(r);
                    let old_ms = old_kept.to_multiset();
                    assert(self.pool@ =~= old_ms.add(self.dropped@));
                    assert(rule_order(r, old_kept[w as int]) >= 0);
                    assert forall|u: Rule, x: Rule|
                        #![trigger self.dropped@.count(u), old_ms.count(x)]
                        self.dropped@.count(u) > 0 && old_ms.count(x) > 0 implies rule_order(x, u) <= 0 by {
                        assert(old_kept.contains(x));
                        let xi = choose|j: int| 0 <= j < old_kept.len() && old_kept[j] == x;
                        if u != r {
                            assert(old_dropped.count(u) > 0);
                        } else {
                            assert(rule_order(old_kept[xi], old_kept[w as int]) <= 0);
                            lemma_rule_order_antisym(r, old_kept[w as int]);
                            lemma_rule_order_trans(x, old_kept[w as int], r);
                        }
                    }
                    assert forall|i: int| is_last_index(old_kept, i) implies !(rule_order(r, old_kept[i]) < 0) by {
                        lemma_rule_order_antisym(old_kept[i], old_kept[w as int]);
                        if rule_order(r, old_kept[i]) < 0 {
                            lemma_rule_order_trans(r, old_kept[i], old_kept[w as int]);
                        }
                    }
                }
            }
        } else {
            proof {
                self.pool@ = self.pool@.insert(r);
                self.dropped@ = self.dropped@.insert(r);
                assert(old_kept.len() == 0);
                assert(old_kept.to_multiset() =~= Multiset::empty());
                assert(self.pool@ =~= old_kept.to_multiset().add(self.dropped@));
            }
        }
    }

    /// The measure of a last kept rule in the rule order, or the initial
    /// threshold while no rule is kept.
    pub fn worst_value(&self) -> (v: u64)
        requires
            self.wf(),
        ensures
            self.kept().len() == 0 ==> v == self.spec_initial_threshold(),
            self.kept().len() > 0 ==> exists|i: int|
                is_last_index(self.kept(), i) && v == self.kept()[i].measure_bits,
    {
        if self.rules.len() == 0 {
            self.initial_threshold
        } else {
            let w = last_index(&self.rules);
            self.rules[w].rule.measure_bits
        }
    }
}

impl RuleSet {
    /// The kept rules, in the rule order (best first).
    pub fn into_sorted_vec(self) -> (r: Vec<Rule>)
        requires
            self.wf(),
        ensures
            r@.to_multiset() == self.kept().to_multiset(),
            forall|i: int, j: int| 0 <= i < j < r@.len() ==> rule_order(#[trigger] r@[i], #[trigger] r@[j]) <= 0,
    {
        broadcast use vstd::seq_lib::group_to_multiset_ensures;
        broadcast use vstd::multiset::group_multiset_axioms;

        let mut rest = self.rules;
        let ghost all = entry_rules(rest@);
        let mut out: Vec<Rule> = Vec::new();
        proof {
            assert(out@.to_multiset() =~= Multiset::empty());
        }
        while rest.len() > 0
            invariant
                forall|k: int| 0 <= k < rest@.len() ==> !is_nan_bits(#[trigger] rest@[k].rule.measure_bits),
                out@.to_multiset().add(entry_rules(rest@).to_multiset()) =~= all.to_multiset(),
                forall|i: int, j: int| 0 <= i < j < out@.len() ==> rule_order(#[trigger] out@[i], #[trigger] out@[j]) <= 0,
                forall|i: int, j: int|
                    0 <= i < out@.len() && 0 <= j < rest@.len() ==> rule_order(#[trigger] out@[i], #[trigger] rest@[j].rule) <= 0,
            decreases rest@.len(),
        {
            let b = first_index(&rest);
            let ghost old_rest = rest@;
            let ghost old_out = out@;
            let e = rest.remove(b);
            let x = e.rule;
            out.push(x);
            proof {
                let ors = entry_rules(old_rest);
                assert(ors[b as int] == x);
                assert(ors.contains(x));
                ors.to_multiset_ensures();
                assert(ors.to_multiset().count(x) > 0);
                assert(entry_rules(rest@) =~= ors.remove(b as int));
                assert(ors.remove(b as int).to_multiset() =~= ors.to_multiset().remove(x));
                old_out.to_multiset_ensures();
                assert(out@ == old_out.push(x));
                assert(out@.to_multiset() =~= old_out.to_multiset().insert(x));
                assert forall|i: int, j: int|
                    0 <= i < out@.len() && 0 <= j < rest@.len() implies rule_order(#[trigger] out@[i], #[trigger] rest@[j].rule) <= 0 by {
                    let jj = if j < b { j } else { j + 1 };
                    assert(rest@[j] == old_rest[jj]);
                    if i < old_out.len() {
                        assert(out@[i] == old_out[i]);
                    } else {
                        assert(rule_order(ors[b as int], ors[jj]) <= 0);
                    }
                }
                assert forall|i: int, j: int| 0 <= i < j < out@.len() implies rule_order(#[trigger] out@[i], #[trigger] out@[j]) <= 0 by {
                    assert(out@[i] == old_out[i]);
                    if j < old_out.len() {
                        assert(out@[j] == old_out[j]);
                    }
                }
                assert forall|k: int| 0 <= k < rest@.len() implies !is_nan_bits(#[trigger] rest@[k].rule.measure_bits) by {
                    let kk = if k < b { k } else { k + 1 };
                    assert(rest@[k] == old_rest[kk]);
                }
            }
        }
        proof {
            assert(entry_rules(rest@) =~= Seq::<Rule>::empty());
            assert(entry_rules(rest@).to_multiset() =~= Multiset::empty());
            assert(out@.to_multiset() =~= all.to_multiset());
        }
        out
    }
}

/// Law: the kept rules are a choice of the `max_k` best of all admitted
/// rules ever offered to the set, and every one of those was admitted.
pub proof fn lemma_rule_set_keeps_top_k(s: &RuleSet)
    requires
        s.wf(),
    ensures
        is_top_k_rules(s.spec_max_k(), s.kept().to_multiset(), s.pool()),
        forall|u: Rule| #[trigger] s.pool().count(u) > 0 ==> admits(s.spec_initial_threshold(), u),
{
    broadcast use vstd::seq_lib::group_to_multiset_ensures;
    broadcast use vstd::multiset::group_multiset_axioms;

    let ms = s.kept().to_multiset();
    assert(s.pool().len() == ms.len() + s.dropped@.len());
    assert forall|u: Rule| #[trigger] s.pool().count(u) > 0 implies admits(s.spec_initial_threshold(), u) by {
        if ms.count(u) > 0 {
            assert(s.kept().contains(u));
            let i = choose|i: int| 0 <= i < s.kept().len() && s.kept()[i] == u;
            assert(s.rules@[i].rule == u);
        }
    }
}

/// The rank a new rule has to get below to count as an improvement on its
/// generalizations: that of the best recorded measure among them, and never
/// above the rank of `0.0`. Missing and NaN records do not count.
pub open spec fn best_cached_rank(cached: Seq<Option<u64>>) -> int
    decreases cached.len(),
{
    if cached.len() == 0 {
        0
    } else {
        let rest = best_cached_rank(cached.drop_last());
        match cached.last() {
            Some(v) => if !is_nan_bits(v) && measure_rank(v) < rest {
                measure_rank(v)
            } else {
                rest
            },
            None => rest,
        }
    }
}

/// A recorded measure that counts: present and not NaN.
pub open spec fn counts_as_record(c: Option<u64>) -> bool {
    c is Some && !is_nan_bits(c->0)
}

/// Law: the bar a rule has to pass is the least of `0.0` and of every
/// recorded measure of its generalizations: it is not above `0.0` nor
/// above any record, and it is `0.0` or one of the records.
pub proof fn lemma_best_cached_rank_is_least(cached: Seq<Option<u64>>)
    ensures
        best_cached_rank(cached) <= 0,
        forall|i: int|
            0 <= i < cached.len() && counts_as_record(#[trigger] cached[i]) ==> best_cached_rank(cached)
                <= measure_rank(cached[i]->0),
        best_cached_rank(cached) == 0 || exists|i: int|
            0 <= i < cached.len() && counts_as_record(#[trigger] cached[i]) && best_cached_rank(cached)
                == measure_rank(cached[i]->0),
    decreases cached.len(),
{
    if cached.len() > 0 {
        let rest = cached.drop_last();
        lemma_best_cached_rank_is_least(rest);
        assert forall|i: int|
            0 <= i < cached.len() && counts_as_record(#[trigger] cached[i]) implies best_cached_rank(cached)
                <= measure_rank(cached[i]->0) by {
            if i < cached.len() - 1 {
                assert(cached[i] == rest[i]);
            }
        }
        if best_cached_rank(cached) != 0 {
            if best_cached_rank(cached) == best_cached_rank(rest) {
                let i = choose|i: int|
                    0 <= i < rest.len() && counts_as_record(#[trigger] rest[i]) && best_cached_rank(rest)
                        == measure_rank(rest[i]->0);
                assert(cached[i] == rest[i]);
            } else {
                assert(counts_as_record(cached[cached.len() - 1]));
            }
        }
    }
}

/// Whether a rule with measure `m` (bits of a binary64) improves on the
/// measures recorded for its generalizations: `m` lies strictly below each
/// of them and below `0.0`.
pub fn beats_generalizations(m: u64, cached: &[Option<u64>]) -> (r: bool)
    ensures
        r == (!is_nan_bits(m) && measure_rank(m) < best_cached_rank(cached@)),
        r == (!is_nan_bits(m) && measure_rank(m) < 0 && forall|i: int|
            0 <= i < cached@.len() && counts_as_record(#[trigger] cached@[i]) ==> measure_rank(m)
                < measure_rank(cached@[i]->0)),
{
    proof {
        lemma_best_cached_rank_is_least(cached@);
    }
    let mut best: u64 = 0;
    let mut i: usize = 0;
    while i < cached.len()
        invariant
            0 <= i <= cached@.len(),
            !is_nan_bits(best),
            measure_rank(best) == best_cached_rank(cached@.take(i as int)),
        decreases cached@.len() - i,
    {
        proof {
            assert(cached@.take(i + 1).drop_last() =~= cached@.take(i as int));
        }
        if let Some(v) = cached[i] {
            if compare_measures(v, best) == Some(-1i8) {
                best = v;
            }
        }
        i += 1;
    }
    proof {
        assert(cached@.take(cached@.len() as int) =~= cached@);
    }
    compare_measures(m, best) == Some(-1i8)
}

/// The bit pattern of `+inf`.
pub open spec fn infinity_bits() -> u64 {
    0x7FF0_0000_0000_0000
}

/// The smallest measure of `s`, as a walk from `+inf` that takes each
/// measure strictly below the one held so far (NaN is never below).
pub open spec fn least_measure(s: Seq<u64>) -> u64
    decreases s.len(),
{
    if s.len() == 0 {
        infinity_bits()
    } else {
        let b = least_measure(s.drop_last());
        if !is_nan_bits(s.last()) && measure_rank(s.last()) < measure_rank(b) {
            s.last()
        } else {
            b
        }
    }
}

/// The best (smallest) of the measures recorded for a state, or `None` when
/// it is `+inf`, as when none was recorded.
pub fn best_measure(recorded: &[u64]) -> (r: Option<u64>)
    ensures
        r == if least_measure(recorded@) == infinity_bits() {
            None
        } else {
            Some(least_measure(recorded@))
        },
{
    let mut best: u64 = 0x7FF0_0000_0000_0000;
    let mut i: usize = 0;
    while i < recorded.len()
        invariant
            0 <= i <= recorded@.len(),
            best == least_measure(recorded@.take(i as int)),
            !is_nan_bits(best),
        decreases recorded@.len() - i,
    {
        proof {
            assert(recorded@.take(i + 1).drop_last() =~= recorded@.take(i as int));
        }
        let m = recorded[i];
        if compare_measures(m, best) == Some(-1i8) {
            best = m;
        }
        i += 1;
    }
    proof {
        assert(recorded@.take(recorded@.len() as int) =~= recorded@);
    }
    if best == 0x7FF0_0000_0000_0000 {
        None
    } else {
        Some(best)
    }
}

/// Index of an entry whose rule comes first.
fn first_index(v: &Vec<RuleEntry>) -> (i: usize)
    requires
        v@.len() > 0,
        forall|k: int| 0 <= k < v@.len() ==> !is_nan_bits(#[trigger] v@[k].rule.measure_bits),
    ensures
        0 <= i < v@.len(),
        forall|j: int| 0 <= j < v@.len() ==> rule_order(v@[i as int].rule, #[trigger] v@[j].rule) <= 0,
{
    let mut b: usize = 0;
    let mut j: usize = 1;
    proof {
        lemma_rule_order_refl(v@[0].rule);
    }
    while j < v.len()
        invariant
            0 <= b < v@.len(),
            1 <= j <= v@.len(),
            forall|k: int| 0 <= k < v@.len() ==> !is_nan_bits(#[trigger] v@[k].rule.measure_bits),
            forall|m: int| 0 <= m < j ==> rule_order(v@[b as int].rule, #[trigger] v@[m].rule) <= 0,
        decreases v@.len() - j,
    {
        let c = compare_rules(&v[j].rule, &v[b].rule);
        proof {
            lemma_rule_order_antisym(v@[j as int].rule, v@[b as int].rule);
            lemma_rule_order_refl(v@[j as int].rule);
        }
        if c < 0 {
            proof {
                assert forall|m: int| 0 <= m < j + 1 implies rule_order(v@[j as int].rule, #[trigger] v@[m].rule) <= 0 by {
                    if m < j {
                        lemma_rule_order_trans(v@[j as int].rule, v@[b as int].rule, v@[m].rule);
                    }
                }
            }
            b = j;
        }
        j += 1;
    }
    b
}

/// `i` is the index of a rule that comes last in the rule order.
pub open spec fn is_last_index(s: Seq<Rule>, i: int) -> bool {
    &&& 0 <= i < s.len()
    &&& forall|j: int| 0 <= j < s.len() ==> rule_order(#[trigger] s[j], s[i]) <= 0
}

/// Index of an entry whose rule comes last.
fn last_index(v: &Vec<RuleEntry>) -> (i: usize)
    requires
        v@.len() > 0,
        forall|k: int| 0 <= k < v@.len() ==> !is_nan_bits(#[trigger] v@[k].rule.measure_bits),
    ensures
        is_last_index(entry_rules(v@), i as int),
{
    let mut w: usize = 0;
    let mut j: usize = 1;
    proof {
        lemma_rule_order_refl(v@[0].rule);
    }
    while j < v.len()
        invariant
            0 <= w < v@.len(),
            1 <= j <= v@.len(),
            forall|k: int| 0 <= k < v@.len() ==> !is_nan_bits(#[trigger] v@[k].rule.measure_bits),
            forall|m: int| 0 <= m < j ==> rule_order(#[trigger] v@[m].rule, v@[w as int].rule) <= 0,
        decreases v@.len() - j,
    {
        let c = compare_rules(&v[j].rule, &v[w].rule);
        proof {
            lemma_rule_order_antisym(v@[j as int].rule, v@[w as int].rule);
            lemma_rule_order_refl(v@[j as int].rule);
        }
        if c > 0 {
            proof {
                assert forall|m: int| 0 <= m < j + 1 implies rule_order(#[trigger] v@[m].rule, v@[j as int].rule) <= 0 by {
                    if m < j {
                        lemma_rule_order_trans(v@[m].rule, v@[w as int].rule, v@[j as int].rule);
                    }
                }
            }
            w = j;
        }
        j += 1;
    }
    proof {
        assert forall|m: int| 0 <= m < v@.len() implies rule_order(#[trigger] entry_rules(v@)[m], entry_rules(v@)[w as int]) <= 0 by {
            assert(entry_rules(v@)[m] == v@[m].rule);
        }
    }
    w
}

} // verus!
