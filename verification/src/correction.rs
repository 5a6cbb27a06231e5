//! Tarone's correction: the pairwise hypotheses of a data set, grouped by the
//! supports of their two items. The minimal attainable p-value of a pair
//! depends on the two supports only, so it is computed once per group
//! (outside this library, as it is a floating-point quantity).
use crate::kingfisher::{is_ascending, sort_ascending};
use vstd::multiset::Multiset;
use vstd::prelude::*;

verus! {

/// The sum of the counts of a histogram.
pub open spec fn sum_counts(h: Seq<(usize, usize)>) -> nat
    decreases h.len(),
{
    if h.len() == 0 {
        0
    } else {
        sum_counts(h.drop_last()) + h.last().1 as nat
    }
}

/// The items' supports, grouped: each distinct support, in increasing
/// order, with the number of items that have it.
pub fn support_histogram(supports: &[usize]) -> (h: Vec<(usize, usize)>)
    ensures
        forall|i: int, j: int| 0 <= i < j < h@.len() ==> (#[trigger] h@[i]).0 < (#[trigger] h@[j]).0,
        forall|j: int|
            0 <= j < h@.len() ==> (#[trigger] h@[j]).1 > 0 && h@[j].1 == supports@.to_multiset().count(
                h@[j].0,
            ),
        forall|x: usize| supports@.contains(x) ==> exists|j: int| 0 <= j < h@.len() && h@[j].0 == x,
        sum_counts(h@) == supports@.len(),
{
    let mut copy: Vec<usize> = Vec::new();
    for i in 0..supports.len()
        invariant
            copy@ =~= supports@.take(i as int),
    {
        copy.push(supports[i]);
    }
    proof {
        assert(supports@.take(supports@.len() as int) =~= supports@);
    }
    let sorted = sort_ascending(copy);
    let mut h: Vec<(usize, usize)> = Vec::new();
    proof {
        assert(sorted@.take(0) =~= Seq::<usize>::empty());
        sorted@.take(0).to_multiset_ensures();
    }
    let mut k: usize = 0;
    while k < sorted.len()
        invariant
            0 <= k <= sorted@.len(),
            is_ascending(sorted@),
            forall|i: int, j: int| 0 <= i < j < h@.len() ==> (#[trigger] h@[i]).0 < (#[trigger] h@[j]).0,
            forall|j: int|
                0 <= j < h@.len() ==> (#[trigger] h@[j]).1 > 0 && h@[j].1 == sorted@.take(
                    k as int,
                ).to_multiset().count(h@[j].0),
            forall|x: usize|
                #[trigger] sorted@.take(k as int).to_multiset().count(x) > 0 ==> exists|j: int|
                    0 <= j < h@.len() && h@[j].0 == x,
            k > 0 ==> h@.len() > 0 && h@.last().0 == sorted@[k - 1],
            k == 0 ==> h@.len() == 0,
            sum_counts(h@) == k,
            h@.len() <= k,
        decreases sorted@.len() - k,
    {
        let x = sorted[k];
        let ghost before = h@;
        let ghost t0 = sorted@.take(k as int);
        let ghost t1 = sorted@.take(k + 1);
        proof {
            assert(t1 =~= t0.push(x));
            t0.to_multiset_ensures();
            assert(t1.to_multiset() =~= t0.to_multiset().insert(x));
        }
        let n = h.len();
        if n > 0 && h[n - 1].0 == x {
            let (key, c) = h[n - 1];
            h.set(n - 1, (key, c + 1));
            proof {
                assert(h@.drop_last() =~= before.drop_last());
                assert forall|j: int|
                    0 <= j < h@.len() implies (#[trigger] h@[j]).1 > 0 && h@[j].1 == t1.to_multiset().count(
                    h@[j].0,
                ) by {
                    if j < n - 1 {
                        assert(h@[j] == before[j]);
                        assert(before[j].0 < before[n - 1].0);
                    }
                }
                assert forall|y: usize| t1.to_multiset().count(y) > 0 implies exists|j: int|
                    0 <= j < h@.len() && h@[j].0 == y by {
                    if y != x {
                        assert(t1.to_multiset().count(y) > 0);
                        assert(t0.to_multiset().count(y) > 0);
                        assert(sorted@.take(k as int).to_multiset().count(y) > 0);
                        let j = choose|j: int| 0 <= j < before.len() && before[j].0 == y;
                        assert(j != n - 1);
                        assert(h@[j] == before[j]);
                        assert(h@[j].0 == y);
                    } else {
                        assert(h@[n - 1].0 == y);
                    }
                }
            }
        } else {
            h.push((x, 1));
            proof {
                assert(h@.drop_last() =~= before);
                if k > 0 {
                    assert(sorted@[k - 1] <= x);
                }
                assert forall|j: int| 0 <= j < before.len() implies before[j].0 < x by {
                    if j < before.len() - 1 {
                        assert(before[j].0 < before[before.len() - 1].0);
                    }
                }
                assert(t0.to_multiset().count(x) == 0) by {
                    if t0.to_multiset().count(x) > 0 {
                        assert(t0.contains(x));
                        let j = choose|j: int| 0 <= j < before.len() && before[j].0 == x;
                    }
                }
                assert forall|j: int|
                    0 <= j < h@.len() implies (#[trigger] h@[j]).1 > 0 && h@[j].1 == t1.to_multiset().count(
                    h@[j].0,
                ) by {
                    if j < before.len() {
                        assert(h@[j] == before[j]);
                    }
                }
                assert forall|y: usize| t1.to_multiset().count(y) > 0 implies exists|j: int|
                    0 <= j < h@.len() && h@[j].0 == y by {
                    if y != x {
                        assert(t1.to_multiset().count(y) > 0);
                        assert(t0.to_multiset().count(y) > 0);
                        assert(sorted@.take(k as int).to_multiset().count(y) > 0);
                        let j = choose|j: int| 0 <= j < before.len() && before[j].0 == y;
                        assert(h@[j].0 == y);
                    } else {
                        assert(h@[before.len() as int].0 == y);
                    }
                }
            }
        }
        k += 1;
    }
    proof {
        assert(sorted@.take(sorted@.len() as int) =~= sorted@);
        sorted@.to_multiset_ensures();
        supports@.to_multiset_ensures();
        assert(copy@ =~= supports@);
        assert(sorted@.to_multiset() == supports@.to_multiset());
        assert forall|x: usize| supports@.contains(x) implies exists|j: int|
            0 <= j < h@.len() && h@[j].0 == x by {
            assert(supports@.to_multiset().count(x) > 0);
            assert(sorted@.to_multiset().count(x) > 0);
            assert(sorted@.take(sorted@.len() as int).to_multiset().count(x) > 0);
            assert(exists|j: int| 0 <= j < h@.len() && h@[j].0 == x);
        }
    }
    h
}

/// The sum of the counts of the groups from `i` on.
pub open spec fn suffix_counts(h: Seq<(usize, usize)>, i: int) -> nat
    decreases h.len() - i,
{
    if i < 0 || i >= h.len() {
        0
    } else {
        h[i].1 as nat + suffix_counts(h, i + 1)
    }
}

/// The number of pairs of two items that both have the support of group `i`.
pub open spec fn same_pairs(h: Seq<(usize, usize)>, i: int) -> nat {
    (h[i].1 * (h[i].1 - 1) / 2) as nat
}

/// The pair groups of group `i` with the groups `i + 1 .. j`: the supports
/// of the two items, and the number of such pairs.
pub open spec fn cross_pairs(h: Seq<(usize, usize)>, i: int, j: int) -> Seq<(usize, usize, usize)>
    decreases j - i,
{
    if j <= i + 1 {
        Seq::empty()
    } else {
        cross_pairs(h, i, j - 1).push((h[i].0, h[j - 1].0, (h[i].1 * h[j - 1].1) as usize))
    }
}

/// The pair groups whose first item is in group `i`: the pairs within the
/// group (when there are any), then those with each later group.
pub open spec fn row_pairs(h: Seq<(usize, usize)>, i: int) -> Seq<(usize, usize, usize)> {
    (if same_pairs(h, i) > 0 {
        seq![(h[i].0, h[i].0, same_pairs(h, i) as usize)]
    } else {
        Seq::empty()
    }) + cross_pairs(h, i, h.len() as int)
}

/// The pair groups of the groups before `i`, group by group.
pub open spec fn pairs_upto(h: Seq<(usize, usize)>, i: int) -> Seq<(usize, usize, usize)>
    decreases i,
{
    if i <= 0 {
        Seq::empty()
    } else {
        pairs_upto(h, i - 1) + row_pairs(h, i - 1)
    }
}

/// The total of the pair counts of a list of pair groups.
pub open spec fn pair_total(e: Seq<(usize, usize, usize)>) -> nat
    decreases e.len(),
{
    if e.len() == 0 {
        0
    } else {
        pair_total(e.drop_last()) + e.last().2 as nat
    }
}

proof fn lemma_pair_total_append(a: Seq<(usize, usize, usize)>, b: Seq<(usize, usize, usize)>)
    ensures
        pair_total(a + b) == pair_total(a) + pair_total(b),
    decreases b.len(),
{
    if b.len() == 0 {
        assert(a + b =~= a);
    } else {
        lemma_pair_total_append(a, b.drop_last());
        assert((a + b).drop_last() =~= a + b.drop_last());
    }
}

proof fn lemma_suffix_counts_split(h: Seq<(usize, usize)>, i: int)
    requires
        0 <= i <= h.len(),
    ensures
        sum_counts(h.take(i)) + suffix_counts(h, i) == sum_counts(h),
    decreases h.len() - i,
{
    if i == h.len() {
        assert(h.take(i) =~= h);
    } else {
        lemma_suffix_counts_split(h, i + 1);
        assert(h.take(i + 1).drop_last() =~= h.take(i));
    }
}

proof fn lemma_suffix_counts_mono(h: Seq<(usize, usize)>, i: int, j: int)
    requires
        0 <= i <= j,
    ensures
        suffix_counts(h, j) <= suffix_counts(h, i),
    decreases j - i,
{
    if i < j {
        lemma_suffix_counts_mono(h, i + 1, j);
    }
}

proof fn lemma_square_split(c: int, s: int)
    by (nonlinear_arith)
    ensures
        (c + s) * (c + s - 1) == c * (c - 1) + 2 * (c * s) + s * (s - 1),
{
}

proof fn lemma_even_product(c: int)
    by (nonlinear_arith)
    requires
        c >= 0,
    ensures
        (c * (c - 1)) % 2 == 0,
{
    if c % 2 == 0 {
        assert(c * (c - 1) == 2 * ((c / 2) * (c - 1)));
    } else {
        assert(c * (c - 1) == 2 * (c * ((c - 1) / 2)));
    }
}

/// The pair groups of a set of items given by their supports, and the total
/// number of pairs, which is `C(n_items, 2)`.
pub fn pair_groups(supports: &[usize]) -> (r: (Vec<(usize, usize, usize)>, usize))
    requires
        supports@.len() * supports@.len() <= usize::MAX,
    ensures
        2 * r.1 == supports@.len() * (supports@.len() - 1),
        r.1 == pair_total(r.0@),
        exists|h: Seq<(usize, usize)>|
            #![trigger pairs_upto(h, h.len() as int)]
            r.0@ == pairs_upto(h, h.len() as int) && sum_counts(h) == supports@.len() && (forall|
                i: int,
                j: int,
            | 0 <= i < j < h.len() ==> (#[trigger] h[i]).0 < (#[trigger] h[j]).0) && (forall|j: int|
                0 <= j < h.len() ==> #[trigger] h[j].1 == supports@.to_multiset().count(h[j].0)
                && h[j].1 > 0)
                && (forall|x: usize| supports@.contains(x) ==> exists|j: int| 0 <= j < h.len() && h[j].0 == x),
{
    let h = support_histogram(supports);
    let r = support_pairs(h.as_slice());
    r
}

/// The pair groups of a support histogram, in the order of the groups, and
/// the total number of pairs.
pub fn support_pairs(h: &[(usize, usize)]) -> (r: (Vec<(usize, usize, usize)>, usize))
    requires
        sum_counts(h@) * sum_counts(h@) <= usize::MAX,
    ensures
        r.0@ == pairs_upto(h@, h@.len() as int),
        r.1 == pair_total(r.0@),
        2 * r.1 == sum_counts(h@) * (sum_counts(h@) - 1),
{
    let ghost n = sum_counts(h@);
    let mut entries: Vec<(usize, usize, usize)> = Vec::new();
    let mut total: usize = 0;
    let mut i: usize = 0;
    proof {
        lemma_suffix_counts_split(h@, 0);
        assert(h@.take(0) =~= Seq::<(usize, usize)>::empty());
        assert(n * (n - 1) <= n * n) by (nonlinear_arith)
            requires
                n >= 0,
        ;
    }
    while i < h.len()
        invariant
            0 <= i <= h@.len(),
            n == sum_counts(h@),
            n * n <= usize::MAX,
            n * (n - 1) <= n * n,
            n == suffix_counts(h@, 0),
            entries@ == pairs_upto(h@, i as int),
            total == pair_total(entries@),
            2 * total + suffix_counts(h@, i as int) * (suffix_counts(h@, i as int) - 1) == n * (n - 1),
        decreases h@.len() - i,
    {
        let (s1, c1) = h[i];
        let ghost s_next = suffix_counts(h@, i + 1);
        let ghost t0 = total as int;
        proof {
            lemma_suffix_counts_mono(h@, 0, i as int);
            assert(suffix_counts(h@, i as int) == c1 + s_next);
            assert(c1 * c1 <= n * n) by (nonlinear_arith)
                requires
                    c1 <= n,
                    0 <= c1,
            ;
            assert(c1 * (if c1 >= 1 { c1 - 1 } else { 0 }) <= c1 * c1) by (nonlinear_arith)
                requires
                    0 <= c1,
            ;
            lemma_even_product(c1 as int);
            lemma_square_split(c1 as int, s_next as int);
            assert(s_next * (s_next - 1) >= 0) by (nonlinear_arith)
                requires
                    s_next >= 0,
            ;
            assert(c1 * s_next >= 0) by (nonlinear_arith)
                requires
                    s_next >= 0,
                    c1 >= 0,
            ;
        }
        let same = c1 * c1.saturating_sub(1) / 2;
        proof {
            if c1 == 0 {
                assert(same == 0);
                assert(c1 * (c1 - 1) == 0) by (nonlinear_arith)
                    requires
                        c1 == 0,
                ;
            } else {
                assert(same == c1 * (c1 - 1) / 2);
            }
            assert(same as nat == same_pairs(h@, i as int));
            assert(2 * same == c1 * (c1 - 1));
        }
        let ghost row_start = entries@;
        if same > 0 {
            entries.push((s1, s1, same));
            total += same;
            proof {
                assert(entries@.drop_last() =~= row_start);
            }
        }
        let ghost head = entries@;
        proof {
            assert(pair_total(head) == t0 + same);
            assert(2 * pair_total(head) + 2 * (c1 * s_next) + s_next * (s_next - 1) == n * (n - 1));
        }
        let mut j: usize = i + 1;
        proof {
            assert(cross_pairs(h@, i as int, j as int) =~= Seq::<(usize, usize, usize)>::empty());
            assert(head + cross_pairs(h@, i as int, j as int) =~= head);
            assert(c1 * (s_next - suffix_counts(h@, j as int)) == 0);
        }
        while j < h.len()
            invariant
                0 <= i < j <= h@.len(),
                n * n <= usize::MAX,
                n * (n - 1) <= n * n,
                c1 == h@[i as int].1,
                s1 == h@[i as int].0,
                c1 >= 0,
                s_next == suffix_counts(h@, i + 1),
                entries@ == head + cross_pairs(h@, i as int, j as int),
                total == pair_total(entries@),
                total == pair_total(head) + c1 * (s_next - suffix_counts(h@, j as int)),
                suffix_counts(h@, j as int) <= s_next,
                2 * pair_total(head) + 2 * (c1 * s_next) + s_next * (s_next - 1) == n * (n - 1),
                s_next * (s_next - 1) >= 0,
                suffix_counts(h@, j as int) >= 0,
                pair_total(head) >= 0,
            decreases h@.len() - j,
        {
            let (s2, c2) = h[j];
            let ghost sj = suffix_counts(h@, j as int);
            let ghost sj1 = suffix_counts(h@, j + 1);
            proof {
                assert(sj == c2 + sj1);
                assert(c1 * (s_next - sj) + c1 * c2 == c1 * (s_next - sj1)) by (nonlinear_arith)
                    requires
                        sj == c2 + sj1,
                ;
                assert(c1 * (s_next - sj1) <= c1 * s_next) by (nonlinear_arith)
                    requires
                        c1 >= 0,
                        sj1 >= 0,
                ;
                assert(c1 * c2 >= 0) by (nonlinear_arith)
                    requires
                        c1 >= 0,
                        c2 >= 0,
                ;
            }
            proof {
                lemma_suffix_counts_mono(h@, i + 1, j as int);
                assert(c2 <= s_next);
                assert(c1 * c2 <= c1 * s_next) by (nonlinear_arith)
                    requires
                        c1 >= 0,
                        c2 <= s_next,
                ;
            }
            let cnt = c1 * c2;
            let ghost before = entries@;
            entries.push((s1, s2, cnt));
            total += cnt;
            proof {
                assert(entries@.drop_last() =~= before);
                assert(cross_pairs(h@, i as int, j + 1) == cross_pairs(h@, i as int, j as int).push(
                    (s1, s2, cnt),
                ));
                assert(entries@ =~= head + cross_pairs(h@, i as int, j + 1));
            }
            j += 1;
        }
        proof {
            assert(suffix_counts(h@, h@.len() as int) == 0);
            assert(entries@ =~= row_start + row_pairs(h@, i as int));
            assert(pairs_upto(h@, i + 1) == pairs_upto(h@, i as int) + row_pairs(h@, i as int));
        }
        i += 1;
    }
    proof {
        assert(suffix_counts(h@, i as int) == 0);
        let z = suffix_counts(h@, i as int);
        assert(z * (z - 1) == 0) by (nonlinear_arith)
            requires
                z == 0,
        ;
    }
    (entries, total)
}

/// Binary search for Tarone's `k*` over `1..=m_total`: the smallest `k` at
/// which the (non-decreasing) test `pred` passes, or `m_total` if it passes
/// nowhere below it; 1 when there are no hypotheses. Only what `pred` was
/// seen to answer is promised: the result passes (unless it is `m_total`)
/// and the number before it fails (unless the result is 1).
pub fn first_passing<F: Fn(usize) -> bool>(m_total: usize, pred: F) -> (r: usize)
    requires
        forall|k: usize| 1 <= k <= m_total ==> call_requires(pred, (k,)),
    ensures
        m_total == 0 ==> r == 1,
        m_total > 0 ==> 1 <= r <= m_total,
        0 < r < m_total ==> call_ensures(pred, (r,), true),
        r > 1 ==> call_ensures(pred, ((r - 1) as usize,), false),
{
    if m_total == 0 {
        return 1;
    }
    let mut lo: usize = 1;
    let mut hi: usize = m_total;
    while lo < hi
        invariant
            1 <= lo <= hi <= m_total,
            forall|k: usize| 1 <= k <= m_total ==> call_requires(pred, (k,)),
            hi < m_total ==> call_ensures(pred, (hi,), true),
            lo > 1 ==> call_ensures(pred, ((lo - 1) as usize,), false),
        decreases hi - lo,
    {
        let mid = lo + (hi - lo) / 2;
        if pred(mid) {
            hi = mid;
        } else {
            lo = mid + 1;
        }
    }
    lo
}

} // verus!
