//! The transaction data as one column of bits per attribute.
use bitvec::order::Lsb0;
use bitvec::vec::BitVec;
use crate::parse::{fields_from, parse_transaction};
use vstd::prelude::*;
use vstd::string::StringSliceAdditionalSpecFns;

verus! {

/// One attribute's column of bits, one bit per transaction. The bits live in
/// a `bitvec` bit-vector; Verus sees them through `column_bits`.
#[verifier::external_body]
pub struct BitColumn {
    bits: BitVec<u64, Lsb0>,
}

/// The bits that a column holds, in transaction order.
pub uninterp spec fn column_bits(c: BitColumn) -> Seq<bool>;

/// The number of `true` bits in a sequence.
pub open spec fn count_true(s: Seq<bool>) -> nat
    decreases s.len(),
{
    if s.len() == 0 {
        0
    } else {
        count_true(s.drop_last()) + if s.last() {
            1nat
        } else {
            0nat
        }
    }
}

impl BitColumn {
    /// `BitVec::repeat`: a bit-vector of `len` copies of `bit`. It panics
    /// beyond the largest length that a bit-vector holds, `usize::MAX >> 3`.
    #[verifier::external_body]
    fn repeat(bit: bool, len: usize) -> (r: BitColumn)
        requires
            len <= usize::MAX / 8,
        ensures
            column_bits(r) == Seq::new(len as nat, |i: int| bit),
    {
        BitColumn { bits: BitVec::repeat(bit, len) }
    }

    /// `BitSlice::set` on the column: writes one bit; it panics when `index`
    /// is out of bounds.
    #[verifier::external_body]
    fn set(&mut self, index: usize, value: bool)
        requires
            index < column_bits(*old(self)).len(),
        ensures
            column_bits(*final(self)) == column_bits(*old(self)).update(index as int, value),
    {
        self.bits.set(index, value)
    }

    /// `BitSlice::count_ones`: the number of bits set.
    #[verifier::external_body]
    fn count_ones(&self) -> (r: usize)
        ensures
            r == count_true(column_bits(*self)),
    {
        self.bits.count_ones()
    }

    /// `BitVec::clone`: a copy of the bits.
    #[verifier::external_body]
    fn duplicate(&self) -> (r: BitColumn)
        ensures
            column_bits(r) == column_bits(*self),
    {
        BitColumn { bits: self.bits.clone() }
    }

    /// `BitAndAssign<&BitVec>` for `BitVec`: each bit becomes the AND of itself
    /// and the bit of `other` at the same index; bits past the end of `other`
    /// become `false`. The length stays.
    #[verifier::external_body]
    fn and_assign(&mut self, other: &BitColumn)
        ensures
            column_bits(*final(self)).len() == column_bits(*old(self)).len(),
            forall|i: int|
                0 <= i < column_bits(*old(self)).len() ==> #[trigger] column_bits(*final(self))[i]
                    == (column_bits(*old(self))[i] && i < column_bits(*other).len()
                    && column_bits(*other)[i]),
    {
        self.bits &= &other.bits;
    }
}

/// The data: one bit column per attribute, one row per transaction.
pub struct BitMatrix {
    pub attributes: Vec<BitColumn>,
    pub attr_freqs: Vec<usize>,
    pub num_rows: usize,
    pub num_cols: usize,
}

/// A sequence of `n` true bits holds `n` of them.
pub proof fn lemma_count_true_all(n: nat)
    ensures
        count_true(Seq::new(n, |i: int| true)) == n,
    decreases n,
{
    if n > 0 {
        lemma_count_true_all((n - 1) as nat);
        assert(Seq::new(n, |i: int| true).drop_last() =~= Seq::new((n - 1) as nat, |i: int| true));
    }
}

/// A sequence holds no more true bits than it has bits.
pub proof fn lemma_count_true_le_len(s: Seq<bool>)
    ensures
        count_true(s) <= s.len(),
    decreases s.len(),
{
    if s.len() > 0 {
        lemma_count_true_le_len(s.drop_last());
    }
}

/// Pointwise implication between bit sequences carries over to their counts.
pub proof fn lemma_count_true_mono(s1: Seq<bool>, s2: Seq<bool>)
    requires
        s1.len() == s2.len(),
        forall|i: int| 0 <= i < s1.len() && #[trigger] s1[i] ==> s2[i],
    ensures
        count_true(s1) <= count_true(s2),
    decreases s1.len(),
{
    if s1.len() > 0 {
        lemma_count_true_mono(s1.drop_last(), s2.drop_last());
    }
}

impl BitMatrix {
    /// The bits of attribute `a`.
    pub open spec fn column(&self, a: int) -> Seq<bool> {
        column_bits(self.attributes@[a])
    }

    /// Whether `a` is an attribute of row `r`.
    pub open spec fn has(&self, a: int, r: int) -> bool {
        self.column(a)[r]
    }

    /// One column per attribute, one bit per row, and each frequency counts its column.
    pub open spec fn wf(&self) -> bool {
        &&& self.attributes@.len() == self.num_cols
        &&& self.attr_freqs@.len() == self.num_cols
        &&& forall|a: int|
            0 <= a < self.num_cols ==> (#[trigger] self.column(a)).len() == self.num_rows
                && self.attr_freqs@[a] == count_true(self.column(a))
    }

    /// Whether row `r` holds every attribute of `path`.
    pub open spec fn row_covers(&self, path: Seq<usize>, r: int) -> bool {
        forall|i: int| 0 <= i < path.len() ==> #[trigger] self.has(path[i] as int, r)
    }

    /// The number of rows that hold every attribute of `path`.
    pub open spec fn support(&self, path: Seq<usize>) -> nat {
        count_true(Seq::new(self.num_rows as nat, |r: int| self.row_covers(path, r)))
    }

    /// Dropping attributes from a path never lowers its support.
    pub proof fn lemma_support_subset(&self, sub: Seq<usize>, path: Seq<usize>)
        requires
            forall|i: int| 0 <= i < sub.len() ==> path.contains(#[trigger] sub[i]),
        ensures
            self.support(path) <= self.support(sub),
    {
        let s1 = Seq::new(self.num_rows as nat, |r: int| self.row_covers(path, r));
        let s2 = Seq::new(self.num_rows as nat, |r: int| self.row_covers(sub, r));
        assert forall|r: int| 0 <= r < s1.len() && #[trigger] s1[r] implies s2[r] by {
            assert forall|i: int| 0 <= i < sub.len() implies #[trigger] self.has(sub[i] as int, r) by {
                assert(path.contains(sub[i]));
                let k = choose|k: int| 0 <= k < path.len() && path[k] == sub[i];
                assert(self.has(path[k] as int, r));
            }
        }
        lemma_count_true_mono(s1, s2);
    }

    /// The support of a single attribute is its frequency.
    pub proof fn lemma_support_single(&self, a: usize)
        requires
            self.wf(),
            a < self.num_cols,
        ensures
            self.support(seq![a]) == self.attr_freqs@[a as int],
    {
        assert(self.column(a as int).len() == self.num_rows);
        assert forall|r: int| 0 <= r < self.num_rows implies #[trigger] self.row_covers(seq![a], r)
            == self.column(a as int)[r] by {
            assert(seq![a][0] == a);
            if self.column(a as int)[r] {
                assert forall|i: int| 0 <= i < seq![a].len() implies #[trigger] self.has(
                    seq![a][i] as int,
                    r,
                ) by {}
            } else {
                assert(!self.has(seq![a][0] as int, r));
            }
        }
        assert(Seq::new(self.num_rows as nat, |r: int| self.row_covers(seq![a], r)) =~= self.column(
            a as int,
        ));
    }

    /// Builds the matrix of `rows`, each the list of its attributes; attributes
    /// from `num_cols` on are ignored.
    pub fn from_rows(rows: Vec<Vec<usize>>, num_cols: usize) -> (m: BitMatrix)
        requires
            rows@.len() <= usize::MAX / 8,
        ensures
            m.wf(),
            m.num_rows == rows@.len(),
            m.num_cols == num_cols,
            forall|a: int, r: int|
                0 <= a < num_cols && 0 <= r < rows@.len() ==> #[trigger] m.has(a, r)
                    == rows@[r]@.contains(a as usize),
    {
        let num_rows = rows.len();
        let mut attributes: Vec<BitColumn> = Vec::new();
        for a in 0..num_cols
            invariant
                num_rows <= usize::MAX / 8,
                attributes@.len() == a,
                forall|c: int|
                    0 <= c < a ==> column_bits(#[trigger] attributes@[c]) == Seq::new(
                        num_rows as nat,
                        |i: int| false,
                    ),
        {
            attributes.push(BitColumn::repeat(false, num_rows));
        }
        for row_idx in 0..num_rows
            invariant
                num_rows == rows@.len(),
                attributes@.len() == num_cols,
                forall|c: int|
                    0 <= c < num_cols ==> (#[trigger] column_bits(attributes@[c])).len() == num_rows,
                forall|c: int, r: int|
                    0 <= c < num_cols && 0 <= r < num_rows ==> #[trigger] column_bits(attributes@[c])[r]
                        == (r < row_idx && rows@[r]@.contains(c as usize)),
        {
            let attrs = &rows[row_idx];
            for j in 0..attrs.len()
                invariant
                    num_rows == rows@.len(),
                    row_idx < num_rows,
                    attrs == rows@[row_idx as int],
                    attributes@.len() == num_cols,
                    forall|c: int|
                        0 <= c < num_cols ==> (#[trigger] column_bits(attributes@[c])).len() == num_rows,
                    forall|c: int, r: int|
                        0 <= c < num_cols && 0 <= r < num_rows ==> #[trigger] column_bits(attributes@[c])[r]
                            == if r == row_idx {
                            attrs@.take(j as int).contains(c as usize)
                        } else {
                            r < row_idx && rows@[r]@.contains(c as usize)
                        },
            {
                let attr = attrs[j];
                let ghost before = attributes@;
                if attr < num_cols {
                    attributes[attr].set(row_idx, true);
                }
                proof {
                    let t0 = attrs@.take(j as int);
                    let t1 = attrs@.take(j + 1);
                    assert(t1 =~= t0.push(attr));
                    assert forall|c: int, r: int|
                        0 <= c < num_cols && 0 <= r < num_rows implies #[trigger] column_bits(
                            attributes@[c],
                        )[r] == if r == row_idx {
                            t1.contains(c as usize)
                        } else {
                            r < row_idx && rows@[r]@.contains(c as usize)
                        } by {
                        if c != attr || attr >= num_cols {
                            assert(attributes@[c] == before[c]);
                        } else {
                            assert(column_bits(attributes@[c]) == column_bits(before[c]).update(
                                row_idx as int,
                                true,
                            ));
                        }
                        if r == row_idx && c == attr {
                            assert(t1[j as int] == attr);
                        }
                        if r == row_idx {
                            if t0.contains(c as usize) {
                                let w = choose|w: int| 0 <= w < t0.len() && #[trigger] t0[w] == c as usize;
                                assert(t1[w] == c as usize);
                            }
                            if t1.contains(c as usize) && !t0.contains(c as usize) {
                                let w = choose|w: int| 0 <= w < t1.len() && #[trigger] t1[w] == c as usize;
                                if w < t0.len() {
                                    assert(t0[w] == c as usize);
                                }
                            }
                        }
                    }
                }
            }
            proof {
                assert(attrs@.take(attrs@.len() as int) =~= attrs@);
            }
        }
        let mut attr_freqs: Vec<usize> = Vec::new();
        for i in 0..num_cols
            invariant
                attributes@.len() == num_cols,
                attr_freqs@.len() == i,
                forall|c: int|
                    0 <= c < i ==> attr_freqs@[c] == count_true(#[trigger] column_bits(attributes@[c])),
        {
            attr_freqs.push(attributes[i].count_ones());
        }
        BitMatrix { attributes, attr_freqs, num_rows, num_cols }
    }

    /// Builds the matrix of the lines of a transaction file: row `r` holds the
    /// attribute indices written in line `r`, separated by whitespace (fields
    /// that are not indices are skipped); indices from `num_cols` on are
    /// ignored.
    pub fn from_lines(lines: &[&str], num_cols: usize) -> (m: BitMatrix)
        requires
            lines@.len() <= usize::MAX / 8,
        ensures
            m.wf(),
            m.num_rows == lines@.len(),
            m.num_cols == num_cols,
            forall|a: int, r: int|
                0 <= a < num_cols && 0 <= r < lines@.len() ==> #[trigger] m.has(a, r) == fields_from(
                    lines@[r].spec_bytes(),
                    0,
                ).contains(a as usize),
    {
        let mut rows: Vec<Vec<usize>> = Vec::new();
        for i in 0..lines.len()
            invariant
                rows@.len() == i,
                forall|r: int| 0 <= r < i ==> (#[trigger] rows@[r])@ == fields_from(lines@[r].spec_bytes(), 0),
        {
            rows.push(parse_transaction(lines[i]));
        }
        let ghost rs = rows@;
        let m = BitMatrix::from_rows(rows, num_cols);
        proof {
            assert forall|a: int, r: int|
                0 <= a < num_cols && 0 <= r < lines@.len() implies #[trigger] m.has(a, r) == fields_from(
                    lines@[r].spec_bytes(),
                    0,
                ).contains(a as usize) by {
                assert(rs[r]@ == fields_from(lines@[r].spec_bytes(), 0));
            }
        }
        m
    }

    /// The number of rows that hold every attribute of `path` (all rows for an
    /// empty path). Every attribute of `path` must be a column of the matrix.
    pub fn frequency(&self, path: &[usize]) -> (f: usize)
        requires
            self.wf(),
            forall|i: int| 0 <= i < path@.len() ==> #[trigger] path@[i] < self.num_cols,
        ensures
            f == self.support(path@),
    {
        if path.len() == 0 {
            proof {
                assert(Seq::new(self.num_rows as nat, |r: int| self.row_covers(path@, r)) =~= Seq::new(
                    self.num_rows as nat,
                    |i: int| true,
                ));
                lemma_count_true_all(self.num_rows as nat);
            }
            return self.num_rows;
        }
        let mut res = self.attributes[path[0]].duplicate();
        proof {
            assert(path@[0] < self.num_cols);
            assert(self.column(path@[0] as int).len() == self.num_rows);
            let t = path@.take(1);
            assert forall|r: int| 0 <= r < self.num_rows implies #[trigger] column_bits(res)[r]
                == self.row_covers(t, r) by {
                assert(t[0] == path@[0]);
                assert(self.has(t[0] as int, r) == column_bits(res)[r]);
                if column_bits(res)[r] {
                    assert forall|i: int| 0 <= i < t.len() implies #[trigger] self.has(t[i] as int, r) by {}
                }
            }
            assert(self.column(path@[0] as int).len() == self.num_rows);
        }
        let mut j: usize = 1;
        while j < path.len()
            invariant
                self.wf(),
                forall|i: int| 0 <= i < path@.len() ==> #[trigger] path@[i] < self.num_cols,
                1 <= j <= path@.len(),
                column_bits(res) =~= Seq::new(
                    self.num_rows as nat,
                    |r: int| self.row_covers(path@.take(j as int), r),
                ),
            decreases path@.len() - j,
        {
            let ghost before = column_bits(res);
            res.and_assign(&self.attributes[path[j]]);
            proof {
                let next = path@.take(j + 1);
                assert(next =~= path@.take(j as int).push(path@[j as int]));
                assert forall|r: int| 0 <= r < self.num_rows implies #[trigger] column_bits(res)[r]
                    == self.row_covers(next, r) by {
                    assert(self.column(path@[j as int] as int).len() == self.num_rows);
                    if self.row_covers(next, r) {
                        assert forall|i: int| 0 <= i < j implies #[trigger] self.has(
                            path@.take(j as int)[i] as int,
                            r,
                        ) by {
                            assert(next[i] == path@.take(j as int)[i]);
                        }
                        assert(self.has(next[j as int] as int, r));
                    } else {
                        let i = choose|i: int| 0 <= i < next.len() && !#[trigger] self.has(next[i] as int, r);
                        if i < j {
                            assert(!self.has(path@.take(j as int)[i] as int, r));
                        }
                    }
                }
            }
            j += 1;
        }
        proof {
            assert(path@.take(path@.len() as int) =~= path@);
            assert(self.column(path@[0] as int).len() == self.num_rows);
        }
        res.count_ones()
    }
}

} // verus!
