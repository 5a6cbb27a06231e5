//! Text input: attribute indices, transaction lines and constraint pairs.
use vstd::prelude::*;
use vstd::string::StringSliceAdditionalSpecFns;

verus! {

/// Whether a byte is an ASCII decimal digit.
pub open spec fn is_digit(c: u8) -> bool {
    48 <= c <= 57
}

/// The number that a sequence of decimal digits writes.
pub open spec fn digits_value(d: Seq<u8>) -> nat
    decreases d.len(),
{
    if d.len() == 0 {
        0
    } else {
        digits_value(d.drop_last()) * 10 + (d.last() - 48) as nat
    }
}

/// A text without its leading `+`, if it has one.
pub open spec fn unsigned_digits(b: Seq<u8>) -> Seq<u8> {
    if b.len() > 0 && b[0] == 43 {
        b.drop_first()
    } else {
        b
    }
}

/// The value of one or more decimal digits, if it fits in a `usize`.
pub open spec fn parse_digits(d: Seq<u8>) -> Option<usize> {
    if d.len() > 0 && (forall|i: int| 0 <= i < d.len() ==> is_digit(#[trigger] d[i])) && digits_value(d)
        <= usize::MAX {
        Some(digits_value(d) as usize)
    } else {
        None
    }
}

/// How `str::parse::<usize>` reads a text: an optional `+`, then one or more
/// decimal digits whose value fits in a `usize`.
pub open spec fn parse_usize_spec(b: Seq<u8>) -> Option<usize> {
    parse_digits(unsigned_digits(b))
}

/// Appending digits never lowers the value.
proof fn lemma_digits_value_grows(d: Seq<u8>, i: int, j: int)
    requires
        0 <= i <= j <= d.len(),
        forall|k: int| 0 <= k < d.len() ==> is_digit(#[trigger] d[k]),
    ensures
        digits_value(d.take(i)) <= digits_value(d.take(j)),
    decreases j - i,
{
    if i < j {
        lemma_digits_value_grows(d, i, j - 1);
        assert(d.take(j).drop_last() =~= d.take(j - 1));
    }
}

/// Reads `b[start..end]` as `str::parse::<usize>` does.
fn parse_usize(b: &[u8], start: usize, end: usize) -> (r: Option<usize>)
    requires
        start <= end <= b@.len(),
    ensures
        r == parse_usize_spec(b@.subrange(start as int, end as int)),
{
    let ghost t = b@.subrange(start as int, end as int);
    let mut i = start;
    if start < end && b[start] == 43 {
        i = start + 1;
    }
    let ghost d = unsigned_digits(t);
    proof {
        assert(d =~= b@.subrange(i as int, end as int));
    }
    if i == end {
        return None;
    }
    let ghost ds = i as int;
    let mut value: usize = 0;
    while i < end
        invariant
            start <= ds <= i <= end <= b@.len(),
            d =~= b@.subrange(ds, end as int),
            t == b@.subrange(start as int, end as int),
            d == unsigned_digits(t),
            d.len() > 0,
            forall|k: int| 0 <= k < i - ds ==> is_digit(#[trigger] d[k]),
            value == digits_value(d.take(i - ds)),
        decreases end - i,
    {
        let ghost p = i - ds;
        let c = b[i];
        proof {
            assert(d[p] == c);
        }
        if c < 48 || c > 57 {
            proof {
                assert(!is_digit(d[p]));
            }
            return None;
        }
        proof {
            assert(d.take(p + 1).drop_last() =~= d.take(p));
        }
        let digit = (c - 48) as usize;
        let stepped = match value.checked_mul(10) {
            None => None,
            Some(m) => m.checked_add(digit),
        };
        match stepped {
            None => {
                proof {
                    assert(d.take(p + 1).last() == c);
                    assert(digits_value(d.take(p + 1)) == value * 10 + digit);
                    assert(digits_value(d.take(p + 1)) > usize::MAX);
                    if forall|k: int| 0 <= k < d.len() ==> is_digit(#[trigger] d[k]) {
                        lemma_digits_value_grows(d, p + 1, d.len() as int);
                        assert(d.take(d.len() as int) =~= d);
                    }
                }
                return None;
            },
            Some(v) => {
                value = v;
            },
        }
        i += 1;
    }
    proof {
        assert(d.take(d.len() as int) =~= d);
    }
    Some(value)
}

/// The length in bytes of the whitespace character (as `char::is_whitespace`
/// has it) that starts at byte `i` of a UTF-8 text, or 0 if none starts there.
pub open spec fn ws_len(b: Seq<u8>, i: int) -> nat {
    if 0 <= i < b.len() {
        let c = b[i];
        if c == 9 || c == 10 || c == 11 || c == 12 || c == 13 || c == 32 {
            1
        } else if c == 0xC2 && i + 1 < b.len() && (b[i + 1] == 0x85 || b[i + 1] == 0xA0) {
            2
        } else if i + 2 < b.len() && ((c == 0xE1 && b[i + 1] == 0x9A && b[i + 2] == 0x80) || (c
            == 0xE2 && b[i + 1] == 0x80 && ((0x80 <= b[i + 2] && b[i + 2] <= 0x8A) || b[i + 2]
            == 0xA8 || b[i + 2] == 0xA9 || b[i + 2] == 0xAF)) || (c == 0xE2 && b[i + 1] == 0x81
            && b[i + 2] == 0x9F) || (c == 0xE3 && b[i + 1] == 0x80 && b[i + 2] == 0x80)) {
            3
        } else {
            0
        }
    } else {
        0
    }
}

/// The first position from `i` on where whitespace starts, or the end.
pub open spec fn token_end(b: Seq<u8>, i: int) -> int
    decreases b.len() - i,
{
    if i >= b.len() || ws_len(b, i) > 0 {
        i
    } else {
        token_end(b, i + 1)
    }
}

proof fn lemma_token_end_bounds(b: Seq<u8>, i: int)
    requires
        0 <= i <= b.len(),
    ensures
        i <= token_end(b, i) <= b.len(),
    decreases b.len() - i,
{
    if i < b.len() && ws_len(b, i) == 0 {
        lemma_token_end_bounds(b, i + 1);
    }
}

#[via_fn]
proof fn fields_from_decreases(b: Seq<u8>, i: int) {
    if 0 <= i < b.len() && ws_len(b, i) == 0 {
        lemma_token_end_bounds(b, i + 1);
    }
}

/// The numbers of a text from byte `i` on: the text is cut into fields at
/// whitespace, and the fields that read as `usize` are kept, in order.
pub open spec fn fields_from(b: Seq<u8>, i: int) -> Seq<usize>
    decreases b.len() - i,
    via fields_from_decreases
{
    if i < 0 || i >= b.len() {
        Seq::empty()
    } else if ws_len(b, i) > 0 {
        fields_from(b, i + ws_len(b, i))
    } else {
        let e = token_end(b, i);
        match parse_usize_spec(b.subrange(i, e)) {
            Some(v) => seq![v] + fields_from(b, e),
            None => fields_from(b, e),
        }
    }
}

/// `ws_len` on a byte slice.
fn whitespace_len(b: &[u8], i: usize) -> (r: usize)
    requires
        i < b@.len(),
    ensures
        r == ws_len(b@, i as int),
{
    let n = b.len();
    let c = b[i];
    if c == 9 || c == 10 || c == 11 || c == 12 || c == 13 || c == 32 {
        1
    } else if c == 0xC2 && i + 1 < n && (b[i + 1] == 0x85 || b[i + 1] == 0xA0) {
        2
    } else if n - i > 2 {
        let c1 = b[i + 1];
        let c2 = b[i + 2];
        if (c == 0xE1 && c1 == 0x9A && c2 == 0x80) || (c == 0xE2 && c1 == 0x80 && ((0x80 <= c2
            && c2 <= 0x8A) || c2 == 0xA8 || c2 == 0xA9 || c2 == 0xAF)) || (c == 0xE2 && c1 == 0x81
            && c2 == 0x9F) || (c == 0xE3 && c1 == 0x80 && c2 == 0x80) {
            3
        } else {
            0
        }
    } else {
        0
    }
}

/// Reads one line of transaction data: the attribute indices written in it,
/// separated by whitespace. Fields that are not indices are skipped.
pub fn parse_transaction(line: &str) -> (r: Vec<usize>)
    ensures
        r@ == fields_from(line.spec_bytes(), 0),
{
    let b = line.as_bytes();
    let n = b.len();
    let mut out: Vec<usize> = Vec::new();
    let mut i: usize = 0;
    while i < n
        invariant
            n == b@.len(),
            i <= n,
            fields_from(b@, 0) == out@ + fields_from(b@, i as int),
        decreases n - i,
    {
        let w = whitespace_len(b, i);
        if w > 0 {
            i = i + w;
        } else {
            let mut e = i + 1;
            loop
                invariant
                    n == b@.len(),
                    i < e <= n,
                    token_end(b@, i as int) == token_end(b@, e as int),
                ensures
                    token_end(b@, i as int) == e,
                decreases n - e,
            {
                if e == n {
                    break;
                }
                if whitespace_len(b, e) > 0 {
                    break;
                }
                e += 1;
            }
            let ghost old_out = out@;
            match parse_usize(b, i, e) {
                Some(v) => {
                    out.push(v);
                    proof {
                        assert(out@ + fields_from(b@, e as int) =~= old_out + (seq![v] + fields_from(
                            b@,
                            e as int,
                        )));
                    }
                },
                None => {},
            }
            i = e;
        }
    }
    proof {
        assert(out@ + Seq::<usize>::empty() =~= out@);
    }
    out
}

/// `p` is the position of the one and only `:` of `b`.
pub open spec fn is_only_colon(b: Seq<u8>, p: int) -> bool {
    &&& 0 <= p < b.len()
    &&& b[p] == 58
    &&& forall|q: int| 0 <= q < b.len() && q != p ==> #[trigger] b[q] != 58
}

/// A text `A:B` with exactly one `:`, where `A` and `B` both read as `usize`.
pub open spec fn parse_pair_spec(b: Seq<u8>) -> Option<(usize, usize)> {
    if exists|p: int| is_only_colon(b, p) {
        let p = choose|p: int| is_only_colon(b, p);
        match (parse_usize_spec(b.take(p)), parse_usize_spec(b.skip(p + 1))) {
            (Some(x), Some(y)) => Some((x, y)),
            _ => None,
        }
    } else {
        None
    }
}

/// Reads a compatibility constraint written `A:B`.
pub fn parse_pair(s: &str) -> (r: Option<(usize, usize)>)
    ensures
        r == parse_pair_spec(s.spec_bytes()),
{
    let b = s.as_bytes();
    let n = b.len();
    let mut first: Option<usize> = None;
    let mut many = false;
    for i in 0..n
        invariant
            n == b@.len(),
            first is None ==> !many && forall|q: int| 0 <= q < i ==> #[trigger] b@[q] != 58,
            first matches Some(f) ==> f < i && b@[f as int] == 58 && (forall|q: int|
                0 <= q < f ==> #[trigger] b@[q] != 58),
            first matches Some(f) ==> (!many ==> forall|q: int| f < q < i ==> #[trigger] b@[q] != 58),
            first matches Some(f) ==> (many ==> exists|q: int| f < q < i && #[trigger] b@[q] == 58),
    {
        if b[i] == 58 {
            match first {
                None => {
                    first = Some(i);
                },
                Some(_) => {
                    many = true;
                },
            }
        }
    }
    match first {
        None => {
            proof {
                assert forall|p: int| !is_only_colon(b@, p) by {
                    if 0 <= p < b@.len() {
                        assert(b@[p] != 58);
                    }
                }
            }
            None
        },
        Some(f) => {
            if many {
                proof {
                    let q = choose|q: int| f < q < n && #[trigger] b@[q] == 58;
                    assert forall|p: int| !is_only_colon(b@, p) by {
                        if is_only_colon(b@, p) {
                            if p != f {
                                assert(b@[f as int] == 58);
                            } else {
                                assert(b@[q] == 58);
                            }
                        }
                    }
                }
                return None;
            }
            proof {
                assert(is_only_colon(b@, f as int));
                assert forall|p: int| is_only_colon(b@, p) implies p == f by {
                    assert(b@[f as int] == 58);
                }
                assert(b@.subrange(0, f as int) =~= b@.take(f as int));
                assert(b@.subrange(f + 1, n as int) =~= b@.skip(f + 1));
            }
            let left = parse_usize(b, 0, f);
            let right = parse_usize(b, f + 1, n);
            match (left, right) {
                (Some(x), Some(y)) => Some((x, y)),
                _ => None,
            }
        },
    }
}

/// The decimal digits of `n`, as `format!("{}", n)` writes them: no sign and
/// no leading zero (zero is the one digit `0`).
pub open spec fn decimal(n: nat) -> Seq<u8>
    decreases n,
{
    if n < 10 {
        seq![(48 + n) as u8]
    } else {
        decimal(n / 10).push((48 + n % 10) as u8)
    }
}

/// The decimal digits of `n` are one or more digits that write `n`.
pub proof fn lemma_decimal(n: nat)
    ensures
        decimal(n).len() > 0,
        forall|i: int| 0 <= i < decimal(n).len() ==> is_digit(#[trigger] decimal(n)[i]),
        digits_value(decimal(n)) == n,
    decreases n,
{
    if n >= 10 {
        lemma_decimal(n / 10);
        let d = decimal(n / 10);
        let c = (48 + n % 10) as u8;
        assert(c == 48 + n % 10);
        assert(decimal(n) == d.push(c));
        assert(decimal(n).drop_last() =~= d);
        assert(decimal(n).last() == c);
        assert(digits_value(decimal(n)) == digits_value(d) * 10 + (c - 48) as nat);
        assert(n == (n / 10) * 10 + n % 10);
    } else {
        let c = (48 + n) as u8;
        assert(c == 48 + n);
        assert(decimal(n).drop_last() =~= Seq::<u8>::empty());
        assert(digits_value(decimal(n)) == digits_value(Seq::<u8>::empty()) * 10 + (c - 48) as nat);
    }
}

/// Law: `parse_pair` reads back a pair written as `A:B` in decimal.
pub proof fn lemma_parse_pair_decimal(a: usize, b: usize)
    ensures
        parse_pair_spec(decimal(a as nat) + seq![58u8] + decimal(b as nat)) == Some((a, b)),
{
    let da = decimal(a as nat);
    let db = decimal(b as nat);
    lemma_decimal(a as nat);
    lemma_decimal(b as nat);
    let t = da + seq![58u8] + db;
    let p = da.len() as int;
    assert(t[p] == 58);
    assert forall|q: int| 0 <= q < t.len() && q != p implies #[trigger] t[q] != 58 by {
        if q < p {
            assert(t[q] == da[q]);
            assert(is_digit(da[q]));
        } else {
            assert(t[q] == db[q - p - 1]);
            assert(is_digit(db[q - p - 1]));
        }
    }
    assert(is_only_colon(t, p));
    let p2 = choose|p2: int| is_only_colon(t, p2);
    assert(p2 == p);
    assert(t.take(p) =~= da);
    assert(t.skip(p + 1) =~= db);
    assert(unsigned_digits(da) == da);
    assert(unsigned_digits(db) == db);
}

} // verus!
