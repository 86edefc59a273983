//! Decimal text of integers, as it appears in bencode and in tracker queries,
//! and the byte-lexicographic order of byte strings.
use vstd::prelude::*;

verus! {

/// Whether `b` is an ASCII decimal digit.
pub open spec fn is_digit(b: u8) -> bool {
    48 <= b <= 57
}

/// Whether every byte of `t` is a decimal digit.
pub open spec fn all_digits(t: Seq<u8>) -> bool {
    forall|i: int| 0 <= i < t.len() ==> is_digit(#[trigger] t[i])
}

/// The number that the digits `t` spell out (leading zeros allowed).
pub open spec fn digits_value(t: Seq<u8>) -> nat
    decreases t.len(),
{
    if t.len() == 0 {
        0
    } else {
        digits_value(t.drop_last()) * 10 + (t.last() - 48) as nat
    }
}

/// The shortest decimal text of `n`: no leading zero unless `n` is zero.
pub open spec fn nat_text(n: nat) -> Seq<u8>
    decreases n,
{
    if n < 10 {
        seq![(n + 48) as u8]
    } else {
        nat_text(n / 10).push((n % 10 + 48) as u8)
    }
}

/// The decimal text of a signed integer, with `-` before negative values.
pub open spec fn int_text(i: int) -> Seq<u8> {
    if i < 0 {
        seq![45u8] + nat_text((-i) as nat)
    } else {
        nat_text(i as nat)
    }
}

/// Digits without a superfluous leading zero.
pub open spec fn canonical_digits(t: Seq<u8>) -> bool {
    &&& t.len() > 0
    &&& all_digits(t)
    &&& (t[0] == 48 ==> t.len() == 1)
}

/// The integer that `t` denotes in the bencode integer grammar: an optional
/// `-`, then digits with no leading zero; `-0` is not a number.
pub open spec fn int_value_of(t: Seq<u8>) -> Option<int> {
    if t.len() > 0 && t[0] == 45 {
        let m = t.drop_first();
        if canonical_digits(m) && m[0] != 48 {
            Some(-(digits_value(m) as int))
        } else {
            None
        }
    } else if canonical_digits(t) {
        Some(digits_value(t) as int)
    } else {
        None
    }
}

/// Byte-lexicographic order: `a` sorts strictly before `b`.
pub open spec fn lex_lt(a: Seq<u8>, b: Seq<u8>) -> bool
    decreases a.len(),
{
    if a.len() == 0 {
        b.len() > 0
    } else if b.len() == 0 {
        false
    } else if a[0] != b[0] {
        a[0] < b[0]
    } else {
        lex_lt(a.drop_first(), b.drop_first())
    }
}

pub proof fn lemma_nat_text_shape(n: nat)
    ensures
        canonical_digits(nat_text(n)),
        digits_value(nat_text(n)) == n,
        n > 0 ==> nat_text(n)[0] != 48,
    decreases n,
{
    if n >= 10 {
        lemma_nat_text_shape(n / 10);
        let t = nat_text(n);
        assert(t.drop_last() =~= nat_text(n / 10));
        assert forall|i: int| 0 <= i < t.len() implies is_digit(#[trigger] t[i]) by {
            if i < t.len() - 1 {
                assert(t[i] == nat_text(n / 10)[i]);
            }
        }
        assert(t.last() == (n % 10 + 48) as u8);
        assert(digits_value(t) == digits_value(nat_text(n / 10)) * 10 + (n % 10));
        assert((n / 10) * 10 + n % 10 == n);
    } else {
        assert(nat_text(n).drop_last() =~= Seq::<u8>::empty());
        assert(digits_value(Seq::<u8>::empty()) == 0);
    }
}

pub proof fn lemma_int_text_value(i: int)
    ensures
        int_value_of(int_text(i)) == Some(i),
{
    if i < 0 {
        lemma_nat_text_shape((-i) as nat);
        assert((seq![45u8] + nat_text((-i) as nat)).drop_first() =~= nat_text((-i) as nat));
    } else {
        lemma_nat_text_shape(i as nat);
    }
}

pub proof fn lemma_digits_prefix_monotone(t: Seq<u8>, j: int)
    requires
        0 <= j <= t.len(),
        all_digits(t),
    ensures
        digits_value(t.subrange(0, j)) <= digits_value(t),
    decreases t.len() - j,
{
    if j < t.len() {
        lemma_digits_prefix_monotone(t, j + 1);
        assert(t.subrange(0, j + 1).drop_last() =~= t.subrange(0, j));
        assert(is_digit(t[j]));
    } else {
        assert(t.subrange(0, j) =~= t);
    }
}

pub proof fn lemma_lex_irreflexive(a: Seq<u8>)
    ensures
        !lex_lt(a, a),
    decreases a.len(),
{
    if a.len() > 0 {
        lemma_lex_irreflexive(a.drop_first());
    }
}

pub proof fn lemma_lex_trichotomy(a: Seq<u8>, b: Seq<u8>)
    ensures
        a =~= b || lex_lt(a, b) || lex_lt(b, a),
        !(lex_lt(a, b) && lex_lt(b, a)),
    decreases a.len(),
{
    if a.len() > 0 && b.len() > 0 && a[0] == b[0] {
        lemma_lex_trichotomy(a.drop_first(), b.drop_first());
        if a.drop_first() =~= b.drop_first() {
            assert(a =~= seq![a[0]] + a.drop_first());
            assert(b =~= seq![b[0]] + b.drop_first());
        }
    }
}

pub proof fn lemma_lex_transitive(a: Seq<u8>, b: Seq<u8>, c: Seq<u8>)
    requires
        lex_lt(a, b),
        lex_lt(b, c),
    ensures
        lex_lt(a, c),
    decreases a.len(),
{
    if a.len() > 0 && b.len() > 0 && c.len() > 0 && a[0] == b[0] && b[0] == c[0] {
        lemma_lex_transitive(a.drop_first(), b.drop_first(), c.drop_first());
    }
}

/// Appends the decimal text of `n` to `out`.
pub fn push_decimal(n: u64, out: &mut Vec<u8>)
    ensures
        final(out)@ == old(out)@ + nat_text(n as nat),
    decreases n,
{
    if n >= 10 {
        push_decimal(n / 10, out);
    }
    out.push((n % 10) as u8 + 48);
    assert(final(out)@ =~= old(out)@ + nat_text(n as nat));
}

/// Appends the decimal text of `x`, with a leading `-` when negative.
pub fn push_signed_decimal(x: isize, out: &mut Vec<u8>)
    ensures
        final(out)@ == old(out)@ + int_text(x as int),
{
    if x < 0 {
        out.push(45u8);
        let m: u64 = (-(x as i128)) as u64;
        push_decimal(m, out);
        assert(final(out)@ =~= old(out)@ + int_text(x as int));
    } else {
        push_decimal(x as u64, out);
    }
}

/// Reads the digits `data[start..end]` as a number, `None` when a byte is not a
/// digit, the range is empty, or the number does not fit in a `u64`.
pub fn read_digits(data: &[u8], start: usize, end: usize) -> (r: Option<u64>)
    requires
        start <= end <= data@.len(),
    ensures
        ({
            let t = data@.subrange(start as int, end as int);
            match r {
                Some(n) => t.len() > 0 && all_digits(t) && n == digits_value(t),
                None => t.len() == 0 || !all_digits(t) || digits_value(t) > u64::MAX,
            }
        }),
{
    if start == end {
        return None;
    }
    let ghost t = data@.subrange(start as int, end as int);
    let mut acc: u64 = 0;
    let mut k: usize = start;
    while k < end
        invariant
            start <= k <= end <= data@.len(),
            t == data@.subrange(start as int, end as int),
            all_digits(data@.subrange(start as int, k as int)),
            acc == digits_value(data@.subrange(start as int, k as int)),
        decreases end - k,
    {
        let b = data[k];
        if b < 48 || b > 57 {
            assert(t[k - start] == b);
            return None;
        }
        let d = (b - 48) as u64;
        assert(data@.subrange(start as int, k + 1).drop_last() =~= data@.subrange(start as int, k as int));
        if acc > (u64::MAX - d) / 10 {
            proof {
                if all_digits(t) {
                    lemma_digits_prefix_monotone(t, k + 1 - start);
                    assert(t.subrange(0, k + 1 - start) =~= data@.subrange(start as int, k + 1));
                    assert(acc * 10 + d > u64::MAX) by (nonlinear_arith)
                        requires
                            acc > (u64::MAX - d) / 10,
                            d <= 9,
                    ;
                }
            }
            return None;
        }
        proof {
            assert(acc * 10 + d <= u64::MAX) by (nonlinear_arith)
                requires
                    acc <= (u64::MAX - d) / 10,
                    d <= 9,
            ;
        }
        acc = acc * 10 + d;
        k = k + 1;
        assert(all_digits(data@.subrange(start as int, k as int))) by {
            let s = data@.subrange(start as int, k as int);
            assert forall|i: int| 0 <= i < s.len() implies is_digit(#[trigger] s[i]) by {
                if i < s.len() - 1 {
                    assert(s[i] == data@.subrange(start as int, k - 1)[i]);
                }
            }
        }
    }
    assert(data@.subrange(start as int, k as int) =~= t);
    Some(acc)
}

} // verus!
