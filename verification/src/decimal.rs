//! Decimal numerals.

use vstd::prelude::*;

verus! {

/// The byte of the digit zero.
pub const ZERO: u8 = 48;

/// Whether `c` is the byte of a decimal digit.
pub open spec fn is_digit(c: u8) -> bool {
    48 <= c <= 57
}

/// The number that the digit byte `c` stands for.
pub open spec fn digit_of(c: u8) -> nat {
    (c - 48) as nat
}

/// The byte of the digit `d`, for `d < 10`.
pub open spec fn digit_byte(d: nat) -> u8 {
    (48 + d) as u8
}

/// Whether all of `s` is digits.
pub open spec fn all_digits(s: Seq<u8>) -> bool {
    forall|i: int| 0 <= i < s.len() ==> is_digit(#[trigger] s[i])
}

/// The decimal numeral of `n`: no sign, no leading zero but for zero itself.
pub open spec fn numeral(n: nat) -> Seq<u8>
    decreases n,
{
    if n < 10 {
        seq![digit_byte(n)]
    } else {
        numeral(n / 10).push(digit_byte(n % 10))
    }
}

/// The number that the digits `s` stand for.
pub open spec fn value(s: Seq<u8>) -> nat
    decreases s.len(),
{
    if s.len() == 0 {
        0
    } else {
        10 * value(s.drop_last()) + digit_of(s.last())
    }
}

/// How many digits stand in `b` from position `k` on, one after the other.
pub open spec fn digits_at(b: Seq<u8>, k: int) -> nat
    decreases b.len() - k,
{
    if 0 <= k < b.len() && is_digit(b[k]) {
        1 + digits_at(b, k + 1)
    } else {
        0
    }
}

/// A numeral is made of digits, starts with zero only if it is zero, and
/// stands for its number.
pub proof fn lemma_numeral(n: nat)
    ensures
        all_digits(numeral(n)),
        numeral(n).len() >= 1,
        numeral(n)[0] == ZERO <==> n == 0,
        n == 0 ==> numeral(n).len() == 1,
        value(numeral(n)) == n,
    decreases n,
{
    if n < 10 {
        assert(numeral(n).drop_last() =~= Seq::<u8>::empty());
        assert(value(numeral(n).drop_last()) == 0);
    } else {
        lemma_numeral(n / 10);
        let s = numeral(n);
        assert(s.drop_last() =~= numeral(n / 10));
        assert(s[0] == numeral(n / 10)[0]);
    }
}

/// Digits that do not start with zero stand for a number that is not zero.
pub proof fn lemma_value_positive(s: Seq<u8>)
    requires
        all_digits(s),
        s.len() >= 1,
        s[0] != ZERO,
    ensures
        value(s) >= 1,
    decreases s.len(),
{
    if s.len() > 1 {
        lemma_value_positive(s.drop_last());
    } else {
        assert(s.last() == s[0]);
    }
}

/// Digits without a leading zero are the numeral of the number that they
/// stand for.
pub proof fn lemma_value_numeral(s: Seq<u8>)
    requires
        all_digits(s),
        s.len() >= 1,
        s.len() > 1 ==> s[0] != ZERO,
    ensures
        numeral(value(s)) == s,
    decreases s.len(),
{
    let t = s.drop_last();
    if s.len() == 1 {
        assert(t =~= Seq::<u8>::empty());
        assert(value(t) == 0);
        assert(numeral(value(s)) =~= s);
    } else {
        lemma_value_positive(t);
        lemma_value_numeral(t);
        assert(value(s) / 10 == value(t));
        assert(numeral(value(s)) =~= s);
    }
}

/// More digits do not stand for less.
pub proof fn lemma_value_grows(s: Seq<u8>, m: int)
    requires
        0 <= m <= s.len(),
    ensures
        value(s.take(m)) <= value(s),
    decreases s.len() - m,
{
    if m < s.len() {
        lemma_value_grows(s.drop_last(), m);
        assert(s.drop_last().take(m) =~= s.take(m));
    } else {
        assert(s.take(m) =~= s);
    }
}

/// Where digits stand from `k` up to `j`, the run of digits at `k` is that
/// long and as long again as the run at `j`.
pub proof fn lemma_digits_at(b: Seq<u8>, k: int, j: int)
    requires
        0 <= k <= j <= b.len(),
        forall|i: int| k <= i < j ==> is_digit(#[trigger] b[i]),
    ensures
        digits_at(b, k) == (j - k) + digits_at(b, j),
    decreases j - k,
{
    if k < j {
        lemma_digits_at(b, k + 1, j);
    }
}

/// Behind a digit the run goes on if and only if another digit follows.
pub proof fn lemma_digits_two(b: Seq<u8>, k: int)
    requires
        0 <= k < b.len(),
        is_digit(b[k]),
    ensures
        digits_at(b, k) >= 1,
        digits_at(b, k) > 1 <==> k + 1 < b.len() && is_digit(b[k + 1]),
{
    assert(digits_at(b, k) == 1 + digits_at(b, k + 1));
}

/// The run of digits at `k` lies within `b`, is made of digits, and ends
/// where `b` ends or a byte that is no digit stands.
pub proof fn lemma_digits_run(b: Seq<u8>, k: int)
    requires
        0 <= k <= b.len(),
    ensures
        k + digits_at(b, k) <= b.len(),
        all_digits(b.subrange(k, k + digits_at(b, k))),
        k + digits_at(b, k) < b.len() ==> !is_digit(b[k + digits_at(b, k)]),
    decreases b.len() - k,
{
    if k < b.len() && is_digit(b[k]) {
        lemma_digits_run(b, k + 1);
        let n = digits_at(b, k);
        let s = b.subrange(k, k + n);
        let t = b.subrange(k + 1, k + n);
        assert forall|i: int| 0 <= i < s.len() implies is_digit(#[trigger] s[i]) by {
            if i > 0 {
                assert(s[i] == t[i - 1]);
            }
        }
    }
}

/// Appends the numeral of `n` to `out`.
pub fn push_numeral(out: &mut Vec<u8>, n: u32)
    ensures
        final(out)@ == old(out)@ + numeral(n as nat),
    decreases n,
{
    if n >= 10 {
        push_numeral(out, n / 10);
    }
    let d: u8 = (n % 10) as u8;
    out.push(48 + d);
    assert(out@ =~= old(out)@ + numeral(n as nat));
}

} // verus!
