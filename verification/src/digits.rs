use vstd::prelude::*;
use vstd::slice::slice_subrange;
use vstd::arithmetic::mul::{lemma_mul_inequality, lemma_mul_strictly_positive};
use crate::types::{DIGIT_ZERO, DIGIT_NINE, MARK_MINUS};

verus! {

pub open spec fn spec_is_digit(b: u8) -> bool {
    DIGIT_ZERO <= b && b <= DIGIT_NINE
}

pub open spec fn all_digits(s: Seq<u8>) -> bool {
    forall|i: int| 0 <= i < s.len() ==> spec_is_digit(#[trigger] s[i])
}

/// The non-negative integer a sequence of ASCII digits denotes.
pub open spec fn spec_dec_value(d: Seq<u8>) -> int
    decreases d.len(),
{
    if d.len() == 0 {
        0
    } else {
        spec_dec_value(d.drop_last()) * 10 + (d.last() - DIGIT_ZERO)
    }
}

/// The canonical ASCII digits of a non-negative integer: no leading zero.
pub open spec fn spec_dec_digits(n: int) -> Seq<u8>
    decreases n,
{
    if n < 10 {
        seq![(DIGIT_ZERO + (if 0 <= n { n } else { 0int })) as u8]
    } else {
        spec_dec_digits(n / 10) + seq![(DIGIT_ZERO + n % 10) as u8]
    }
}

pub proof fn lemma_dec_value_snoc(d: Seq<u8>, b: u8)
    ensures
        spec_dec_value(d + seq![b]) == spec_dec_value(d) * 10 + (b - DIGIT_ZERO),
{
    assert((d + seq![b]).drop_last() =~= d);
    assert((d + seq![b]).last() == b);
}

pub proof fn lemma_dec_value_nonneg(d: Seq<u8>)
    requires
        all_digits(d),
    ensures
        spec_dec_value(d) >= 0,
    decreases d.len(),
{
    if d.len() > 0 {
        assert(all_digits(d.drop_last()));
        lemma_dec_value_nonneg(d.drop_last());
    }
}

/// The canonical digits of `n` are in fact digits, denote `n`, and carry no
/// leading zero.
pub proof fn lemma_dec_digits_value(n: int)
    requires
        n >= 0,
    ensures
        spec_dec_digits(n).len() >= 1,
        all_digits(spec_dec_digits(n)),
        spec_dec_value(spec_dec_digits(n)) == n,
        n > 0 ==> spec_dec_digits(n)[0] != DIGIT_ZERO,
        n == 0 ==> spec_dec_digits(n) =~= seq![DIGIT_ZERO],
    decreases n,
{
    if n < 10 {
        let d = spec_dec_digits(n);
        assert(d =~= seq![(DIGIT_ZERO + n) as u8]);
        assert(d.drop_last() =~= Seq::<u8>::empty());
        assert(d.last() == (DIGIT_ZERO + n) as u8);
        assert(spec_dec_value(Seq::<u8>::empty()) == 0);
        assert(spec_dec_value(d) == spec_dec_value(d.drop_last()) * 10 + (d.last() - DIGIT_ZERO));
        assert((DIGIT_ZERO + n) as u8 - DIGIT_ZERO == n);
    } else {
        lemma_dec_digits_value(n / 10);
        let hd = spec_dec_digits(n / 10);
        let b = (DIGIT_ZERO + n % 10) as u8;
        lemma_dec_value_snoc(hd, b);
        assert(spec_dec_value(hd + seq![b]) == (n / 10) * 10 + n % 10);
        assert((n / 10) * 10 + n % 10 == n) by (nonlinear_arith);
        assert(all_digits(hd + seq![b])) by {
            assert(forall|i: int|
                0 <= i < hd.len() ==> (hd + seq![b])[i] == #[trigger] hd[i]);
        }
        assert((hd + seq![b])[0] == hd[0]);
        assert(n / 10 > 0);
    }
}

pub open spec fn pow10(e: nat) -> int
    decreases e,
{
    if e == 0 {
        1
    } else {
        10 * pow10((e - 1) as nat)
    }
}

pub proof fn lemma_pow10_positive(e: nat)
    ensures
        pow10(e) >= 1,
    decreases e,
{
    if e > 0 {
        lemma_pow10_positive((e - 1) as nat);
    }
}

/// A digit string's value splits around any cut point.
pub proof fn lemma_dec_value_split(d: Seq<u8>, i: int)
    requires
        0 <= i <= d.len(),
    ensures
        spec_dec_value(d) == spec_dec_value(d.take(i)) * pow10((d.len() - i) as nat)
            + spec_dec_value(d.skip(i)),
    decreases d.len() - i,
{
    if i == d.len() {
        assert(d.take(i) =~= d);
        assert(d.skip(i) =~= Seq::<u8>::empty());
        assert(pow10(0) == 1);
    } else {
        lemma_dec_value_split(d, i + 1);
        let p = pow10((d.len() - i - 1) as nat);
        assert(d.take(i + 1) =~= d.take(i) + seq![d[i]]);
        lemma_dec_value_snoc(d.take(i), d[i]);
        assert(d.skip(i).drop_first() =~= d.skip(i + 1));
        assert(d.skip(i).len() > 0);
        lemma_dec_value_head(d.skip(i));
        assert(d.skip(i)[0] == d[i]);
        assert(d.skip(i).len() - 1 == d.len() - i - 1);
        assert(spec_dec_value(d.skip(i)) == (d[i] - DIGIT_ZERO) * p + spec_dec_value(d.skip(i + 1)));
        assert((spec_dec_value(d.take(i)) * 10 + (d[i] - DIGIT_ZERO)) * p
            == spec_dec_value(d.take(i)) * (10 * p) + (d[i] - DIGIT_ZERO) * p) by (nonlinear_arith);
        assert(pow10((d.len() - i) as nat) == 10 * p);
    }
}

/// A digit string's value also unfolds from the front.
pub proof fn lemma_dec_value_head(d: Seq<u8>)
    requires
        d.len() > 0,
    ensures
        spec_dec_value(d) == (d[0] - DIGIT_ZERO) * pow10((d.len() - 1) as nat)
            + spec_dec_value(d.drop_first()),
    decreases d.len(),
{
    if d.len() == 1 {
        assert(d.drop_last() =~= Seq::<u8>::empty());
        assert(d.drop_first() =~= Seq::<u8>::empty());
        assert(pow10(0) == 1);
    } else {
        lemma_dec_value_head(d.drop_last());
        assert(d.drop_last()[0] == d[0]);
        assert(d.drop_last().drop_first() =~= d.drop_first().drop_last());
        assert(d.drop_first().last() == d.last());
        let p = pow10((d.len() - 2) as nat);
        assert(spec_dec_value(d) == spec_dec_value(d.drop_last()) * 10 + (d.last() - DIGIT_ZERO));
        assert(spec_dec_value(d.drop_first()) == spec_dec_value(d.drop_first().drop_last()) * 10 + (
        d.drop_first().last() - DIGIT_ZERO));
        assert(((d[0] - DIGIT_ZERO) * p + spec_dec_value(d.drop_first().drop_last())) * 10 == (d[0]
            - DIGIT_ZERO) * (10 * p) + spec_dec_value(d.drop_first().drop_last()) * 10)
            by (nonlinear_arith);
        assert(pow10((d.len() - 1) as nat) == 10 * p);
    }
}

/// Appending digits can only grow a digit string's value.
pub proof fn lemma_dec_value_prefix_le(d: Seq<u8>, i: int)
    requires
        0 <= i <= d.len(),
        all_digits(d),
    ensures
        spec_dec_value(d.take(i)) <= spec_dec_value(d),
{
    lemma_dec_value_split(d, i);
    let p = pow10((d.len() - i) as nat);
    lemma_pow10_positive((d.len() - i) as nat);
    assert(all_digits(d.take(i)));
    assert(all_digits(d.skip(i)));
    lemma_dec_value_nonneg(d.take(i));
    lemma_dec_value_nonneg(d.skip(i));
    lemma_mul_inequality(1, p, spec_dec_value(d.take(i)));
}

/// One more digit multiplies the prefix value by ten and adds the digit,
/// and later digits only grow the total.
pub proof fn lemma_dec_prefix_bound(d: Seq<u8>, i: int)
    requires
        0 <= i < d.len(),
        all_digits(d),
    ensures
        spec_dec_value(d) >= spec_dec_value(d.take(i)) * 10 + (d[i] - DIGIT_ZERO),
{
    assert(d.take(i + 1) =~= d.take(i) + seq![d[i]]);
    lemma_dec_value_snoc(d.take(i), d[i]);
    lemma_dec_value_prefix_le(d, i + 1);
}

pub proof fn lemma_dec_value_all_zeros(d: Seq<u8>)
    requires
        forall|j: int| 0 <= j < d.len() ==> d[j] == DIGIT_ZERO,
    ensures
        spec_dec_value(d) == 0,
    decreases d.len(),
{
    if d.len() > 0 {
        lemma_dec_value_all_zeros(d.drop_last());
    }
}

/// Leading zeros do not change a digit string's value.
pub proof fn lemma_dec_value_leading_zeros(d: Seq<u8>, i: int)
    requires
        0 <= i <= d.len(),
        forall|j: int| 0 <= j < i ==> d[j] == DIGIT_ZERO,
    ensures
        spec_dec_value(d.skip(i)) == spec_dec_value(d),
{
    lemma_dec_value_split(d, i);
    lemma_dec_value_all_zeros(d.take(i));
}

/// A digit string that does not open with zero denotes at least one.
pub proof fn lemma_dec_value_positive(d: Seq<u8>)
    requires
        all_digits(d),
        d.len() >= 1,
        d[0] != DIGIT_ZERO,
    ensures
        spec_dec_value(d) >= 1,
{
    lemma_dec_value_head(d);
    let p = pow10((d.len() - 1) as nat);
    lemma_pow10_positive((d.len() - 1) as nat);
    assert(all_digits(d.drop_first()));
    lemma_dec_value_nonneg(d.drop_first());
    lemma_mul_inequality(1, d[0] - DIGIT_ZERO, p);
}

/// A canonical digit string is recovered from the value it denotes.
pub proof fn lemma_dec_digits_canon(d: Seq<u8>)
    requires
        all_digits(d),
        d.len() >= 1,
        d.len() > 1 ==> d[0] != DIGIT_ZERO,
    ensures
        spec_dec_digits(spec_dec_value(d)) == d,
    decreases d.len(),
{
    let m = spec_dec_value(d);
    lemma_dec_value_nonneg(d);
    if d.len() == 1 {
        assert(d.drop_last() =~= Seq::<u8>::empty());
        assert(d.last() == d[0]);
        assert(spec_dec_value(Seq::<u8>::empty()) == 0);
        assert(m == d[0] - DIGIT_ZERO);
        assert(spec_dec_digits(m) =~= d);
    } else {
        let dp = d.drop_last();
        let b = d.last();
        assert(all_digits(dp));
        assert(dp[0] == d[0]);
        lemma_dec_digits_canon(dp);
        lemma_dec_value_positive(dp);
        let q = spec_dec_value(dp);
        assert(m == q * 10 + (b - DIGIT_ZERO));
        assert(m >= 10 && m / 10 == q && m % 10 == b - DIGIT_ZERO) by (nonlinear_arith)
            requires
                m == q * 10 + (b - DIGIT_ZERO),
                DIGIT_ZERO <= b <= DIGIT_NINE,
                q >= 1,
        ;
        assert(spec_dec_digits(m) == spec_dec_digits(q) + seq![(DIGIT_ZERO + m % 10) as u8]);
        assert(spec_dec_digits(m) =~= d);
    }
}

/// The digit part of a signed decimal string: what follows an optional
/// leading minus sign.
pub open spec fn signed_digits(s: Seq<u8>) -> Seq<u8> {
    if s.len() > 0 && s[0] == MARK_MINUS {
        s.skip(1)
    } else {
        s
    }
}

/// The integer a signed decimal string denotes.
pub open spec fn spec_signed_value(s: Seq<u8>) -> int {
    if s.len() > 0 && s[0] == MARK_MINUS {
        -spec_dec_value(s.skip(1))
    } else {
        spec_dec_value(s)
    }
}

/// Parse a short unsigned decimal into a 64-bit accumulator. The fast path
/// succeeds exactly on non-empty all-digit strings of at most 20 digits
/// whose value fits, and then agrees with the arbitrary-precision reading.
pub fn try_parse_small_positive(bytes: &[u8]) -> (r: Option<u64>)
    ensures
        r is Some <==> {
            &&& 0 < bytes@.len() <= 20
            &&& all_digits(bytes@)
            &&& spec_dec_value(bytes@) <= u64::MAX
        },
        r matches Some(n) ==> n as int == spec_dec_value(bytes@),
{
    if bytes.len() == 0 || bytes.len() > 20 {
        return None;
    }
    let mut result: u64 = 0;
    let mut i: usize = 0;
    while i < bytes.len()
        invariant
            0 <= i <= bytes.len(),
            bytes@.len() <= 20,
            all_digits(bytes@.take(i as int)),
            result as int == spec_dec_value(bytes@.take(i as int)),
        decreases bytes.len() - i,
    {
        let b = bytes[i];
        if b < DIGIT_ZERO || b > DIGIT_NINE {
            proof {
                assert(!spec_is_digit(bytes@[i as int]));
            }
            return None;
        }
        let digit = (b - DIGIT_ZERO) as u64;
        proof {
            assert(bytes@.take(i as int + 1).drop_last() =~= bytes@.take(i as int));
            assert(bytes@.take(i as int + 1).last() == bytes@[i as int]);
        }
        let shifted = match result.checked_mul(10) {
            Some(v) => v,
            None => {
                proof {
                    lemma_overflow_means_large(bytes@, i as int, result as int, digit as int);
                }
                return None;
            }
        };
        let sum = match shifted.checked_add(digit) {
            Some(v) => v,
            None => {
                proof {
                    lemma_overflow_means_large(bytes@, i as int, result as int, digit as int);
                }
                return None;
            }
        };
        result = sum;
        i = i + 1;
    }
    proof {
        assert(bytes@.take(bytes@.len() as int) =~= bytes@);
    }
    Some(result)
}

/// If the accumulator cannot take the next digit, the whole string's value
/// is beyond 64 bits.
proof fn lemma_overflow_means_large(d: Seq<u8>, i: int, acc: int, digit: int)
    requires
        0 <= i < d.len(),
        all_digits(d.take(i)),
        spec_is_digit(d[i]),
        acc == spec_dec_value(d.take(i)),
        digit == d[i] - DIGIT_ZERO,
        acc * 10 + digit > u64::MAX,
    ensures
        all_digits(d) ==> spec_dec_value(d) > u64::MAX,
{
    if all_digits(d) {
        assert(d.take(i + 1) =~= d.take(i) + seq![d[i]]);
        lemma_dec_value_snoc(d.take(i), d[i]);
        lemma_dec_value_prefix_le(d, i + 1);
    }
}

/// Parse a short signed decimal into a 64-bit signed accumulator. Succeeds
/// exactly on an optional minus sign followed by at most 19 digits whose
/// signed value fits, and then agrees with the arbitrary-precision reading.
pub fn try_parse_small_integer(bytes: &[u8]) -> (r: Option<i64>)
    ensures
        r is Some <==> {
            &&& 0 < signed_digits(bytes@).len() <= 19
            &&& all_digits(signed_digits(bytes@))
            &&& i64::MIN <= spec_signed_value(bytes@) <= i64::MAX
        },
        r matches Some(n) ==> n as int == spec_signed_value(bytes@),
{
    if bytes.len() == 0 {
        return None;
    }
    let is_negative = bytes[0] == MARK_MINUS;
    let digits: &[u8] = if is_negative {
        slice_skip_first(bytes)
    } else {
        bytes
    };
    if digits.len() == 0 || digits.len() > 19 {
        return None;
    }
    let unsigned = match try_parse_small_positive(digits) {
        Some(v) => v,
        None => {
            proof {
                if all_digits(digits@) {
                    lemma_dec_value_nonneg(digits@);
                }
            }
            return None;
        }
    };
    if is_negative {
        let min_abs: u64 = 9223372036854775808;
        if unsigned > min_abs {
            return None;
        }
        if unsigned == min_abs {
            return Some(i64::MIN);
        }
        Some(-(unsigned as i64))
    } else {
        if unsigned > 9223372036854775807 {
            return None;
        }
        Some(unsigned as i64)
    }
}

/// The tail of a slice after its first element.
fn slice_skip_first(s: &[u8]) -> (r: &[u8])
    requires
        s@.len() > 0,
    ensures
        r@ == s@.skip(1),
{
    let r = slice_subrange(s, 1, s.len());
    r
}

} // verus!
