//! Small helpers: 2x2 and 3x3 arrays built from a function of the position,
//! and arithmetic on numbers of any size.

use vstd::prelude::*;
use vstd::arithmetic::power2::{pow2, lemma_pow2_pos, lemma_pow2_unfold};
use num::BigUint;

verus! {

/// The natural number of any size of `num`, known only through its digits.
#[verifier::external_type_specification]
#[verifier::external_body]
pub struct ExBigUint(num::BigUint);

/// The digits of a `BigUint` in base two to the power 32, least significant
/// digit first: what `BigUint::to_u32_digits` gives.
pub uninterp spec fn big_digits(n: BigUint) -> Seq<u32>;

/// The number that digits in base two to the power 32 stand for, least
/// significant digit first.
pub closed spec fn digits_value(digits: Seq<u32>) -> nat
    decreases digits.len(),
{
    if digits.len() == 0 {
        0
    } else {
        digits[0] as nat + 0x1_0000_0000 * digits_value(digits.skip(1))
    }
}

/// The natural number that a `BigUint` holds.
pub open spec fn big_value(n: BigUint) -> nat {
    digits_value(big_digits(n))
}

/// `BigUint::from` on a `u64`: the number itself.
#[verifier::external_body]
pub(crate) fn big_from_u64(x: u64) -> (n: BigUint)
    ensures
        digits_value(big_digits(n)) == x,
{
    BigUint::from(x)
}

/// One shifted left by `k` with `<<` of `BigUint`: two to the power `k`.
/// The shift fails on a number of digits that does not fit the machine.
#[verifier::external_body]
pub(crate) fn big_pow2(k: u64) -> (n: BigUint)
    requires
        k <= usize::MAX,
    ensures
        big_value(n) == pow2(k as nat),
{
    BigUint::from(1u8) << k
}

/// `+` of `BigUint`: the sum.
#[verifier::external_body]
pub(crate) fn big_add(a: &BigUint, b: &BigUint) -> (n: BigUint)
    ensures
        big_value(n) == big_value(*a) + big_value(*b),
{
    a + b
}

/// `-` of `BigUint`, which fails if the result would be negative: the
/// difference.
#[verifier::external_body]
pub(crate) fn big_sub(a: &BigUint, b: &BigUint) -> (n: BigUint)
    requires
        big_value(*a) >= big_value(*b),
    ensures
        big_value(n) == big_value(*a) - big_value(*b),
{
    a - b
}

/// `>>` of `BigUint` by one: half the number, rounded down.
#[verifier::external_body]
pub(crate) fn big_half(a: &BigUint) -> (n: BigUint)
    ensures
        big_value(n) == big_value(*a) / 2,
{
    a >> 1u8
}

/// `BigUint::bits`: the fewest bits that can express the number, zero for
/// zero.
#[verifier::external_body]
pub(crate) fn big_bits(a: &BigUint) -> (bits: u64)
    ensures
        big_value(*a) < pow2(bits as nat),
        bits > 0 ==> pow2((bits - 1) as nat) <= big_value(*a),
{
    a.bits()
}

/// `BigUint::bit`: whether the bit at position `k` is set.
#[verifier::external_body]
pub(crate) fn big_bit(a: &BigUint, k: u64) -> (set: bool)
    ensures
        set == ((big_value(*a) / pow2(k as nat)) % 2 == 1),
{
    a.bit(k)
}

/// The least `r` with `n` at most two to the power `r`.
pub open spec fn log2_upper(n: nat) -> nat
    decreases n,
{
    if n <= 1 {
        0
    } else {
        log2_upper(((n + 1) / 2) as nat) + 1
    }
}

/// `log2_upper(n)` is the least exponent whose power of two reaches `n`.
pub proof fn lemma_log2_upper(n: nat)
    requires
        n >= 1,
    ensures
        n <= pow2(log2_upper(n)),
        log2_upper(n) > 0 ==> pow2((log2_upper(n) - 1) as nat) < n,
    decreases n,
{
    vstd::arithmetic::power2::lemma2_to64();
    if n > 1 {
        let h = ((n + 1) / 2) as nat;
        lemma_log2_upper(h);
        lemma_pow2_unfold(log2_upper(n));
        if log2_upper(h) > 0 {
            lemma_pow2_unfold(log2_upper(h));
        }
    }
}

/// The exponent found between two neighbouring powers of two is
/// `log2_upper`.
pub proof fn lemma_log2_upper_unique(n: nat, r: nat)
    requires
        n >= 1,
        n <= pow2(r),
        r > 0 ==> pow2((r - 1) as nat) < n,
    ensures
        r == log2_upper(n),
{
    lemma_log2_upper(n);
    let l = log2_upper(n);
    if r < l {
        if r < l - 1 {
            vstd::arithmetic::power2::lemma_pow2_strictly_increases(r, (l - 1) as nat);
        }
    } else if l < r {
        if l < r - 1 {
            vstd::arithmetic::power2::lemma_pow2_strictly_increases(l, (r - 1) as nat);
        }
    }
}

/// The ceiling of the base-two logarithm of `n`, for `n` at least one.
pub fn log2_upper_bigu(n: &BigUint) -> (r: u64)
    requires
        big_value(*n) >= 1,
    ensures
        r == log2_upper(big_value(*n)),
{
    let one = big_from_u64(1);
    let less = big_sub(n, &one);
    let r = big_bits(&less);
    proof {
        lemma_pow2_pos(r as nat);
        lemma_log2_upper_unique(big_value(*n), r as nat);
    }
    r
}

/// The ceiling of the base-two logarithm of `n`, or nothing for zero, which
/// has none.
pub fn try_log2_upper_bigu(n: &BigUint) -> (r: Option<u64>)
    ensures
        big_value(*n) == 0 <==> r is None,
        r matches Some(log) ==> log == log2_upper(big_value(*n)),
{
    proof {
        vstd::arithmetic::power2::lemma2_to64();
    }
    let bits = big_bits(n);
    if bits == 0 {
        None
    } else {
        proof {
            lemma_pow2_pos((bits - 1) as nat);
        }
        Some(log2_upper_bigu(n))
    }
}

/// The 2x2 array whose entry in row `i` and column `j` is `func(i, j)`.
pub fn make_2x2<A, F: Fn(usize, usize) -> A>(func: F) -> (r: [[A; 2]; 2])
    requires
        forall|i: usize, j: usize| i < 2 && j < 2 ==> func.requires((i, j)),
    ensures
        forall|i: usize, j: usize| i < 2 && j < 2 ==> func.ensures((i, j), #[trigger] r[i as int][j as int]),
{
    [[func(0, 0), func(0, 1)], [func(1, 0), func(1, 1)]]
}

/// The 2x2 array whose entry in row `i` and column `j` is what `func(i, j)`
/// gives, or the first error that it gives, row by row.
pub fn try_make_2x2<A, E, F: Fn(usize, usize) -> Result<A, E>>(func: F) -> (r: Result<[[A; 2]; 2], E>)
    requires
        forall|i: usize, j: usize| i < 2 && j < 2 ==> func.requires((i, j)),
    ensures
        match r {
            Ok(a) => forall|i: usize, j: usize|
                i < 2 && j < 2 ==> func.ensures((i, j), Ok(#[trigger] a[i as int][j as int])),
            Err(e) => func.ensures((0, 0), Err(e)) || func.ensures((0, 1), Err(e)) || func.ensures(
                (1, 0),
                Err(e),
            ) || func.ensures((1, 1), Err(e)),
        },
{
    let a = match func(0, 0) {
        Ok(v) => v,
        Err(e) => {
            return Err(e);
        },
    };
    let b = match func(0, 1) {
        Ok(v) => v,
        Err(e) => {
            return Err(e);
        },
    };
    let c = match func(1, 0) {
        Ok(v) => v,
        Err(e) => {
            return Err(e);
        },
    };
    let d = match func(1, 1) {
        Ok(v) => v,
        Err(e) => {
            return Err(e);
        },
    };
    Ok([[a, b], [c, d]])
}

/// The 3x3 array whose entry in row `i` and column `j` is `func(i, j)`.
pub fn make_3x3<A, F: Fn(usize, usize) -> A>(func: F) -> (r: [[A; 3]; 3])
    requires
        forall|i: usize, j: usize| i < 3 && j < 3 ==> func.requires((i, j)),
    ensures
        forall|i: usize, j: usize| i < 3 && j < 3 ==> func.ensures((i, j), #[trigger] r[i as int][j as int]),
{
    [
        [func(0, 0), func(0, 1), func(0, 2)],
        [func(1, 0), func(1, 1), func(1, 2)],
        [func(2, 0), func(2, 1), func(2, 2)],
    ]
}

} // verus!
