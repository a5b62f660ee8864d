//! Multiplication of two decimals: the exact product, rounded half to even, dropping the fewest
//! digits that make the mantissa fit within 96 bits and the scale at most `MAX_SCALE`.
use crate::decimal::{
    base128, base32, base64, base96, flags, flags_spec, lemma_or3_zero, CalculationResult, Decimal, MAX_I64_SCALE,
    MAX_SCALE,
};
use crate::digits::{
    big_powers_10, decimal_digits_u128, decimal_digits_u32, lemma_num_digits_below,
    lemma_pow10_monotone, lemma_pow10_pos, lemma_pow10_values, num_digits, pow10,
};
use crate::laws::{
    lemma_mul_correctly_rounded, lemma_mul_no_finer_scale, lemma_mul_overflow_exactly,
    lemma_mul_product_sign, lemma_mul_tiny_or_zero, rounds_to,
};
use crate::divisor::{
    lemma_split, pow10_divisor, pow10_divisor_128, words3, NormalizedDivisor, NormalizedDivisor128,
    MAX_POW10_U64,
};
use vstd::arithmetic::div_mod::*;
use vstd::arithmetic::mul::*;
use vstd::arithmetic::power2::*;
use vstd::bits::*;
use vstd::prelude::*;
use vstd::std_specs::cmp::{PartialEqIs, PartialEqSpec, PartialOrdIs, PartialOrdSpec};

verus! {

/// `p` divided by 10^k, rounded half to even.
pub open spec fn round_div_pow10(p: nat, k: nat) -> nat {
    let d = pow10(k);
    let q = p / d;
    let r = p % d;
    if 2 * r > d || (2 * r == d && q % 2 == 1) {
        q + 1
    } else {
        q
    }
}

/// Whether dropping `k` digits of `p`, with rounding, leaves a mantissa within 96 bits.
pub open spec fn fits_after_dropping(p: nat, k: nat) -> bool {
    round_div_pow10(p, k) < base96()
}

/// The fewest digits, from `k` up to `max`, whose dropping leaves `p` within 96 bits.
pub open spec fn fewest_dropped(p: nat, k: nat, max: nat) -> Option<nat>
    decreases max + 1 - k,
{
    if k > max {
        None
    } else if fits_after_dropping(p, k) {
        Some(k)
    } else {
        fewest_dropped(p, k + 1, max)
    }
}

/// The digits that must be dropped at least for the scale to come within `MAX_SCALE`.
pub open spec fn min_dropped(scale: nat) -> nat {
    if scale > MAX_SCALE {
        (scale - MAX_SCALE) as nat
    } else {
        0
    }
}

/// The product `p` at `scale`, rescaled to a mantissa within 96 bits and a scale of at most
/// `MAX_SCALE`: (mantissa, sign, scale), or none when it can't be represented.
pub open spec fn rescaled_product(p: nat, negative: bool, scale: nat) -> Option<(nat, bool, nat)> {
    match fewest_dropped(p, min_dropped(scale), scale) {
        Some(k) => Some((round_div_pow10(p, k), negative, (scale - k) as nat)),
        None => None,
    }
}

/// The product of two decimals as (mantissa, sign, scale), or none on overflow. A zero operand
/// gives a positive zero at scale 0. The product of two mantissas within 32 bits gives zero
/// when the combined scale exceeds `MAX_SCALE + MAX_I64_SCALE`, and loses its sign when it
/// rounds to zero; wider products keep their sign.
pub open spec fn mul_spec(a: Decimal, b: Decimal) -> Option<(nat, bool, nat)> {
    let ma = a.mantissa_spec();
    let mb = b.mantissa_spec();
    let negative = a.negative_spec() != b.negative_spec();
    let scale = a.scale_spec() + b.scale_spec();
    let small = ma < base32() && mb < base32();
    if ma == 0 || mb == 0 {
        Some((0, false, 0))
    } else if small && scale > MAX_SCALE + MAX_I64_SCALE {
        Some((0, false, 0))
    } else {
        match rescaled_product(ma * mb, negative, scale) {
            Some((m, neg, s)) => Some((m, neg && !(m == 0 && small), s)),
            None => None,
        }
    }
}

/// Whether a decimal is well formed and has the given mantissa, sign and scale.
pub open spec fn decimal_is(d: Decimal, m: nat, negative: bool, scale: nat) -> bool {
    &&& d.wf()
    &&& d.mantissa_spec() == m
    &&& d.negative_spec() == negative
    &&& d.scale_spec() == scale
}

/// Whether a calculation result is the expected (mantissa, sign, scale), or an overflow where
/// none is expected.
pub open spec fn result_is(r: CalculationResult, expected: Option<(nat, bool, nat)>) -> bool {
    match r {
        CalculationResult::Value(d) => match expected {
            Some((m, neg, s)) => decimal_is(d, m, neg, s),
            None => false,
        },
        CalculationResult::Overflow => expected is None,
        CalculationResult::DivByZero => false,
    }
}

/// Returned by `rescale_product` when the product can't be represented. It can't be confused with
/// a valid result since its flags hold a scale above the maximum.
pub const RESCALE_OVERFLOW: u128 = 0xFFFF_FFFF_FFFF_FFFF_FFFF_FFFF_FFFF_FFFF;

/// The low 64 bits of a decimal's mantissa.
pub fn low64(d: &Decimal) -> (r: u64)
    ensures
        r == d.lo as nat + d.mid as nat * base32(),
{
    proof {
        lemma_join32(d.mid as u64, d.lo as u64);
    }
    ((d.mid() as u64) << 32) | d.lo() as u64
}

/// Whether a quotient should be rounded up given its remainder, using round half to even.
pub fn rounds_up<T: PartialOrd>(remainder: T, half: T, odd: bool) -> (r: bool)
    ensures
        T::obeys_partial_cmp_spec() && T::obeys_eq_spec() ==> r == (remainder.is_gt(&half) || (
        remainder.is_eq(&half) && odd)),
{
    remainder > half || (remainder == half && odd)
}

/// Divides `value` by 10^power (1 <= power <= 19), rounding half to even.
pub fn div_round_pow10(value: u64, power: u32) -> (r: u64)
    requires
        1 <= power <= MAX_I64_SCALE,
    ensures
        r == round_div_pow10(value as nat, power as nat),
{
    let divisor = big_powers_10(power as usize - 1);
    proof {
        lemma_pow10_values();
    }
    let quotient = value / divisor;
    proof {
        lemma_fundamental_div_mod(value as int, divisor as int);
        lemma_mul_is_commutative(quotient as int, divisor as int);
        lemma_u64_shr_is_div(divisor, 1);
        lemma2_to64();
        lemma_and1_u64(quotient);
        assert(divisor as nat == 10 * pow10((power - 1) as nat));
        assert(quotient < u64::MAX) by (nonlinear_arith)
            requires
                quotient == value / divisor,
                divisor >= 10,
        ;
    }
    let remainder = value - quotient * divisor;
    quotient + rounds_up(remainder, divisor >> 1, quotient & 1 != 0) as u64
}

/// Joining two 32 bit words into a 64 bit value.
pub proof fn lemma_join32(hi: u64, lo: u64)
    requires
        hi < 0x1_0000_0000,
        lo < 0x1_0000_0000,
    ensures
        (hi << 32u64) | lo == hi * 0x1_0000_0000 + lo,
{
    assert(hi < 0x1_0000_0000u64 && lo < 0x1_0000_0000u64 ==> (hi << 32u64) | lo == hi
        * 0x1_0000_0000u64 + lo) by (bit_vector);
}

/// The low bit of a u64 is its parity.
pub proof fn lemma_and1_u64(x: u64)
    ensures
        (x & 1u64 != 0u64) == (x % 2 == 1),
{
    assert((x & 1u64 != 0u64) == (x % 2u64 == 1u64)) by (bit_vector);
}


/// The two 32 bit words of a 64 bit value.
pub proof fn lemma_split64(x: u64)
    ensures
        (x as u32) as nat == x as nat % base32(),
        ((x >> 32u64) as u32) as nat == x as nat / base32(),
{
    assert((x as u32) as u64 == x % 0x1_0000_0000u64 && ((x >> 32u64) as u32) as u64 == x
        / 0x1_0000_0000u64) by (bit_vector);
}

/// A flags word built from a sign and a scale within range holds that sign and scale.
pub proof fn lemma_flags_decode(d: Decimal, negative: bool, scale: nat)
    requires
        scale <= MAX_SCALE,
        d.flags as nat == flags_spec(negative, scale),
    ensures
        d.wf(),
        d.negative_spec() == negative,
        d.scale_spec() == scale,
{
}

/// Dropping 20 or more digits rounds any 64 bit value to zero.
pub proof fn lemma_round_u64_to_zero(p: nat, k: nat)
    requires
        p < base64(),
        k >= 20,
    ensures
        round_div_pow10(p, k) == 0,
{
    lemma_pow10_values();
    lemma_pow10_monotone(20, k);
    vstd::arithmetic::div_mod::lemma_basic_div(p as int, pow10(k) as int);
    vstd::arithmetic::div_mod::lemma_small_mod(p, pow10(k));
}

/// Rounds the non-zero product of two 32 bit mantissas whose combined scale exceeds the maximum.
pub fn mul_32_rescale(product: u64, negative: bool, scale: u32) -> (d: Decimal)
    requires
        scale > MAX_SCALE,
    ensures
        scale > MAX_SCALE + MAX_I64_SCALE ==> decimal_is(d, 0, false, 0),
        scale <= MAX_SCALE + MAX_I64_SCALE ==> decimal_is(
            d,
            round_div_pow10(product as nat, (scale - MAX_SCALE) as nat),
            negative && round_div_pow10(product as nat, (scale - MAX_SCALE) as nat) != 0,
            MAX_SCALE as nat,
        ),
{
    // We've exceeded maximum scale so we need to start reducing the precision (aka
    // rounding) until we have something that fits.
    // If we're too big then we effectively round to zero.
    if scale > Decimal::MAX_SCALE + MAX_I64_SCALE {
        return Decimal::zero();
    }
    let quotient = div_round_pow10(product, scale - Decimal::MAX_SCALE);
    proof {
        lemma_split64(quotient);
    }
    // Unlike the other paths, this drops the sign if the result rounds to zero.
    let d = Decimal::from_parts(
        quotient as u32,
        (quotient >> 32) as u32,
        0,
        negative,
        Decimal::MAX_SCALE,
    );
    proof {
        lemma_flags_decode(d, negative && quotient != 0, MAX_SCALE as nat);
    }
    d
}

/// Rounds a non-zero product that fits within 64 bits but whose scale exceeds the maximum. This
/// gives the same result as `rescale_product`, but a single hardware division is cheaper.
pub fn rescale_u64(product: u64, negative: bool, scale: u32) -> (d: Decimal)
    requires
        scale > MAX_SCALE,
    ensures
        decimal_is(
            d,
            round_div_pow10(product as nat, (scale - MAX_SCALE) as nat),
            negative,
            MAX_SCALE as nat,
        ),
{
    let power = scale - Decimal::MAX_SCALE;
    // Any 64 bit value rounds to zero when dropping 20 or more digits.
    let quotient = if power > MAX_I64_SCALE {
        proof {
            lemma_round_u64_to_zero(product as nat, power as nat);
        }
        0
    } else {
        div_round_pow10(product, power)
    };
    proof {
        lemma_split64(quotient);
    }
    let d = Decimal::from_parts_raw_unchecked(
        quotient as u32,
        (quotient >> 32) as u32,
        0,
        flags(negative, Decimal::MAX_SCALE),
    );
    proof {
        lemma_flags_decode(d, negative, MAX_SCALE as nat);
    }
    d
}


/// The 192 bit value `high64:low128`.
pub open spec fn product192(low128: u128, high64: u64) -> nat {
    high64 as nat * base128() + low128 as nat
}

/// For a positive divisor, a quotient is below `m` exactly when the dividend is below `m` times
/// the divisor.
pub proof fn lemma_div_below(p: nat, d: nat, m: nat)
    requires
        d > 0,
    ensures
        (p / d < m) == (p < m * d),
{
    lemma_fundamental_div_mod(p as int, d as int);
    let q = p / d;
    lemma_mul_is_commutative(m as int, d as int);
    if q < m {
        assert(d * q <= d * (m - 1)) by (nonlinear_arith)
            requires
                q <= m - 1,
                d > 0,
        ;
        assert(d * (m - 1) + d == d * m) by (nonlinear_arith);
    } else {
        assert(d * q >= d * m) by (nonlinear_arith)
            requires
                q >= m,
                d > 0,
        ;
    }
}

/// Dropping `k` digits leaves a quotient within 96 bits exactly when `k` is at least the number
/// of digits of `p / 2^96`.
pub proof fn lemma_quotient_fits(p: nat, k: nat)
    ensures
        (p / pow10(k) < base96()) == (num_digits(p / base96()) <= k),
{
    lemma_pow10_pos(k);
    lemma_num_digits_below(p / base96(), k);
    lemma_div_below(p, pow10(k), base96());
    lemma_div_below(p, base96(), pow10(k));
    assert(base96() * pow10(k) == pow10(k) * base96()) by (nonlinear_arith);
}

/// Rounding gives the floor quotient or one more.
pub proof fn lemma_round_bounds(p: nat, k: nat)
    ensures
        p / pow10(k) <= round_div_pow10(p, k) <= p / pow10(k) + 1,
{
}

/// With no digit count in `k..=max` that fits, there is no fewest.
pub proof fn lemma_fewest_none(p: nat, k: nat, max: nat)
    requires
        forall|j: nat| k <= j <= max ==> !#[trigger] fits_after_dropping(p, j),
    ensures
        fewest_dropped(p, k, max) is None,
    decreases max + 1 - k,
{
    if k <= max {
        assert(!fits_after_dropping(p, k));
        lemma_fewest_none(p, k + 1, max);
    }
}

/// The first digit count that fits is the fewest.
pub proof fn lemma_fewest_found(p: nat, k: nat, max: nat, j: nat)
    requires
        k <= j <= max,
        fits_after_dropping(p, j),
        forall|i: nat| k <= i < j ==> !#[trigger] fits_after_dropping(p, i),
    ensures
        fewest_dropped(p, k, max) == Some(j),
    decreases j - k,
{
    if k < j {
        assert(!fits_after_dropping(p, k));
        lemma_fewest_found(p, k + 1, max, j);
    }
}

/// Digit counts below the number of digits of `p / 2^96` never fit.
pub proof fn lemma_too_few_dropped(p: nat, j: nat)
    requires
        j < num_digits(p / base96()),
    ensures
        !fits_after_dropping(p, j),
{
    lemma_quotient_fits(p, j);
    lemma_round_bounds(p, j);
}

/// When the quotient after dropping `k` digits is 2^96 - 1 and rounds up, dropping one more
/// digit gives 2^96 / 10 rounded up.
pub proof fn lemma_round_carry(p: nat, k: nat)
    requires
        p / pow10(k) == base96() - 1,
        round_div_pow10(p, k) == base96(),
    ensures
        round_div_pow10(p, k + 1) == 7922816251426433759354395034,
        fits_after_dropping(p, k + 1),
{
    let d = pow10(k);
    let r = p % d;
    lemma_pow10_pos(k);
    lemma_fundamental_div_mod(p as int, d as int);
    assert(pow10(k + 1) == 10 * d);
    let c: nat = 7922816251426433759354395033;
    assert(p == c * (10 * d) + (5 * d + r)) by (nonlinear_arith)
        requires
            p == d * (base96() - 1) + r,
            base96() - 1 == 10 * c + 5,
    ;
    lemma_fundamental_div_mod_converse(p as int, (10 * d) as int, c as int, (5 * d + r) as int);
}

/// The rounding test on a remainder and divisor that are both shifted left by the same amount:
/// comparing with half the shifted (even) divisor compares twice the remainder with the divisor.
pub proof fn lemma_rounding_compare(rem: nat, divisor: nat, r: nat, d: nat, p: nat)
    requires
        p > 0,
        divisor == d * p,
        divisor % 2 == 0,
        rem == r * p,
    ensures
        (rem > divisor / 2) == (2 * r > d),
        (rem == divisor / 2) == (2 * r == d),
{
    assert(2 * rem == (2 * r) * p) by (nonlinear_arith)
        requires
            rem == r * p,
    ;
    if 2 * r > d {
        assert((2 * r) * p > d * p) by (nonlinear_arith)
            requires
                2 * r > d,
                p > 0,
        ;
    } else if 2 * r < d {
        assert((2 * r) * p < d * p) by (nonlinear_arith)
            requires
                2 * r < d,
                p > 0,
        ;
    }
}

/// Packing a 96 bit mantissa with a flags word above it.
pub proof fn lemma_pack(q: u128, f: u32)
    requires
        q < 0x1_0000_0000_0000_0000_0000_0000,
    ensures
        q | ((f as u128) << 96u128) == q + f as nat * base96(),
{
    assert(q < 0x1_0000_0000_0000_0000_0000_0000u128 ==> q | ((f as u128) << 96u128) == q + (
    f as u128) * 0x1_0000_0000_0000_0000_0000_0000u128) by (bit_vector);
}

/// The top of a 192 bit product, above its low 96 bits, as one 128 bit value.
pub proof fn lemma_top_word(l: u128, h: u64)
    ensures
        ((h as u128) << 32u128) | (l >> 96u128) == h as nat * base32() + l as nat / base96(),
{
    assert(((h as u128) << 32u128) | (l >> 96u128) == (h as u128) * 0x1_0000_0000u128 + l
        / 0x1_0000_0000_0000_0000_0000_0000u128) by (bit_vector);
}

/// The low bit of a u128 is its parity.
pub proof fn lemma_and1_u128(x: u128)
    ensures
        (x & 1u128 != 0u128) == (x % 2 == 1),
{
    assert((x & 1u128 != 0u128) == (x % 2u128 == 1u128)) by (bit_vector);
}


/// Rescales a non-zero 192 bit product `high64:low128` at `scale` so that the mantissa fits within
/// 96 bits and the scale is at most `MAX_SCALE`, rounding half to even.
///
/// The fewest digits needed are dropped, rounding takes every dropped digit into account, and if
/// rounding up carries out of 96 bits one more digit is dropped. The result may round to zero, in
/// which case the sign is kept.
///
/// Returns the new mantissa in the low 96 bits and the new flags in the upper 32 bits, or
/// `RESCALE_OVERFLOW` if the product can't be represented. Packing the result into a u128 lets it
/// be returned in registers.
pub fn rescale_product(low128: u128, high64: u64, negative: bool, scale: u32) -> (r: u128)
    requires
        scale <= 2 * MAX_SCALE,
    ensures
        match rescaled_product(product192(low128, high64), negative, scale as nat) {
            Some((m, neg, s)) => r == m + flags_spec(neg, s) * base96(),
            None => r == RESCALE_OVERFLOW,
        },
{
    let ghost p = product192(low128, high64);
    let ghost t = p / base96();
    proof {
        lemma_pow2_values_top();
        lemma_top_quotient(low128, high64);
        lemma_u128_shr_is_div(low128, 96);
    }
    // The number of digits to drop so that the quotient fits within 96 bits is the number of
    // digits in `product / 2^96`, since `product < 2^96 * 10^k` iff `product / 2^96 < 10^k`.
    let mut power = if high64 == 0 {
        // The product fits within 128 bits (the common case), so the top part fits within 32 bits.
        let top = (low128 >> 96) as u32;
        if top == 0 {
            0
        } else {
            decimal_digits_u32(top)
        }
    } else {
        proof {
            lemma_top_word(low128, high64);
        }
        decimal_digits_u128(((high64 as u128) << 32) | (low128 >> 96))
    };
    let ghost p0 = power as nat;
    proof {
        lemma_top_digits(t);
    }
    // We also need to drop enough digits to bring the scale into the valid range.
    if power + Decimal::MAX_SCALE < scale {
        power = scale - Decimal::MAX_SCALE;
    }
    let ghost lo = min_dropped(scale as nat);
    let ghost k = power as nat;
    proof {
        assert forall|j: nat| lo <= j < k implies !#[trigger] fits_after_dropping(p, j) by {
            lemma_too_few_dropped(p, j);
        }
    }
    if power > scale {
        proof {
            lemma_fewest_none(p, lo, scale as nat);
        }
        return RESCALE_OVERFLOW;
    }
    let mut scale = scale - power;
    proof {
        lemma_split(low128);
        lemma_quotient_fits(p, k);
        lemma_pow10_pos(k);
    }
    // Divide by 10^power. Since `product < 2^96 * 10^power`, the quotient fits within 96 bits.
    // The remainder and divisor are both shifted left by the same amount, so the remainder can be
    // compared with half of the shifted divisor.
    let dividend = [low128 as u64, (low128 >> 64) as u64, high64];
    assert(words3(dividend) == p);
    let (mut quotient, round_up) = if power <= MAX_POW10_U64 as u32 {
        let divisor = pow10_divisor(power as usize);
        let (quotient, remainder) = divisor.div_rem_to_128(dividend);
        proof {
            lemma_u64_shr_is_div(divisor.divisor, 1);
            lemma_and1_u128(quotient);
            lemma_pow2_pos(divisor.shift as nat);
            lemma_rounding_compare(
                remainder as nat,
                divisor.divisor as nat,
                p % pow10(k),
                pow10(k),
                pow2(divisor.shift as nat),
            );
        }
        (quotient, rounds_up(remainder, divisor.divisor >> 1, quotient & 1 != 0))
    } else {
        let divisor = pow10_divisor_128(power as usize - MAX_POW10_U64 - 1);
        let (quotient, remainder) = divisor.div_rem_to_128(dividend);
        proof {
            lemma_u128_shr_is_div(divisor.divisor, 1);
            lemma_and1_u128(quotient);
            lemma_pow2_pos(divisor.shift as nat);
            lemma_rounding_compare(
                remainder as nat,
                divisor.divisor as nat,
                p % pow10(k),
                pow10(k),
                pow2(divisor.shift as nat),
            );
        }
        (quotient, rounds_up(remainder, divisor.divisor >> 1, quotient & 1 != 0))
    };
    let ghost q_floor = quotient as nat;
    assert(q_floor == p / pow10(k));
    assert(quotient + (if round_up { 1nat } else { 0nat }) == round_div_pow10(p, k));
    if round_up {
        quotient += 1;
        proof {
            lemma_u128_shr_is_div(quotient, 96);
        }
        if quotient >> 96 != 0 {
            // Rounding carried out of 96 bits, so the quotient is exactly 2^96 and we need to drop
            // one more digit. 2^96 / 10 has a remainder of 6, so this always rounds up.
            if scale == 0 {
                proof {
                    lemma_fewest_none(p, lo, k);
                }
                return RESCALE_OVERFLOW;
            }
            scale -= 1;
            proof {
                lemma_round_carry(p, k);
                lemma_fewest_found(p, lo, (k + 1 + scale) as nat, k + 1);
                lemma_shift96();
            }
            quotient = (1u128 << 96) / 10 + 1;
        } else {
            proof {
                lemma_fewest_found(p, lo, (k + scale) as nat, k);
            }
        }
    } else {
        proof {
            lemma_fewest_found(p, lo, (k + scale) as nat, k);
        }
    }
    let f = crate::decimal::flags(negative, scale);
    proof {
        lemma_pack(quotient, f);
    }
    quotient | ((f as u128) << 96)
}

/// The part of a 192 bit product above its low 96 bits.
pub proof fn lemma_top_quotient(low128: u128, high64: u64)
    ensures
        product192(low128, high64) / base96() == high64 as nat * base32() + low128 as nat / base96(),
        product192(low128, high64) / base96() < base96(),
{
    let p = product192(low128, high64);
    lemma_fundamental_div_mod(low128 as int, base96() as int);
    assert(p == (high64 as nat * base32() + low128 as nat / base96()) * base96() + low128 as nat
        % base96());
    lemma_fundamental_div_mod_converse(
        p as int,
        base96() as int,
        (high64 as nat * base32() + low128 as nat / base96()) as int,
        (low128 as nat % base96()) as int,
    );
}

/// A value below 2^96 has at most 29 digits.
pub proof fn lemma_top_digits(t: nat)
    requires
        t < base96(),
    ensures
        num_digits(t) <= 29,
{
    lemma_pow10_values();
    lemma_num_digits_below(t, 29);
}

/// 2^96 and 2^128 as powers of two.
pub proof fn lemma_pow2_values_top()
    ensures
        pow2(96) == base96(),
        pow2(64) == base64(),
        pow2(1) == 2,
{
    crate::digits::lemma_pow2_values();
}

/// The constant 1 << 96.
pub proof fn lemma_shift96()
    ensures
        1u128 << 96u128 == base96(),
{
    assert(1u128 << 96u128 == 0x1_0000_0000_0000_0000_0000_0000u128) by (bit_vector);
}


/// The fewest digit count found is in range and fits.
pub proof fn lemma_fewest_fits(p: nat, k: nat, max: nat)
    requires
        fewest_dropped(p, k, max) is Some,
    ensures
        k <= fewest_dropped(p, k, max)->0 <= max,
        fits_after_dropping(p, fewest_dropped(p, k, max)->0),
    decreases max + 1 - k,
{
    if k <= max && !fits_after_dropping(p, k) {
        lemma_fewest_fits(p, k + 1, max);
    }
}

/// Dropping no digits leaves the value as it is.
pub proof fn lemma_round_none(p: nat)
    ensures
        round_div_pow10(p, 0) == p,
{
    assert(pow10(0) == 1);
}

/// The four 32 bit words of a 128 bit value: the low three hold it modulo 2^96, the top one the
/// rest.
pub proof fn lemma_words128(x: u128)
    ensures
        (x as u32) as nat + ((x >> 32u128) as u32) as nat * base32() + ((x >> 64u128) as u32) as nat
            * base64() == x as nat % base96(),
        ((x >> 96u128) as u32) as nat == x as nat / base96(),
{
    assert(((x as u32) as u128) + ((x >> 32u128) as u32) as u128 * 0x1_0000_0000u128 + ((x
        >> 64u128) as u32) as u128 * 0x1_0000_0000_0000_0000u128 == x
        % 0x1_0000_0000_0000_0000_0000_0000u128 && ((x >> 96u128) as u32) as u128 == x
        / 0x1_0000_0000_0000_0000_0000_0000u128) by (bit_vector);
}

/// Converts the 192 bit product `high64:low128` at the given (combined) scale into a Decimal,
/// rescaling it if the mantissa exceeds 96 bits or the scale exceeds the maximum.
pub fn finish_mul(low128: u128, high64: u64, negative: bool, scale: u32) -> (r: CalculationResult)
    requires
        scale <= 2 * MAX_SCALE,
    ensures
        result_is(r, rescaled_product(product192(low128, high64), negative, scale as nat)),
{
    let ghost p = product192(low128, high64);
    proof {
        lemma_pow2_values_top();
        lemma_u128_shr_is_div(low128, 96);
    }
    if high64 != 0 || low128 >> 96 != 0 || scale > Decimal::MAX_SCALE {
        let rescaled = rescale_product(low128, high64, negative, scale);
        if rescaled == RESCALE_OVERFLOW {
            proof {
                lemma_rescaled_not_overflow(p, negative, scale as nat);
            }
            return CalculationResult::Overflow;
        }
        proof {
            lemma_rescaled_not_overflow(p, negative, scale as nat);
            lemma_words128(rescaled);
        }
        let d = Decimal::from_parts_raw_unchecked(
            rescaled as u32,
            (rescaled >> 32) as u32,
            (rescaled >> 64) as u32,
            (rescaled >> 96) as u32,
        );
        proof {
            let (m, neg, s) = rescaled_product(p, negative, scale as nat)->0;
            lemma_flags_decode(d, neg, s);
        }
        return CalculationResult::Value(d);
    }
    // Result is non-zero (both inputs are non-zero, checked at entry of mul_impl)
    proof {
        lemma_words128(low128);
        lemma_round_none(p);
        lemma_small_mod(low128 as nat, base96());
    }
    let d = Decimal::from_parts_raw_unchecked(
        low128 as u32,
        (low128 >> 32) as u32,
        (low128 >> 64) as u32,
        crate::decimal::flags(negative, scale),
    );
    proof {
        lemma_flags_decode(d, negative, scale as nat);
    }
    CalculationResult::Value(d)
}

/// A representable rescaled product: its mantissa fits within 96 bits and its scale within
/// `MAX_SCALE`, so packing it with its flags can't give `RESCALE_OVERFLOW`; unpacking it gives
/// the mantissa and the flags back.
pub proof fn lemma_rescaled_not_overflow(p: nat, negative: bool, scale: nat)
    ensures
        rescaled_product(p, negative, scale) matches Some((m, neg, s)) ==> {
            &&& m < base96()
            &&& s <= MAX_SCALE
            &&& m + flags_spec(neg, s) * base96() < RESCALE_OVERFLOW
            &&& (m + flags_spec(neg, s) * base96()) % base96() == m
            &&& (m + flags_spec(neg, s) * base96()) / base96() == flags_spec(neg, s)
        },
{
    if rescaled_product(p, negative, scale) is Some {
        lemma_fewest_fits(p, min_dropped(scale), scale);
        let (m, neg, s) = rescaled_product(p, negative, scale)->0;
        let f = flags_spec(neg, s);
        lemma_fundamental_div_mod_converse((m + f * base96()) as int, base96() as int, f as int, m as int);
    }
}


/// Two words are both zero exactly when their bitwise or is.
pub proof fn lemma_or2_zero(a: u32, b: u32)
    ensures
        (a | b == 0u32) == (a == 0u32 && b == 0u32),
{
    assert((a | b == 0u32) == (a == 0u32 && b == 0u32)) by (bit_vector);
}

/// The low 64 bits of `a` joined with the low 64 bits of `m` above them.
pub proof fn lemma_low_join(a: u128, m: u128)
    ensures
        ((a as u64) as u128) | (m << 64u128) == a as nat % base64() + (m as nat % base64())
            * base64(),
{
    assert(((a as u64) as u128) | (m << 64u128) == a % 0x1_0000_0000_0000_0000u128 + (m
        % 0x1_0000_0000_0000_0000u128) * 0x1_0000_0000_0000_0000u128) by (bit_vector);
}

/// A product within 64 bits fits after dropping any number of digits.
pub proof fn lemma_small_product_fits(p: nat, k: nat)
    requires
        p < base64(),
    ensures
        fits_after_dropping(p, k),
{
    lemma_pow10_pos(k);
    lemma_round_bounds(p, k);
    lemma_div_is_ordered_by_denominator(p as int, 1, pow10(k) as int);
}

/// The 192 bit product of two 96 bit mantissas split into 64 bit low parts and 32 bit high
/// parts, accumulated from three widening multiplies and one 32x32 multiply.
pub proof fn lemma_product_96(
    a_lo: int,
    a_hi: int,
    b_lo: int,
    b_hi: int,
    low: int,
    cross: int,
    mid: int,
    low128: int,
    high: int,
)
    requires
        0 <= a_lo,
        0 <= b_lo,
        0 <= a_hi,
        0 <= b_hi,
        low == a_lo * b_lo,
        cross == a_lo * b_hi + a_hi * b_lo,
        mid == low / (base64() as int) + cross % (base64() as int),
        low128 == low % (base64() as int) + (mid % (base64() as int)) * (base64() as int),
        high == a_hi * b_hi + cross / (base64() as int) + mid / (base64() as int),
    ensures
        high * (base128() as int) + low128 == (a_lo + a_hi * (base64() as int)) * (b_lo + b_hi * (base64() as int)),
{
    let bb = base64() as int;
    lemma_fundamental_div_mod(low, bb);
    lemma_fundamental_div_mod(cross, bb);
    lemma_fundamental_div_mod(mid, bb);
    lemma_expand_product(a_lo, a_hi, b_lo, b_hi, bb);
    assert(bb * bb == base128());
}

/// Expanding the product of two values written in base `b`.
proof fn lemma_expand_product(al: int, ah: int, bl: int, bh: int, b: int)
    ensures
        (al + ah * b) * (bl + bh * b) == al * bl + (al * bh + ah * bl) * b + (ah * bh) * (b * b),
{
    let x = al + ah * b;
    lemma_mul_is_distributive_add(x, bl, bh * b);
    lemma_mul_is_distributive_add_other_way(bl, al, ah * b);
    lemma_mul_is_distributive_add_other_way(bh * b, al, ah * b);
    assert((ah * b) * bl == (ah * bl) * b) by (nonlinear_arith);
    assert(al * (bh * b) == (al * bh) * b) by (nonlinear_arith);
    assert((ah * b) * (bh * b) == (ah * bh) * (b * b)) by (nonlinear_arith);
    lemma_mul_is_distributive_add_other_way(b, al * bh, ah * bl);
}

/// Multiplies two decimals: the exact product, rounded half to even, dropping the fewest digits
/// that make the mantissa fit within 96 bits and the scale at most `MAX_SCALE`.
///
/// In terms of the operands alone: a result is a valid decimal whose mantissa is the product
/// of the mantissas, at the combined scale, rounded half to even to the result's scale; it is
/// negative, when not zero, exactly when one operand is; no finer scale would fit (unless an
/// operand is zero, or two 32 bit mantissas are at a combined scale above
/// `MAX_SCALE + MAX_I64_SCALE`, which give a positive zero at scale 0); and the product
/// overflows exactly when, rounded to a whole number, it does not fit within 96 bits.
pub fn mul_impl(d1: &Decimal, d2: &Decimal) -> (r: CalculationResult)
    requires
        d1.scale_spec() <= MAX_SCALE,
        d2.scale_spec() <= MAX_SCALE,
    ensures
        result_is(r, mul_spec(*d1, *d2)),
        r !is DivByZero,
        r matches CalculationResult::Value(d) ==> {
            &&& d.wf()
            &&& d.scale_spec() <= d1.scale_spec() + d2.scale_spec()
            &&& rounds_to(
                d1.mantissa_spec() * d2.mantissa_spec(),
                (d1.scale_spec() + d2.scale_spec() - d.scale_spec()) as nat,
                d.mantissa_spec(),
            )
            &&& d.mantissa_spec() != 0 ==> d.negative_spec() == (d1.negative_spec()
                != d2.negative_spec())
            &&& d.negative_spec() == (d1.mantissa_spec() != 0 && d2.mantissa_spec() != 0
                && d1.negative_spec() != d2.negative_spec() && !(d.mantissa_spec() == 0 && (
            d1.mantissa_spec() < base32() && d2.mantissa_spec() < base32())))
        },
        r matches CalculationResult::Value(d) ==> ((d1.mantissa_spec() == 0
            || d2.mantissa_spec() == 0 || (d1.mantissa_spec() < base32() && d2.mantissa_spec()
            < base32() && d1.scale_spec() + d2.scale_spec() > MAX_SCALE + MAX_I64_SCALE)) ==> (
        d.mantissa_spec() == 0 && !d.negative_spec() && d.scale_spec() == 0)),
        r matches CalculationResult::Value(d) ==> forall|t: nat, m2: nat|
            d.scale_spec() < t <= MAX_SCALE && t <= d1.scale_spec() + d2.scale_spec() && !(
            d1.mantissa_spec() == 0 || d2.mantissa_spec() == 0 || (d1.mantissa_spec() < base32()
                && d2.mantissa_spec() < base32() && d1.scale_spec() + d2.scale_spec() > MAX_SCALE
                + MAX_I64_SCALE)) && #[trigger] rounds_to(
                d1.mantissa_spec() * d2.mantissa_spec(),
                (d1.scale_spec() + d2.scale_spec() - t) as nat,
                m2,
            ) ==> m2 >= base96(),
        (r is Overflow) == (forall|m2: nat|
            #[trigger] rounds_to(
                d1.mantissa_spec() * d2.mantissa_spec(),
                d1.scale_spec() + d2.scale_spec(),
                m2,
            ) ==> m2 >= base96()),
{
    let r = multiply(d1, d2);
    proof {
        let a = *d1;
        let b = *d2;
        lemma_mul_product_sign(a, b);
        lemma_mul_correctly_rounded(a, b);
        lemma_mul_overflow_exactly(a, b);
        lemma_mul_tiny_or_zero(a, b);
        if a.mantissa_spec() > 0 && b.mantissa_spec() > 0 && !(a.mantissa_spec() < base32()
            && b.mantissa_spec() < base32() && a.scale_spec() + b.scale_spec() > MAX_SCALE
            + MAX_I64_SCALE) {
            lemma_mul_no_finer_scale(a, b);
        }
    }
    r
}

/// The multiplication, with its result stated through `mul_spec`.
fn multiply(d1: &Decimal, d2: &Decimal) -> (r: CalculationResult)
    requires
        d1.scale_spec() <= MAX_SCALE,
        d2.scale_spec() <= MAX_SCALE,
    ensures
        result_is(r, mul_spec(*d1, *d2)),
{
    let scale = d1.scale() + d2.scale();
    let negative = d1.is_sign_negative() ^ d2.is_sign_negative();
    let ghost ma = d1.mantissa_spec();
    let ghost mb = d2.mantissa_spec();
    proof {
        lemma_or2_zero(d1.mid, d1.hi);
        lemma_or3_zero(d1.mid | d1.hi, d2.mid, d2.hi);
    }
    if d1.mid() | d1.hi() | d2.mid() | d2.hi() == 0 {
        // We're multiplying two 32 bit integers (the most common case), so the product fits
        // within 64 bits.
        proof {
            assert(d1.lo as int * d2.lo as int <= 0xFFFF_FFFF * 0xFFFF_FFFF) by (nonlinear_arith)
                requires
                    d1.lo <= 0xFFFF_FFFFu32,
                    d2.lo <= 0xFFFF_FFFFu32,
            ;
        }
        let product = d1.lo() as u64 * d2.lo() as u64;
        proof {
            assert(ma == d1.lo && mb == d2.lo);
            assert((product == 0) == (ma == 0 || mb == 0)) by (nonlinear_arith)
                requires
                    product == ma * mb,
            ;
            lemma_small_product_fits(product as nat, 0);
            lemma_small_product_fits(product as nat, min_dropped(scale as nat));
        }
        if product == 0 {
            // We should think about this - does zero need to maintain precision? This treats it like
            // an absolute which I think is ok, especially since we have is_zero() functions etc.
            return CalculationResult::Value(Decimal::zero());
        }
        if scale > Decimal::MAX_SCALE {
            return CalculationResult::Value(mul_32_rescale(product, negative, scale));
        }
        proof {
            lemma_split64(product);
            lemma_round_none(product as nat);
        }
        let d = Decimal::from_parts_raw_unchecked(
            product as u32,
            (product >> 32) as u32,
            0,
            crate::decimal::flags(negative, scale),
        );
        proof {
            lemma_flags_decode(d, negative, scale as nat);
        }
        return CalculationResult::Value(d);
    }
    if d1.is_zero() || d2.is_zero() {
        return CalculationResult::Value(Decimal::zero());
    }
    proof {
        lemma_or2_zero(d1.hi, d2.hi);
    }
    if d1.hi() | d2.hi() == 0 {
        // Both operands fit within 64 bits, so the full product fits within 128 bits and can be
        // computed with a single widening multiply.
        let a = low64(d1);
        let b = low64(d2);
        proof {
            assert(a as int * b as int <= 0xFFFF_FFFF_FFFF_FFFF * 0xFFFF_FFFF_FFFF_FFFF)
                by (nonlinear_arith)
                requires
                    a <= 0xFFFF_FFFF_FFFF_FFFFu64,
                    b <= 0xFFFF_FFFF_FFFF_FFFFu64,
            ;
        }
        let product = a as u128 * b as u128;
        proof {
            assert(ma == a && mb == b);
            assert(product > 0) by (nonlinear_arith)
                requires
                    product == ma * mb,
                    ma > 0,
                    mb > 0,
            ;
            lemma_split(product);
        }
        if scale > Decimal::MAX_SCALE && product >> 64 == 0 {
            proof {
                lemma_small_product_fits(product as nat, min_dropped(scale as nat));
            }
            return CalculationResult::Value(rescale_u64(product as u64, negative, scale));
        }
        return finish_mul(product, 0, negative, scale);
    }
    // At least one operand is 96 bits. Split each mantissa into a low 64 bit and a high 32 bit part
    // and accumulate the 192 bit product from three widening multiplies and one 32x32 multiply.
    let (a_lo, a_hi) = (low64(d1), d1.hi() as u64);
    let (b_lo, b_hi) = (low64(d2), d2.hi() as u64);
    proof {
        assert(a_lo as int * b_lo as int <= 0xFFFF_FFFF_FFFF_FFFF * 0xFFFF_FFFF_FFFF_FFFF
            && a_lo as int * b_hi as int <= 0xFFFF_FFFF_FFFF_FFFF * 0xFFFF_FFFF && a_hi as int
            * b_lo as int <= 0xFFFF_FFFF * 0xFFFF_FFFF_FFFF_FFFF && a_hi as int * b_hi as int
            <= 0xFFFF_FFFF * 0xFFFF_FFFF) by (nonlinear_arith)
            requires
                a_lo <= 0xFFFF_FFFF_FFFF_FFFFu64,
                b_lo <= 0xFFFF_FFFF_FFFF_FFFFu64,
                a_hi <= 0xFFFF_FFFFu64,
                b_hi <= 0xFFFF_FFFFu64,
        ;
    }
    let low = a_lo as u128 * b_lo as u128;
    // Each cross product is below 2^96, so the sum can't overflow.
    let cross = a_lo as u128 * b_hi as u128 + a_hi as u128 * b_lo as u128;
    proof {
        lemma_split(low);
        lemma_split(cross);
    }
    let mid = (low >> 64) + (cross as u64 as u128);
    proof {
        lemma_split(mid);
        lemma_low_join(low, mid);
    }
    let low128 = (low as u64 as u128) | (mid << 64);
    let ghost high: int = a_hi * b_hi + cross as int / (base64() as int) + mid as int / (base64() as int);
    proof {
        lemma_product_96(a_lo as int, a_hi as int, b_lo as int, b_hi as int, low as int,
            cross as int, mid as int, low128 as int, high);
        assert(ma == a_lo + a_hi * base64() && mb == b_lo + b_hi * base64());
        assert(ma * mb < base128() * base64()) by (nonlinear_arith)
            requires
                ma < base96(),
                mb < base96(),
        ;
        assert(0 <= low128);
        assert(high < base64()) by (nonlinear_arith)
            requires
                high * base128() + low128 == ma * mb,
                ma * mb < base128() * base64(),
                0 <= low128,
        ;
    }
    let high64 = a_hi * b_hi + (cross >> 64) as u64 + (mid >> 64) as u64;
    finish_mul(low128, high64, negative, scale)
}

} // verus!
