//! Properties of decimal multiplication that hold across all of its cases: symmetry, zero and
//! one, exactness, the rounding error, the precision kept, and when it overflows.
use crate::decimal::{base32, base64, base96, Decimal, MAX_I64_SCALE, MAX_SCALE};
use crate::digits::{lemma_pow10_monotone, lemma_pow10_pos, lemma_pow10_values, pow10};
use crate::mul::{
    fewest_dropped, fits_after_dropping, lemma_fewest_fits, lemma_fewest_none, lemma_round_none,
    lemma_small_product_fits, min_dropped, mul_spec, rescaled_product, round_div_pow10,
};
use vstd::arithmetic::div_mod::*;
use vstd::arithmetic::mul::*;
use vstd::prelude::*;

verus! {

/// A mantissa of three 32 bit words is below 2^96.
pub proof fn lemma_mantissa_bound(d: Decimal)
    ensures
        d.mantissa_spec() < base96(),
{
    let lo = d.lo as int;
    let mid = d.mid as int;
    let hi = d.hi as int;
    assert(lo + mid * 0x1_0000_0000 + hi * 0x1_0000_0000_0000_0000
        < 0x1_0000_0000_0000_0000_0000_0000) by (nonlinear_arith)
        requires
            0 <= lo < 0x1_0000_0000,
            0 <= mid < 0x1_0000_0000,
            0 <= hi < 0x1_0000_0000,
    ;
}

/// Multiplication is commutative: swapping the operands gives the same result, overflow
/// included.
pub proof fn lemma_mul_commutative(a: Decimal, b: Decimal)
    ensures
        mul_spec(a, b) == mul_spec(b, a),
{
    lemma_mul_is_commutative(a.mantissa_spec() as int, b.mantissa_spec() as int);
}

/// Multiplying by zero, on either side, gives a positive zero at scale 0.
pub proof fn lemma_mul_by_zero(a: Decimal, z: Decimal)
    requires
        z.mantissa_spec() == 0,
    ensures
        mul_spec(a, z) == Some((0nat, false, 0nat)),
        mul_spec(z, a) == Some((0nat, false, 0nat)),
{
}

/// A non-zero product that fits within 96 bits at a combined scale of at most `MAX_SCALE` is
/// exact: its mantissa is the product of the mantissas, its scale the sum of the scales, and it
/// is negative when exactly one operand is.
pub proof fn lemma_mul_exact(a: Decimal, b: Decimal)
    requires
        a.scale_spec() + b.scale_spec() <= MAX_SCALE,
        0 < a.mantissa_spec() * b.mantissa_spec() < base96(),
    ensures
        mul_spec(a, b) == Some(
            (
                a.mantissa_spec() * b.mantissa_spec(),
                a.negative_spec() != b.negative_spec(),
                a.scale_spec() + b.scale_spec(),
            ),
        ),
{
    let ma = a.mantissa_spec();
    let mb = b.mantissa_spec();
    let p = ma * mb;
    let sc = a.scale_spec() + b.scale_spec();
    assert(ma != 0 && mb != 0) by (nonlinear_arith)
        requires
            p == ma * mb,
            p > 0,
    ;
    lemma_round_none(p);
    assert(fits_after_dropping(p, 0));
    assert(min_dropped(sc) == 0);
    assert(fewest_dropped(p, 0, sc) == Some(0nat));
}

/// One (mantissa 1, scale 0, positive) is an identity: the product with it is the other operand,
/// except that a zero operand gives a positive zero at scale 0.
pub proof fn lemma_mul_one(a: Decimal, one: Decimal)
    requires
        a.scale_spec() <= MAX_SCALE,
        one.mantissa_spec() == 1,
        one.scale_spec() == 0,
        !one.negative_spec(),
    ensures
        mul_spec(a, one) == (if a.mantissa_spec() == 0 {
            Some((0nat, false, 0nat))
        } else {
            Some((a.mantissa_spec(), a.negative_spec(), a.scale_spec()))
        }),
{
    lemma_mantissa_bound(a);
    if a.mantissa_spec() != 0 {
        lemma_mul_exact(a, one);
    }
}

/// Flipping the sign of an operand changes only the sign of the product: the mantissa, the scale
/// and whether it overflows stay the same, and a non-zero product has the opposite sign.
pub proof fn lemma_mul_sign(a: Decimal, na: Decimal, b: Decimal)
    requires
        na.mantissa_spec() == a.mantissa_spec(),
        na.scale_spec() == a.scale_spec(),
        na.negative_spec() != a.negative_spec(),
    ensures
        match (mul_spec(na, b), mul_spec(a, b)) {
            (Some((m1, n1, s1)), Some((m2, n2, s2))) => m1 == m2 && s1 == s2 && (m1 != 0 ==> n1
                != n2),
            (None, None) => true,
            _ => false,
        },
{
}

/// Rounding to `k` fewer digits is off by at most half a unit in the last place kept.
pub proof fn lemma_round_error(p: nat, k: nat)
    ensures
        -(pow10(k) as int) <= 2 * (round_div_pow10(p, k) * pow10(k) - p) <= pow10(k),
{
    let d = pow10(k);
    lemma_pow10_pos(k);
    lemma_fundamental_div_mod(p as int, d as int);
    let q = p / d;
    let r = p % d;
    lemma_mul_is_commutative(q as int, d as int);
    lemma_mul_is_distributive_add_other_way(d as int, q as int, 1);
}

/// The product is correctly rounded: a result with mantissa `m` and scale `s` is a valid decimal
/// (`m` within 96 bits, `s` at most `MAX_SCALE` and at most the combined scale), and `m` at scale
/// `s` differs from the exact product of the mantissas at the combined scale by at most half a
/// unit in its last place.
pub proof fn lemma_mul_rounding(a: Decimal, b: Decimal)
    ensures
        mul_spec(a, b) matches Some((m, neg, s)) ==> {
            let p = a.mantissa_spec() * b.mantissa_spec();
            let sc = a.scale_spec() + b.scale_spec();
            &&& m < base96()
            &&& s <= MAX_SCALE
            &&& s <= sc
            &&& -(pow10((sc - s) as nat) as int) <= 2 * (m * pow10((sc - s) as nat) - p) <= pow10(
                (sc - s) as nat,
            )
        },
{
    let ma = a.mantissa_spec();
    let mb = b.mantissa_spec();
    let p = ma * mb;
    let sc = a.scale_spec() + b.scale_spec();
    let negative = a.negative_spec() != b.negative_spec();
    let small = ma < base32() && mb < base32();
    lemma_pow10_pos(sc);
    if ma == 0 || mb == 0 {
        assert(p == 0) by (nonlinear_arith)
            requires
                ma == 0 || mb == 0,
                p == ma * mb,
        ;
    } else if small && sc > MAX_SCALE + MAX_I64_SCALE {
        assert(p < base64()) by (nonlinear_arith)
            requires
                p == ma * mb,
                ma < 0x1_0000_0000,
                mb < 0x1_0000_0000,
        ;
        lemma_pow10_values();
        lemma_pow10_monotone(38, sc);
    } else if rescaled_product(p, negative, sc) is Some {
        let lo = min_dropped(sc);
        lemma_fewest_fits(p, lo, sc);
        let k = fewest_dropped(p, lo, sc)->0;
        lemma_round_error(p, k);
    }
}

/// The digit counts skipped before the fewest that fits do not fit.
pub proof fn lemma_fewest_skipped(p: nat, k: nat, max: nat)
    requires
        fewest_dropped(p, k, max) is Some,
    ensures
        forall|i: nat|
            k <= i < fewest_dropped(p, k, max)->0 ==> !#[trigger] fits_after_dropping(p, i),
    decreases max + 1 - k,
{
    if k <= max && !fits_after_dropping(p, k) {
        lemma_fewest_skipped(p, k + 1, max);
    }
}

/// The product keeps as many digits as it can: at no scale above the result's, up to
/// `MAX_SCALE` and the combined scale, does the rounded product fit within 96 bits. This holds
/// wherever the product is rescaled; a zero operand, or two 32 bit mantissas at a combined scale
/// above `MAX_SCALE + MAX_I64_SCALE`, give a zero at scale 0 instead.
pub proof fn lemma_mul_keeps_precision(a: Decimal, b: Decimal)
    requires
        a.mantissa_spec() > 0,
        b.mantissa_spec() > 0,
        !(a.mantissa_spec() < base32() && b.mantissa_spec() < base32() && a.scale_spec()
            + b.scale_spec() > MAX_SCALE + MAX_I64_SCALE),
    ensures
        mul_spec(a, b) matches Some((m, neg, s)) ==> forall|t: nat|
            s < t <= MAX_SCALE && t <= a.scale_spec() + b.scale_spec() ==> #[trigger] round_div_pow10(
                a.mantissa_spec() * b.mantissa_spec(),
                (a.scale_spec() + b.scale_spec() - t) as nat,
            ) >= base96(),
{
    let p = a.mantissa_spec() * b.mantissa_spec();
    let sc = a.scale_spec() + b.scale_spec();
    let negative = a.negative_spec() != b.negative_spec();
    if rescaled_product(p, negative, sc) is Some {
        let lo = min_dropped(sc);
        lemma_fewest_fits(p, lo, sc);
        lemma_fewest_skipped(p, lo, sc);
        let k = fewest_dropped(p, lo, sc)->0;
        assert forall|t: nat| (sc - k) < t <= MAX_SCALE && t <= sc implies #[trigger] round_div_pow10(
            p,
            (sc - t) as nat,
        ) >= base96() by {
            assert(lo <= ((sc - t) as nat) < k);
            assert(!fits_after_dropping(p, (sc - t) as nat));
        }
    }
}

/// Some digit count from `k` up to `max` fits, so there is a fewest.
pub proof fn lemma_fewest_some(p: nat, k: nat, max: nat, j: nat)
    requires
        k <= j <= max,
        fits_after_dropping(p, j),
    ensures
        fewest_dropped(p, k, max) is Some,
    decreases j - k,
{
    if k < j && !fits_after_dropping(p, k) {
        lemma_fewest_some(p, k + 1, max, j);
    }
}

/// Dropping fewer digits leaves a floor quotient at least ten times larger per digit: for
/// `j < n`, `p / 10^j >= 10 * (p / 10^n)`.
pub proof fn lemma_floor_fewer_digits(p: nat, j: nat, n: nat)
    requires
        j < n,
    ensures
        p / pow10(j) >= 10 * (p / pow10(n)),
{
    lemma_pow10_pos(j);
    lemma_pow10_pos(n);
    lemma_pow10_monotone(j + 1, n);
    lemma_div_denominator(p as int, pow10(j) as int, 10);
    lemma_mul_is_commutative(pow10(j) as int, 10);
    lemma_div_is_ordered_by_denominator(p as int, pow10(j + 1) as int, pow10(n) as int);
    lemma_fundamental_div_mod((p / pow10(j)) as int, 10);
}

/// The product overflows exactly when, rounded to a whole number (scale 0), it does not fit
/// within 96 bits.
pub proof fn lemma_mul_overflow(a: Decimal, b: Decimal)
    ensures
        (mul_spec(a, b) is None) == (round_div_pow10(
            a.mantissa_spec() * b.mantissa_spec(),
            a.scale_spec() + b.scale_spec(),
        ) >= base96()),
{
    let ma = a.mantissa_spec();
    let mb = b.mantissa_spec();
    let p = ma * mb;
    let sc = a.scale_spec() + b.scale_spec();
    let negative = a.negative_spec() != b.negative_spec();
    let small = ma < base32() && mb < base32();
    if ma == 0 || mb == 0 {
        assert(p == 0) by (nonlinear_arith)
            requires
                ma == 0 || mb == 0,
                p == ma * mb,
        ;
        lemma_small_product_fits(p, sc);
    } else if small && sc > MAX_SCALE + MAX_I64_SCALE {
        assert(p < base64()) by (nonlinear_arith)
            requires
                p == ma * mb,
                ma < 0x1_0000_0000,
                mb < 0x1_0000_0000,
        ;
        lemma_small_product_fits(p, sc);
    } else {
        let lo = min_dropped(sc);
        if fits_after_dropping(p, sc) {
            lemma_fewest_some(p, lo, sc, sc);
        } else {
            assert forall|j: nat| lo <= j <= sc implies !#[trigger] fits_after_dropping(p, j) by {
                if j < sc {
                    lemma_pow10_pos(sc);
                    lemma_pow10_pos(j);
                    lemma_floor_fewer_digits(p, j, sc);
                    assert(p / pow10(sc) + 1 >= base96());
                }
            }
            lemma_fewest_none(p, lo, sc);
        }
    }
}

/// A product within 64 bits at a scale above `MAX_SCALE` needs only the digits above
/// `MAX_SCALE` dropped: rescaling it gives the product rounded to `MAX_SCALE`, which is what
/// `rescale_u64` computes with a single division.
pub proof fn lemma_rescale_u64_agrees(p: nat, negative: bool, scale: nat)
    requires
        p < base64(),
        scale > MAX_SCALE,
    ensures
        rescaled_product(p, negative, scale) == Some(
            (round_div_pow10(p, (scale - MAX_SCALE) as nat), negative, MAX_SCALE as nat),
        ),
{
    lemma_small_product_fits(p, (scale - MAX_SCALE) as nat);
}

/// `m` is `p / 10^k` rounded half to even: it lies within half a unit of `p / 10^k`, and on a
/// tie it is even.
pub open spec fn rounds_to(p: nat, k: nat, m: nat) -> bool {
    let e = 2 * (m * pow10(k) - p);
    ||| -(pow10(k) as int) < e < pow10(k)
    ||| (e == pow10(k) || e == -(pow10(k) as int)) && m % 2 == 0
}

/// Exactly one value is `p / 10^k` rounded half to even, and `round_div_pow10` is that value.
pub proof fn lemma_rounds_to_unique(p: nat, k: nat, m: nat)
    ensures
        rounds_to(p, k, m) == (m == round_div_pow10(p, k)),
{
    let d = pow10(k);
    lemma_pow10_pos(k);
    lemma_fundamental_div_mod(p as int, d as int);
    let q = p / d;
    let r = p % d;
    let rd = round_div_pow10(p, k);
    lemma_mul_is_commutative(q as int, d as int);
    lemma_mul_is_distributive_add_other_way(d as int, q as int, 1);
    assert(rounds_to(p, k, rd));
    if rounds_to(p, k, m) {
        if m < q {
            assert(m * d <= q * d - d) by (nonlinear_arith)
                requires
                    m + 1 <= q,
                    d >= 1,
            ;
        } else if m > q + 1 {
            assert(m * d >= q * d + 2 * d) by (nonlinear_arith)
                requires
                    m >= q + 2,
                    d >= 1,
            ;
        }
        assert(m == q || m == q + 1);
    }
}

/// A non-zero product has a sign exactly when one operand has, whether it is exact or
/// rounded; a zero product is positive unless it comes from rounding a product of two
/// mantissas that are not both within 32 bits, where the sign is kept. Zero operands give a
/// positive zero.
pub proof fn lemma_mul_product_sign(a: Decimal, b: Decimal)
    ensures
        mul_spec(a, b) matches Some((m, neg, s)) ==> neg == (a.mantissa_spec() != 0
            && b.mantissa_spec() != 0 && a.negative_spec() != b.negative_spec() && !(m == 0 && (
        a.mantissa_spec() < base32() && b.mantissa_spec() < base32()))),
        mul_spec(a, b) matches Some((m, neg, s)) ==> (m != 0 ==> neg == (a.negative_spec()
            != b.negative_spec())),
{
}

/// The result is the exact product of the mantissas, at the combined scale, rounded half to
/// even to the result's scale; that scale is at most `MAX_SCALE` and the combined scale, and
/// the mantissa fits within 96 bits.
pub proof fn lemma_mul_correctly_rounded(a: Decimal, b: Decimal)
    ensures
        mul_spec(a, b) matches Some((m, neg, s)) ==> {
            &&& m < base96()
            &&& s <= MAX_SCALE
            &&& s <= a.scale_spec() + b.scale_spec()
            &&& rounds_to(
                a.mantissa_spec() * b.mantissa_spec(),
                (a.scale_spec() + b.scale_spec() - s) as nat,
                m,
            )
        },
{
    let ma = a.mantissa_spec();
    let mb = b.mantissa_spec();
    let p = ma * mb;
    let sc = a.scale_spec() + b.scale_spec();
    let negative = a.negative_spec() != b.negative_spec();
    let small = ma < base32() && mb < base32();
    lemma_pow10_pos(sc);
    if ma == 0 || mb == 0 {
        assert(p == 0) by (nonlinear_arith)
            requires
                ma == 0 || mb == 0,
                p == ma * mb,
        ;
    } else if small && sc > MAX_SCALE + MAX_I64_SCALE {
        assert(p < base64()) by (nonlinear_arith)
            requires
                p == ma * mb,
                ma < 0x1_0000_0000,
                mb < 0x1_0000_0000,
        ;
        lemma_pow10_values();
        lemma_pow10_monotone(38, sc);
    } else if rescaled_product(p, negative, sc) is Some {
        let lo = min_dropped(sc);
        lemma_fewest_fits(p, lo, sc);
        let k = fewest_dropped(p, lo, sc)->0;
        lemma_rounds_to_unique(p, k, round_div_pow10(p, k));
    }
}

/// At no finer scale than the result's, up to `MAX_SCALE` and the combined scale, does the
/// product rounded half to even fit within 96 bits. This holds wherever the product is
/// rescaled; a zero operand, or two 32 bit mantissas at a combined scale above
/// `MAX_SCALE + MAX_I64_SCALE`, give a zero at scale 0 instead.
pub proof fn lemma_mul_no_finer_scale(a: Decimal, b: Decimal)
    requires
        a.mantissa_spec() > 0,
        b.mantissa_spec() > 0,
        !(a.mantissa_spec() < base32() && b.mantissa_spec() < base32() && a.scale_spec()
            + b.scale_spec() > MAX_SCALE + MAX_I64_SCALE),
    ensures
        mul_spec(a, b) matches Some((m, neg, s)) ==> forall|t: nat, m2: nat|
            s < t <= MAX_SCALE && t <= a.scale_spec() + b.scale_spec() && #[trigger] rounds_to(
                a.mantissa_spec() * b.mantissa_spec(),
                (a.scale_spec() + b.scale_spec() - t) as nat,
                m2,
            ) ==> m2 >= base96(),
{
    let p = a.mantissa_spec() * b.mantissa_spec();
    let sc = a.scale_spec() + b.scale_spec();
    lemma_mul_keeps_precision(a, b);
    if mul_spec(a, b) is Some {
        let (m, neg, s) = mul_spec(a, b)->0;
        assert forall|t: nat, m2: nat|
            s < t <= MAX_SCALE && t <= sc && #[trigger] rounds_to(p, (sc - t) as nat, m2) implies m2
            >= base96() by {
            lemma_rounds_to_unique(p, (sc - t) as nat, m2);
        }
    }
}

/// The product overflows exactly when no value within 96 bits is the product rounded half to
/// even to a whole number (scale 0).
pub proof fn lemma_mul_overflow_exactly(a: Decimal, b: Decimal)
    ensures
        (mul_spec(a, b) is None) == (forall|m2: nat|
            #[trigger] rounds_to(
                a.mantissa_spec() * b.mantissa_spec(),
                a.scale_spec() + b.scale_spec(),
                m2,
            ) ==> m2 >= base96()),
{
    let p = a.mantissa_spec() * b.mantissa_spec();
    let sc = a.scale_spec() + b.scale_spec();
    lemma_mul_overflow(a, b);
    let rd = round_div_pow10(p, sc);
    lemma_rounds_to_unique(p, sc, rd);
    assert forall|m2: nat| #[trigger] rounds_to(p, sc, m2) implies m2 == rd by {
        lemma_rounds_to_unique(p, sc, m2);
    }
}

/// A zero operand, or two mantissas within 32 bits at a combined scale above
/// `MAX_SCALE + MAX_I64_SCALE`, give a positive zero at scale 0.
pub proof fn lemma_mul_tiny_or_zero(a: Decimal, b: Decimal)
    ensures
        (a.mantissa_spec() == 0 || b.mantissa_spec() == 0 || (a.mantissa_spec() < base32()
            && b.mantissa_spec() < base32() && a.scale_spec() + b.scale_spec() > MAX_SCALE
            + MAX_I64_SCALE)) ==> mul_spec(a, b) == Some((0nat, false, 0nat)),
{
}

} // verus!
