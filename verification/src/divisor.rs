//! Division of 192 bit values by a fixed divisor using a precomputed reciprocal (Möller and
//! Granlund, "Improved division by invariant integers", 2011): a 64 bit divisor with the 2/1
//! algorithm and a 128 bit divisor with the 3/2 algorithm.
use crate::digits::{pow10, lemma_pow10_values};
use vstd::arithmetic::div_mod::*;
use vstd::arithmetic::mul::*;
use vstd::arithmetic::power2::*;
use vstd::bits::*;
use vstd::prelude::*;
use vstd::std_specs::bits::*;

verus! {

/// The largest power of 10 that fits within a u64.
pub const MAX_POW10_U64: usize = 19;

/// 2^64 as an integer.
pub open spec fn b64() -> int {
    0x1_0000_0000_0000_0000
}

/// The little endian value of three 64 bit words.
pub open spec fn words3(value: [u64; 3]) -> nat {
    value[0] as nat + value[1] as nat * 0x1_0000_0000_0000_0000 + value[2] as nat
        * 0x1_0000_0000_0000_0000_0000_0000_0000_0000
}

/// Joining two 64 bit words into a 128 bit value, and splitting it again.
pub proof fn lemma_join(a: u64, b: u64)
    ensures
        ((a as u128) << 64u128) | (b as u128) == a as int * b64() + b as int,
{
    assert(((a as u128) << 64u128) | (b as u128) == (a as u128) * 0x1_0000_0000_0000_0000u128
        + (b as u128)) by (bit_vector);
}

/// The low and high 64 bits of a 128 bit value.
pub proof fn lemma_split(x: u128)
    ensures
        (x as u64) as int == x as int % b64(),
        (x >> 64u128) as int == x as int / b64(),
{
    assert((x as u64) as u128 == x % 0x1_0000_0000_0000_0000u128 && x >> 64u128 == x
        / 0x1_0000_0000_0000_0000u128) by (bit_vector);
}

/// Shifting a word left by `s` bits: the bits that stay, and those that move to the next word.
pub proof fn lemma_shift_word(x: u64, y: u64, s: u32)
    requires
        s < 64,
    ensures
        (x << s) as int + (x >> 1u64 >> (63 - s) as u64) as int * b64() == x as int * pow2(
            s as nat,
        ),
        (x << s) | (y >> 1u64 >> (63 - s) as u64) == (x << s) + (y >> 1u64 >> (63 - s) as u64),
{
    assert(s < 64u32 ==> ((x << s) as u128) + ((x >> 1u64 >> (63u32 - s) as u64) as u128)
        * 0x1_0000_0000_0000_0000u128 == (x as u128) * ((1u64 << s) as u128) && (x << s) | (y
        >> 1u64 >> (63u32 - s) as u64) == (x << s) + (y >> 1u64 >> (63u32 - s) as u64))
        by (bit_vector);
    lemma_u64_pow2_no_overflow(s as nat);
    lemma_u64_shl_is_mul(1u64, s as u64);
}

/// The bit length of a non-zero u64 from its leading zeros.
pub proof fn lemma_u64_bit_length(v: u64)
    requires
        v != 0,
    ensures
        u64_leading_zeros(v) < 64,
        pow2((63 - u64_leading_zeros(v)) as nat) <= v,
        v < pow2((64 - u64_leading_zeros(v)) as nat),
{
    axiom_u64_leading_zeros(v);
    lemma2_to64();
    let lz = u64_leading_zeros(v);
    let k: u64 = (63 - lz) as u64;
    assert((v >> k) & 1u64 != 0u64 ==> v >> k != 0u64) by (bit_vector);
    lemma_u64_shr_is_div(v, k);
    lemma_pow2_pos(k as nat);
    lemma_fundamental_div_mod(v as int, pow2(k as nat) as int);
    lemma_mul_inequality(1, (v as nat / pow2(k as nat)) as int, pow2(k as nat) as int);
    if lz >= 1 {
        let k2: u64 = (64 - lz) as u64;
        lemma_u64_shr_is_div(v, k2);
        lemma_pow2_pos(k2 as nat);
        lemma_fundamental_div_mod(v as int, pow2(k2 as nat) as int);
    }
}

/// A 64 bit divisor shifted left so that its top bit is set, along with its reciprocal
/// floor((2^128 - 1) / divisor) - 2^64. This lets a 128 bit value be divided by the divisor using
/// multiplication rather than a hardware division.
#[derive(Clone, Copy, Debug)]
pub struct NormalizedDivisor {
    pub divisor: u64,
    pub reciprocal: u64,
    pub shift: u32,
}

impl NormalizedDivisor {
    /// The divisor is normalized, a multiple of 2^shift, and the reciprocal is
    /// floor((2^128 - 1) / divisor) - 2^64.
    pub open spec fn wf(self) -> bool {
        &&& self.divisor >= 0x8000_0000_0000_0000
        &&& self.shift < 64
        &&& self.divisor as nat % pow2(self.shift as nat) == 0
        &&& (b64() + self.reciprocal) * self.divisor <= b64() * b64() - 1
        &&& b64() * b64() - 1 < (b64() + self.reciprocal + 1) * self.divisor
    }

    /// The divisor before it was shifted.
    pub open spec fn value(self) -> nat {
        self.divisor as nat / pow2(self.shift as nat)
    }

    /// Divides `u1:u0` by the normalized divisor, returning the quotient and remainder. Requires
    /// `u1 < divisor`, which guarantees the quotient fits within 64 bits.
    pub fn div_rem_2by1(&self, u1: u64, u0: u64) -> (res: (u64, u64))
        requires
            self.wf(),
            u1 < self.divisor,
        ensures
            res.0 as int * self.divisor + res.1 == u1 as int * b64() + u0,
            res.1 < self.divisor,
    {
        let d = self.divisor;
        let ghost bb = b64();
        let ghost qq: int = (bb + self.reciprocal) * u1 + u0;
        proof {
            lemma_join(u1, u0);
            lemma_fundamental_div_mod(qq, bb);
            lemma_2by1_estimate(d as int, self.reciprocal as int, u1 as int, u0 as int, qq / bb, qq % bb);
            assert(self.reciprocal as int * u1 as int + (u1 as int * bb + u0) == qq)
                by (nonlinear_arith)
                requires
                    qq == (bb + self.reciprocal) * u1 + u0,
            ;
        }
        let q = (self.reciprocal as u128 * u1 as u128).wrapping_add(((u1 as u128) << 64) | u0 as u128);
        proof {
            lemma_split(q);
        }
        let ghost qh: int = qq / bb;
        let ghost rt: int = u1 * bb + u0 - (qh + 1) * d;
        let mut q1 = ((q >> 64) as u64).wrapping_add(1);
        let q0 = q as u64;
        let m = q1.wrapping_mul(d);
        proof {
            if qh + 1 < bb {
                lemma_fundamental_div_mod(q1 as int * d as int, bb);
                assert(q1 as int == qh + 1);
                assert(m as int == (q1 as int * d as int) % bb);
            } else {
                assert(q1 == 0);
                assert(m == 0);
                assert(rt == u0 + bb * (u1 - d)) by (nonlinear_arith)
                    requires
                        rt == u1 * bb + u0 - (qh + 1) * d,
                        qh + 1 == bb,
                ;
            }
        }
        let mut r = u0.wrapping_sub(m);
        assert(r as int == if rt >= 0 { rt } else { rt + bb });
        let ghost qc: int;
        if r > q0 {
            q1 = q1.wrapping_sub(1);
            r = r.wrapping_add(d);
            proof {
                qc = qh;
                assert((qh + 1) * d == qh * d + d) by (nonlinear_arith);
            }
        } else {
            proof {
                qc = qh + 1;
                if qh + 1 == bb {
                    assert(rt == u0 + bb * (u1 - d)) by (nonlinear_arith)
                        requires
                            rt == u1 * bb + u0 - (qh + 1) * d,
                            qh + 1 == bb,
                    ;
                }
            }
        }
        assert(q1 as int == qc && r as int == u1 * bb + u0 - qc * d);
        if r >= d {
            proof {
                assert(qc + 1 < bb) by (nonlinear_arith)
                    requires
                        (u1 as int) * bb + u0 - qc * d >= d,
                        u1 < d,
                        0 <= u0 < bb,
                        d > 0,
                ;
                assert((qc + 1) * d == qc * d + d) by (nonlinear_arith);
            }
            q1 += 1;
            r -= d;
        }
        (q1, r)
    }

    /// Divides the 192 bit little endian `value` by the unshifted divisor, where the
    /// quotient is known to fit within 128 bits. Returns the quotient and the remainder shifted
    /// left by `self.shift`.
    pub fn div_rem_to_128(&self, value: [u64; 3]) -> (res: (u128, u64))
        requires
            self.wf(),
            words3(value) / self.value() < b64() * b64(),
        ensures
            res.0 == words3(value) / self.value(),
            res.1 == (words3(value) % self.value()) * pow2(self.shift as nat),
    {
        // Shift the dividend by the same amount as the divisor. Since the quotient fits within 128
        // bits, the shifted dividend fits within 192 bits and its top word is below the divisor.
        // `>> 1 >> (63 - shift)` avoids an overflowing shift when `shift` is zero.
        let shift = self.shift;
        let x0 = value[0];
        let x1 = value[1];
        let x2 = value[2];
        let n0 = x0 << shift;
        let n1 = (x1 << shift) | (x0 >> 1 >> (63 - shift));
        let n2 = (x2 << shift) | (x1 >> 1 >> (63 - shift));
        let ghost p = pow2(shift as nat) as int;
        let ghost dv = self.value() as int;
        let ghost v = words3(value) as int;
        proof {
            lemma_pow2_pos(shift as nat);
            lemma_normalized_value(self.divisor as int, p);
            lemma_shift_word(x0, 0, shift);
            lemma_shift_word(x1, x0, shift);
            lemma_shift_word(x2, x1, shift);
            lemma_shifted_dividend(v, dv, p, self.divisor as int, x0 as int, x1 as int, x2 as int);
        }
        let (q1, r) = self.div_rem_2by1(n2, n1);
        let ghost r1 = r;
        let (q0, r) = self.div_rem_2by1(r, n0);
        proof {
            lemma_join(q1, q0);
            lemma_long_division(v, dv, p, self.divisor as int, n2 as int, n1 as int, n0 as int,
                q1 as int, r1 as int, q0 as int, r as int);
        }
        (((q1 as u128) << 64) | q0 as u128, r)
    }

    /// Normalizes the divisor `d` and computes its reciprocal.
    pub fn new(d: u64) -> (r: Self)
        requires
            d > 0,
        ensures
            r.wf(),
            r.value() == d,
            r.divisor == d as nat * pow2(r.shift as nat),
            r.shift as int == u64_leading_zeros(d),
            r.reciprocal == (b64() * b64() - 1) / (r.divisor as int) - b64(),
    {
        let shift = d.leading_zeros();
        proof {
            lemma_u64_bit_length(d);
            lemma_pow2_adds((64 - shift) as nat, shift as nat);
            lemma_pow2_adds((63 - shift) as nat, shift as nat);
            lemma2_to64();
            lemma2_to64_rest();
            lemma_pow2_pos(shift as nat);
            lemma_mul_strict_inequality(d as int, pow2((64 - shift) as nat) as int, pow2(shift as nat) as int);
            lemma_mul_inequality(pow2((63 - shift) as nat) as int, d as int, pow2(shift as nat) as int);
            lemma_u64_shl_is_mul(d, shift as u64);
        }
        let divisor = d << shift;
        proof {
            lemma_div_by_multiple(d as int, pow2(shift as nat) as int);
            lemma_mod_multiples_basic(d as int, pow2(shift as nat) as int);
            lemma_reciprocal_64(divisor as int);
        }
        let reciprocal = (u128::MAX / divisor as u128 - (1u128 << 64)) as u64;
        NormalizedDivisor { divisor, reciprocal, shift }
    }
}

/// The reciprocal of a normalized 64 bit divisor lies in [2^64, 2^65).
proof fn lemma_reciprocal_64(d: int)
    requires
        0x8000_0000_0000_0000 <= d < b64(),
    ensures
        b64() <= (b64() * b64() - 1) / d < 2 * b64(),
        1u128 << 64u128 == b64(),
        ({
            let v = (b64() * b64() - 1) / d - b64();
            &&& (b64() + v) * d <= b64() * b64() - 1
            &&& b64() * b64() - 1 < (b64() + v + 1) * d
        }),
{
    assert(1u128 << 64u128 == 0x1_0000_0000_0000_0000u128) by (bit_vector);
    let n = b64() * b64() - 1;
    let q = n / d;
    lemma_fundamental_div_mod(n, d);
    assert(q * d <= n < (q + 1) * d) by (nonlinear_arith)
        requires
            n == d * q + n % d,
            0 <= n % d < d,
    ;
    assert(b64() <= q < 2 * b64()) by (nonlinear_arith)
        requires
            q * d <= n < (q + 1) * d,
            0x8000_0000_0000_0000 <= d < b64(),
            n == b64() * b64() - 1,
            b64() == 0x1_0000_0000_0000_0000,
    ;
}


/// The remainder of the candidate quotient q1 + 1, scaled by the word base, in terms of the
/// reciprocal's error k = b^2 - (b + v) * d.
proof fn lemma_estimate_identity(b: int, d: int, v: int, u1: int, u0: int, q1: int, q0: int)
    requires
        q1 * b + q0 == (b + v) * u1 + u0,
    ensures
        b * (u1 * b + u0 - (q1 + 1) * d) == u1 * (b * b - (b + v) * d) + u0 * (b - d) - d * (b
            - q0),
{
    assert(b * (u1 * b + u0 - (q1 + 1) * d) == u1 * b * b + u0 * b - (q1 * b) * d - b * d)
        by (nonlinear_arith);
    assert((q1 * b) * d == ((b + v) * u1 + u0 - q0) * d);
    assert(((b + v) * u1 + u0 - q0) * d == u1 * ((b + v) * d) + u0 * d - q0 * d)
        by (nonlinear_arith);
    assert(u1 * (b * b - (b + v) * d) == u1 * b * b - u1 * ((b + v) * d)) by (nonlinear_arith);
    assert(u0 * (b - d) - d * (b - q0) == u0 * b - u0 * d - d * b + q0 * d) by (nonlinear_arith);
}

/// The candidate quotient of the 2/1 step, q1 + 1 where q1 is the high word of
/// (2^64 + v) * u1 + u0, leaves a remainder close enough to the true one that two corrections
/// settle it: max(2^64 - d, q0) - 2^64 < rt < max(2^64 - d, q0), and rt >= -d.
proof fn lemma_2by1_estimate(d: int, v: int, u1: int, u0: int, q1: int, q0: int)
    requires
        0x8000_0000_0000_0000 <= d < b64(),
        0 <= v < b64(),
        (b64() + v) * d <= b64() * b64() - 1,
        b64() * b64() - 1 < (b64() + v + 1) * d,
        0 <= u1 < d,
        0 <= u0 < b64(),
        q1 * b64() + q0 == (b64() + v) * u1 + u0,
        0 <= q0 < b64(),
    ensures
        (b64() + v) * u1 + u0 < b64() * b64(),
        0 <= q1 < b64(),
        q0 - b64() < u1 * b64() + u0 - (q1 + 1) * d,
        -d <= u1 * b64() + u0 - (q1 + 1) * d,
        u1 * b64() + u0 - (q1 + 1) * d < (if b64() - d > q0 {
            b64() - d
        } else {
            q0
        }),
{
    let bb = b64();
    let k = bb * bb - (bb + v) * d;
    assert(1 <= k <= d) by (nonlinear_arith)
        requires
            k == bb * bb - (bb + v) * d,
            (bb + v) * d <= bb * bb - 1,
            bb * bb - 1 < (bb + v + 1) * d,
    ;
    assert((bb + v) * u1 <= (bb + v) * d - (bb + v)) by (nonlinear_arith)
        requires
            0 <= u1 < d,
            0 <= v,
            bb > 0,
    ;
    assert(0 <= (bb + v) * u1) by (nonlinear_arith)
        requires
            0 <= u1,
            0 <= v,
            bb > 0,
    ;
    let rt = u1 * bb + u0 - (q1 + 1) * d;
    lemma_estimate_identity(bb, d, v, u1, u0, q1, q0);
    assert(0 <= u1 * k <= (d - 1) * d) by (nonlinear_arith)
        requires
            0 <= u1 < d,
            1 <= k <= d,
    ;
    assert(0 <= u0 * (bb - d) <= (bb - 1) * (bb - d)) by (nonlinear_arith)
        requires
            0 <= u0 < bb,
            d < bb,
    ;
    assert(d * (bb - q0) < bb * (bb - q0) && d * (bb - q0) <= d * bb) by (nonlinear_arith)
        requires
            0 <= q0 < bb,
            0 < d < bb,
    ;
    assert(q0 - bb < rt && -d <= rt) by (nonlinear_arith)
        requires
            bb * rt >= -(d * (bb - q0)),
            d * (bb - q0) < bb * (bb - q0),
            d * (bb - q0) <= d * bb,
            bb > 0,
    ;
    if bb - d > q0 {
        assert(d * q0 <= d * (bb - d)) by (nonlinear_arith)
            requires
                0 <= q0 < bb - d,
                d > 0,
        ;
        assert(rt < bb - d) by (nonlinear_arith)
            requires
                bb * rt == u1 * k + u0 * (bb - d) - d * (bb - q0),
                u1 * k <= (d - 1) * d,
                u0 * (bb - d) <= (bb - 1) * (bb - d),
                d * q0 <= d * (bb - d),
                bb > 0,
        ;
    } else {
        assert((bb - d) * (bb - d) <= (bb - d) * q0) by (nonlinear_arith)
            requires
                bb - d <= q0,
                bb - d > 0,
        ;
        assert(rt < q0) by (nonlinear_arith)
            requires
                bb * rt == u1 * k + u0 * (bb - d) - d * (bb - q0),
                u1 * k <= (d - 1) * d,
                u0 * (bb - d) <= (bb - 1) * (bb - d),
                (bb - d) * (bb - d) <= (bb - d) * q0,
                bb > 0,
        ;
    }
}


/// A normalized divisor that is a multiple of 2^shift is its unshifted value times 2^shift.
proof fn lemma_normalized_value(divisor: int, p: int)
    requires
        divisor > 0,
        p > 0,
        divisor % p == 0,
    ensures
        divisor == (divisor / p) * p,
        divisor / p >= 1,
{
    lemma_fundamental_div_mod(divisor, p);
    lemma_mul_is_commutative(p, divisor / p);
    if divisor / p < 1 {
        assert(divisor / p >= 0) by {
            lemma_div_pos_is_pos(divisor, p);
        }
        assert(divisor == 0);
    }
}

/// Shifting a 192 bit dividend whose quotient fits within 128 bits: the shifted value fits
/// within 192 bits and its top word is below the shifted divisor.
proof fn lemma_shifted_dividend(v: int, dv: int, p: int, divisor: int, x0: int, x1: int, x2: int)
    requires
        v == x0 + x1 * b64() + x2 * (b64() * b64()),
        0 <= x0 < b64(),
        0 <= x1 < b64(),
        0 <= x2 < b64(),
        dv >= 1,
        p >= 1,
        divisor == dv * p,
        v / dv < b64() * b64(),
    ensures
        x2 * p < divisor,
        v * p < divisor * (b64() * b64()),
        v * p == x0 * p + (x1 * p) * b64() + (x2 * p) * (b64() * b64()),
{
    let bb = b64() * b64();
    lemma_fundamental_div_mod(v, dv);
    assert(v < dv * bb) by (nonlinear_arith)
        requires
            v == dv * (v / dv) + v % dv,
            v % dv < dv,
            v / dv < bb,
            dv >= 1,
    ;
    assert(x2 < dv) by (nonlinear_arith)
        requires
            v == x0 + x1 * b64() + x2 * bb,
            v < dv * bb,
            x0 >= 0,
            x1 >= 0,
            bb > 0,
    ;
    assert(x2 * p < divisor) by (nonlinear_arith)
        requires
            x2 < dv,
            p >= 1,
            divisor == dv * p,
    ;
    assert(v * p < divisor * bb) by (nonlinear_arith)
        requires
            v < dv * bb,
            p >= 1,
            divisor == dv * p,
    ;
    assert(v * p == x0 * p + (x1 * p) * b64() + (x2 * p) * bb) by (nonlinear_arith)
        requires
            v == x0 + x1 * b64() + x2 * bb,
    ;
}

/// Two 2/1 division steps divide the shifted value by the shifted divisor; scaling back gives
/// the quotient and the remainder of the unshifted division.
proof fn lemma_long_division(
    v: int,
    dv: int,
    p: int,
    divisor: int,
    n2: int,
    n1: int,
    n0: int,
    q1: int,
    r1: int,
    q0: int,
    r: int,
)
    requires
        dv >= 1,
        p >= 1,
        divisor == dv * p,
        v * p == n0 + n1 * b64() + n2 * (b64() * b64()),
        q1 * divisor + r1 == n2 * b64() + n1,
        q0 * divisor + r == r1 * b64() + n0,
        0 <= r < divisor,
        0 <= q0,
        0 <= q1,
    ensures
        q1 * b64() + q0 == v / dv,
        r == (v % dv) * p,
{
    let qt = q1 * b64() + q0;
    assert(qt * divisor + r == v * p) by (nonlinear_arith)
        requires
            qt == q1 * b64() + q0,
            q1 * divisor + r1 == n2 * b64() + n1,
            q0 * divisor + r == r1 * b64() + n0,
            v * p == n0 + n1 * b64() + n2 * (b64() * b64()),
    ;
    assert((v - qt * dv) * p == r) by (nonlinear_arith)
        requires
            qt * divisor + r == v * p,
            divisor == dv * p,
    ;
    assert(0 <= v - qt * dv < dv) by (nonlinear_arith)
        requires
            (v - qt * dv) * p == r,
            0 <= r < divisor,
            divisor == dv * p,
            p >= 1,
    ;
    lemma_fundamental_div_mod_converse(v, dv, qt, v - qt * dv);
}


/// 2^128 as an integer.
pub open spec fn b128() -> int {
    0x1_0000_0000_0000_0000_0000_0000_0000_0000int
}

/// The remainder of the 3/2 candidate quotient, scaled by the word base.
proof fn lemma_estimate_identity_3by2(
    b: int,
    dd: int,
    v: int,
    u2: int,
    u1: int,
    u0: int,
    q1: int,
    q0: int,
)
    requires
        q1 * b + q0 == (b + v) * u2 + u1,
    ensures
        b * (u2 * (b * b) + u1 * b + u0 - (q1 + 1) * dd) == u2 * (b * b * b - (b + v) * dd) + u1
            * (b * b - dd) + u0 * b - dd * (b - q0),
{
    assert(b * (u2 * (b * b) + u1 * b + u0 - (q1 + 1) * dd) == u2 * (b * b * b) + u1 * (b * b)
        + u0 * b - (q1 * b) * dd - b * dd) by (nonlinear_arith);
    assert((q1 * b) * dd == ((b + v) * u2 + u1 - q0) * dd);
    assert(((b + v) * u2 + u1 - q0) * dd == u2 * ((b + v) * dd) + u1 * dd - q0 * dd)
        by (nonlinear_arith);
    assert(u2 * (b * b * b - (b + v) * dd) == u2 * (b * b * b) - u2 * ((b + v) * dd))
        by (nonlinear_arith);
    assert(u1 * (b * b - dd) == u1 * (b * b) - u1 * dd) by (nonlinear_arith);
    assert(dd * (b - q0) == dd * b - q0 * dd) by (nonlinear_arith);
}

/// The key bound of the 3/2 step: b * X < b^2 * e + d^2, where X = k * u2 + e * u1 + b * u0,
/// k = b^3 - (b + v) * d is the reciprocal's error and e = b^2 - d.
proof fn lemma_3by2_key_bound(dd: int, k: int, u2: int, u1: int, u0: int)
    requires
        b128() / 2 <= dd < b128(),
        1 <= k <= dd,
        k <= b64() * (b128() - dd),
        0 <= u2,
        0 <= u1 < b64(),
        0 <= u0 < b64(),
        u2 * b64() + u1 < dd,
    ensures
        b64() * (k * u2 + (b128() - dd) * u1 + b64() * u0) < b128() * (b128() - dd) + dd * dd,
{
    let bb = b64();
    let e = b128() - dd;
    assert(b64() * b64() == b128());
    assert(bb * u0 <= bb * (bb - 1)) by (nonlinear_arith)
        requires
            0 <= u0 < bb,
            bb > 0,
    ;
    if e < bb {
        assert(bb * (k * u2) <= bb * e * (dd - 1 - u1)) by (nonlinear_arith)
            requires
                k <= bb * e,
                0 <= u2,
                u2 * bb <= dd - 1 - u1,
                bb > 0,
                e >= 0,
        ;
        assert(bb * (k * u2 + e * u1 + bb * u0) == bb * (k * u2) + bb * (e * u1) + bb * (bb * u0))
            by (nonlinear_arith);
        assert(bb * (e * u1) + bb * e * (dd - 1 - u1) == bb * e * (dd - 1)) by (nonlinear_arith);
        assert(bb * (bb * u0) <= bb * bb * (bb - 1)) by (nonlinear_arith)
            requires
                bb * u0 <= bb * (bb - 1),
                bb > 0,
        ;
        assert(bb * e * (dd - 1) + bb * bb * (bb - 1) < b128() * e + dd * dd) by (nonlinear_arith)
            requires
                e == b128() - dd,
                1 <= e < bb,
                b128() == bb * bb,
                bb == 0x1_0000_0000_0000_0000,
        ;
    } else {
        assert(bb * (k * u2) <= dd * (dd - 1 - u1)) by (nonlinear_arith)
            requires
                k <= dd,
                k >= 0,
                0 <= u2,
                u2 * bb <= dd - 1 - u1,
                bb > 0,
        ;
        assert(u1 * (bb * e - dd) < bb * bb * e - bb * bb * bb + bb * bb + dd) by (nonlinear_arith)
            requires
                e == bb * bb - dd,
                e >= bb,
                0 <= u1 < bb,
                bb == 0x1_0000_0000_0000_0000,
        ;
        assert(bb * (k * u2 + e * u1 + bb * u0) == bb * (k * u2) + bb * (e * u1) + bb * (bb * u0))
            by (nonlinear_arith);
        assert(bb * (bb * u0) <= bb * bb * (bb - 1)) by (nonlinear_arith)
            requires
                bb * u0 <= bb * (bb - 1),
                bb > 0,
        ;
        assert(dd * (dd - 1 - u1) + bb * (e * u1) + bb * bb * (bb - 1) == dd * dd - dd + u1 * (bb
            * e - dd) + bb * bb * bb - bb * bb) by (nonlinear_arith);
    }
}

/// The candidate quotient of the 3/2 step, q1 + 1 where q1 is the high word of
/// (2^64 + v) * u2 + u1, leaves a remainder rt with max(e, q0 * 2^64) - 2^128 <= rt and
/// rt < max(e, q0 * 2^64), where e = 2^128 - d.
proof fn lemma_3by2_estimate(dd: int, v: int, u2: int, u1: int, u0: int, q1: int, q0: int)
    requires
        b128() / 2 <= dd < b128(),
        0 <= v < b64(),
        (b64() + v) * dd <= b64() * b128() - 1,
        b64() * b128() - 1 < (b64() + v + 1) * dd,
        0 <= u2,
        0 <= u1 < b64(),
        0 <= u0 < b64(),
        u2 * b64() + u1 < dd,
        q1 * b64() + q0 == (b64() + v) * u2 + u1,
        0 <= q0 < b64(),
    ensures
        (b64() + v) * u2 + u1 < b128(),
        0 <= q1 < b64(),
        -dd <= u2 * b128() + u1 * b64() + u0 - (q1 + 1) * dd,
        q0 * b64() - b128() <= u2 * b128() + u1 * b64() + u0 - (q1 + 1) * dd,
        u2 * b128() + u1 * b64() + u0 - (q1 + 1) * dd < (if b128() - dd > q0 * b64() {
            b128() - dd
        } else {
            q0 * b64()
        }),
{
    let bb = b64();
    let e = b128() - dd;
    assert(bb * bb == b128());
    let k = bb * b128() - (bb + v) * dd;
    assert(1 <= k <= dd) by (nonlinear_arith)
        requires
            k == bb * b128() - (bb + v) * dd,
            (bb + v) * dd <= bb * b128() - 1,
            bb * b128() - 1 < (bb + v + 1) * dd,
    ;
    assert(k <= bb * e) by (nonlinear_arith)
        requires
            k == bb * b128() - (bb + v) * dd,
            e == b128() - dd,
            v >= 0,
            dd > 0,
    ;
    // The candidate fits within two words.
    let q = (bb + v) * u2 + u1;
    assert(q * dd == u2 * (bb * b128() - k) + u1 * dd) by (nonlinear_arith)
        requires
            q == (bb + v) * u2 + u1,
            k == bb * b128() - (bb + v) * dd,
    ;
    assert(u2 * (bb * b128()) <= b128() * (dd - 1 - u1)) by (nonlinear_arith)
        requires
            u2 * bb + u1 < dd,
            u2 >= 0,
            bb * bb == b128(),
    ;
    assert(0 <= u2 * k && 0 <= u1 * e) by (nonlinear_arith)
        requires
            0 <= u2,
            0 <= k,
            0 <= u1,
            0 <= e,
    ;
    assert(q < b128()) by (nonlinear_arith)
        requires
            q * dd == u2 * (bb * b128() - k) + u1 * dd,
            u2 * (bb * b128()) <= b128() * (dd - 1 - u1),
            0 <= u2 * k,
            0 <= u1 * e,
            e == b128() - dd,
            dd > 0,
    ;
    assert(0 <= q) by (nonlinear_arith)
        requires
            q == (bb + v) * u2 + u1,
            bb > 0,
            u2 >= 0,
            v >= 0,
            u1 >= 0,
    ;
    let rt = u2 * b128() + u1 * bb + u0 - (q1 + 1) * dd;
    lemma_estimate_identity_3by2(bb, dd, v, u2, u1, u0, q1, q0);
    let x = k * u2 + e * u1 + bb * u0;
    assert(bb * rt == x - dd * (bb - q0)) by (nonlinear_arith)
        requires
            bb * (u2 * (bb * bb) + u1 * bb + u0 - (q1 + 1) * dd) == u2 * (bb * bb * bb - (bb + v)
                * dd) + u1 * (bb * bb - dd) + u0 * bb - dd * (bb - q0),
            rt == u2 * b128() + u1 * bb + u0 - (q1 + 1) * dd,
            x == k * u2 + e * u1 + bb * u0,
            k == bb * b128() - (bb + v) * dd,
            e == b128() - dd,
            bb * bb == b128(),
    ;
    // Lower bounds.
    assert(0 <= x) by (nonlinear_arith)
        requires
            x == k * u2 + e * u1 + bb * u0,
            0 <= u2 * k,
            0 <= u1 * e,
            0 <= u0,
            bb > 0,
    ;
    assert(dd * (bb - q0) <= dd * bb && dd * (bb - q0) <= b128() * (bb - q0)) by (nonlinear_arith)
        requires
            0 <= q0 < bb,
            0 < dd < b128(),
    ;
    assert(-dd <= rt && q0 * bb - b128() <= rt) by (nonlinear_arith)
        requires
            bb * rt == x - dd * (bb - q0),
            0 <= x,
            dd * (bb - q0) <= dd * bb,
            dd * (bb - q0) <= b128() * (bb - q0),
            b128() == bb * bb,
            bb > 0,
    ;
    // Upper bound: below e, or else below q0 * 2^64.
    lemma_3by2_key_bound(dd, k, u2, u1, u0);
    if rt >= e {
        assert(dd * q0 >= bb * b128() - x) by (nonlinear_arith)
            requires
                bb * rt == x - dd * (bb - q0),
                rt >= e,
                e == b128() - dd,
                bb > 0,
        ;
        if x - dd * bb >= q0 * e {
            assert(dd * (x - dd * bb) >= dd * (q0 * e)) by (nonlinear_arith)
                requires
                    x - dd * bb >= q0 * e,
                    dd > 0,
            ;
            assert(dd * (q0 * e) >= (bb * b128() - x) * e) by (nonlinear_arith)
                requires
                    dd * q0 >= bb * b128() - x,
                    e > 0,
            ;
            assert(x * b128() >= bb * (b128() * e + dd * dd)) by (nonlinear_arith)
                requires
                    dd * (x - dd * bb) >= (bb * b128() - x) * e,
                    dd + e == b128(),
                    b128() == bb * bb,
            ;
            assert(bb * x >= b128() * e + dd * dd) by (nonlinear_arith)
                requires
                    x * b128() >= bb * (b128() * e + dd * dd),
                    b128() == bb * bb,
                    bb > 0,
            ;
        }
        assert(rt < q0 * bb) by (nonlinear_arith)
            requires
                bb * rt == x - dd * (bb - q0),
                x - dd * bb < q0 * e,
                e == b128() - dd,
                b128() == bb * bb,
                bb > 0,
        ;
    }
}


/// The remainder computed modulo 2^128 in the 3/2 step is the candidate's remainder rt, or
/// rt + 2^128 when that is negative.
proof fn lemma_3by2_remainder(
    rt: int,
    r: int,
    ra: int,
    x: int,
    t: int,
    r1: int,
    a1: int,
    dd: int,
    qh: int,
    u2: int,
    u1: int,
    u0: int,
    q0: int,
)
    requires
        0 <= r < b128(),
        x == r1 * b64() + u0,
        ra == x - t || ra == x - t + b128(),
        r == ra - dd || r == ra - dd + b128(),
        r1 == u1 - a1 % b64() || r1 == u1 - a1 % b64() + b64(),
        a1 == b64() * (a1 / b64()) + a1 % b64(),
        qh * dd == a1 * b64() + t,
        rt == u2 * b128() + u1 * b64() + u0 - (qh * dd + dd),
        -dd <= rt,
        rt < (if b128() - dd > q0 * b64() {
            b128() - dd
        } else {
            q0 * b64()
        }),
        0 < dd < b128(),
        0 <= q0 < b64(),
    ensures
        r == (if rt >= 0 {
            rt
        } else {
            rt + b128()
        }),
{
    let j = a1 / b64();
    assert(r - rt == b128() * (j - u2) || r - rt == b128() * (j - u2) + b128() || r - rt == b128()
        * (j - u2) + 2 * b128() || r - rt == b128() * (j - u2) + 3 * b128());
}

/// Shifting left by `s` bits multiplies by 2^s when nothing is shifted out.
proof fn lemma_u128_shl(x: u128, s: u32)
    requires
        s < 128,
        x * pow2(s as nat) < b128(),
    ensures
        x << s == x * pow2(s as nat),
    decreases s,
{
    if s == 0 {
        assert(x << 0u32 == x) by (bit_vector);
        crate::digits::lemma_pow2_values();
    } else {
        let t: u32 = (s - 1) as u32;
        lemma_pow2_unfold(s as nat);
        lemma_pow2_pos(t as nat);
        assert(x * pow2(s as nat) == 2 * (x * pow2(t as nat))) by (nonlinear_arith)
            requires
                pow2(s as nat) == 2 * pow2(t as nat),
        ;
        lemma_u128_shl(x, t);
        let y = x << t;
        assert(0 < s < 128u32 && y == x << t && t == s - 1 ==> x << s == y << 1u32)
            by (bit_vector);
        assert(y < 0x8000_0000_0000_0000_0000_0000_0000_0000u128 ==> y << 1u32 == 2 * y)
            by (bit_vector);
    }
}

/// One step of binary long division of 2^i - 1 by a normalized 128 bit divisor: doubling the
/// remainder and bringing down a one bit.
proof fn lemma_long_division_step(i: nat, d: int, quotient: u128, remainder: u128)
    requires
        i < 192,
        b128() / 2 <= d < b128(),
        quotient as int == (pow2(i) - 1) / d,
        remainder as int == (pow2(i) - 1) % d,
    ensures
        ({
            let carry = remainder >> 127u128;
            let rem2 = (remainder << 1u128) | 1u128;
            let q2 = quotient << 1u128;
            let n = pow2(i + 1) - 1;
            &&& (carry != 0 || rem2 >= d) ==> (q2 | 1u128) as int == n / d
                && rem2.wrapping_sub(d as u128) as int == n % d
            &&& !(carry != 0 || rem2 >= d) ==> q2 as int == n / d && rem2 as int == n % d
        }),
{
    crate::digits::lemma_pow2_values();
    let n0 = pow2(i) - 1;
    let n = pow2(i + 1) - 1;
    lemma_pow2_unfold(i + 1);
    lemma_pow2_strictly_increases(i, 192);
    lemma_pow2_adds(128, 64);
    lemma_fundamental_div_mod(n0, d);
    let q = n0 / d;
    let r = n0 % d;
    assert(q < 0x8000_0000_0000_0000_0000_0000_0000_0000) by (nonlinear_arith)
        requires
            n0 == d * q + r,
            r >= 0,
            n0 < b64() * b128(),
            d >= b128() / 2,
            b128() == 0x1_0000_0000_0000_0000 * 0x1_0000_0000_0000_0000,
    ;
    lemma_u128_shr_is_div(remainder, 127);
    assert(((remainder << 1u128) | 1u128) == (remainder % 0x8000_0000_0000_0000_0000_0000_0000_0000u128)
        * 2 + 1 && (quotient < 0x8000_0000_0000_0000_0000_0000_0000_0000u128 ==> (quotient << 1u128)
        == 2 * quotient && (quotient << 1u128) | 1u128 == 2 * quotient + 1)) by (bit_vector);
    let big_r = 2 * r + 1;
    assert(n == d * (2 * q) + big_r) by (nonlinear_arith)
        requires
            n0 == d * q + r,
            n == 2 * n0 + 1,
            big_r == 2 * r + 1,
    ;
    if big_r >= d {
        assert(n == d * (2 * q + 1) + (big_r - d)) by (nonlinear_arith)
            requires
                n == d * (2 * q) + big_r,
        ;
        lemma_fundamental_div_mod_converse(n, d, 2 * q + 1, big_r - d);
    } else {
        lemma_fundamental_div_mod_converse(n, d, 2 * q, big_r);
    }
}

/// The reciprocal of a normalized 128 bit divisor lies in [2^64, 2^65).
proof fn lemma_reciprocal_128(d: int)
    requires
        b128() / 2 <= d < b128(),
    ensures
        b64() <= (pow2(192) - 1) / d < 2 * b64(),
        1u128 << 64u128 == b64(),
        ({
            let v = (pow2(192) - 1) / d - b64();
            &&& (b64() + v) * d <= b64() * b128() - 1
            &&& b64() * b128() - 1 < (b64() + v + 1) * d
            &&& v == (b64() * b128() - 1) / d - b64()
        }),
{
    assert(1u128 << 64u128 == 0x1_0000_0000_0000_0000u128) by (bit_vector);
    crate::digits::lemma_pow2_values();
    lemma_pow2_adds(128, 64);
    let n = b64() * b128() - 1;
    assert(pow2(192) - 1 == n);
    let q = n / d;
    lemma_fundamental_div_mod(n, d);
    assert(q * d <= n < (q + 1) * d) by (nonlinear_arith)
        requires
            n == d * q + n % d,
            0 <= n % d < d,
    ;
    assert(b64() <= q < 2 * b64()) by (nonlinear_arith)
        requires
            q * d <= n < (q + 1) * d,
            b128() / 2 <= d < b128(),
            n == b64() * b128() - 1,
            b64() == 0x1_0000_0000_0000_0000,
            b128() == 0x1_0000_0000_0000_0000 * 0x1_0000_0000_0000_0000,
    ;
}

/// A 128 bit divisor shifted left so that its top bit is set, along with its reciprocal
/// floor((2^192 - 1) / divisor) - 2^64.
#[derive(Clone, Copy, Debug)]
pub struct NormalizedDivisor128 {
    pub divisor: u128,
    pub reciprocal: u64,
    pub shift: u32,
}

impl NormalizedDivisor128 {
    /// The divisor is normalized, a multiple of 2^shift, and the reciprocal is
    /// floor((2^192 - 1) / divisor) - 2^64.
    pub open spec fn wf(self) -> bool {
        &&& self.divisor >= b128() / 2
        &&& self.shift < 128
        &&& self.divisor as nat % pow2(self.shift as nat) == 0
        &&& (b64() + self.reciprocal) * self.divisor <= b64() * b128() - 1
        &&& b64() * b128() - 1 < (b64() + self.reciprocal + 1) * self.divisor
    }

    /// The divisor before it was shifted.
    pub open spec fn value(self) -> nat {
        self.divisor as nat / pow2(self.shift as nat)
    }

    /// Normalizes the divisor `d` and computes its reciprocal.
    pub fn new(d: u128) -> (r: Self)
        requires
            d > 0,
        ensures
            r.wf(),
            r.value() == d,
            r.divisor == d as nat * pow2(r.shift as nat),
            r.reciprocal == (b64() * b128() - 1) / (r.divisor as int) - b64(),
    {
        let shift = d.leading_zeros();
        proof {
            crate::digits::lemma_pow2_values();
            lemma_pow2_adds((128 - shift) as nat, shift as nat);
            lemma_pow2_adds((127 - shift) as nat, shift as nat);
            lemma_pow2_pos(shift as nat);
            lemma_mul_strict_inequality(d as int, pow2((128 - shift) as nat) as int, pow2(shift as nat) as int);
            lemma_mul_inequality(pow2((127 - shift) as nat) as int, d as int, pow2(shift as nat) as int);
            lemma_u128_shl(d, shift);
        }
        let divisor = d << shift;
        proof {
            lemma_div_by_multiple(d as int, pow2(shift as nat) as int);
            lemma_mod_multiples_basic(d as int, pow2(shift as nat) as int);
        }
        // floor((2^192 - 1) / divisor) - 2^64, computed with binary long division. The quotient is
        // in [2^64, 2^65) since the divisor is normalized.
        let mut quotient = 0u128;
        let mut remainder = 0u128;
        let mut i: u32 = 0;
        while i < 192
            invariant
                0 <= i <= 192,
                b128() / 2 <= divisor < b128(),
                quotient as int == (pow2(i as nat) - 1) / (divisor as int),
                remainder as int == (pow2(i as nat) - 1) % (divisor as int),
            decreases 192 - i,
        {
            proof {
                lemma_long_division_step(i as nat, divisor as int, quotient, remainder);
            }
            let carry = remainder >> 127;
            remainder = (remainder << 1) | 1;
            quotient <<= 1;
            if carry != 0 || remainder >= divisor {
                remainder = remainder.wrapping_sub(divisor);
                quotient |= 1;
            }
            i += 1;
        }
        proof {
            crate::digits::lemma_pow2_values();
            lemma_reciprocal_128(divisor as int);
        }
        NormalizedDivisor128 { divisor, reciprocal: (quotient - (1 << 64)) as u64, shift }
    }

    /// Divides the 192 bit little endian `value` by the unshifted divisor, where the
    /// quotient is known to fit within 128 bits. Returns the quotient and the remainder shifted
    /// left by `self.shift`.
    pub fn div_rem_to_128(&self, value: [u64; 3]) -> (res: (u128, u128))
        requires
            self.wf(),
            self.shift < 64,
            words3(value) / self.value() < b128(),
        ensures
            res.0 == words3(value) / self.value(),
            res.1 == (words3(value) % self.value()) * pow2(self.shift as nat),
    {
        // Shift the dividend by the same amount as the divisor (always less than 64 bits for the
        // powers of 10 we use), giving four words. Since the quotient fits within 128 bits, the
        // top two words are below the divisor.
        let shift = self.shift;
        let x0 = value[0];
        let x1 = value[1];
        let x2 = value[2];
        let n0 = x0 << shift;
        let n1 = (x1 << shift) | (x0 >> 1 >> (63 - shift));
        let n2 = (x2 << shift) | (x1 >> 1 >> (63 - shift));
        let n3 = x2 >> 1 >> (63 - shift);
        let ghost p = pow2(shift as nat) as int;
        let ghost dv = self.value() as int;
        let ghost v = words3(value) as int;
        let ghost top: int = n3 as int * b64() + n2 as int;
        proof {
            lemma_pow2_pos(shift as nat);
            lemma_normalized_value(self.divisor as int, p);
            lemma_shift_word(x0, 0, shift);
            lemma_shift_word(x1, x0, shift);
            lemma_shift_word(x2, x1, shift);
            lemma_shifted_dividend(v, dv, p, self.divisor as int, x0 as int, x1 as int, x2 as int);
            assert(v * p == n0 + n1 * b64() + top * b128());
            assert(top < self.divisor);
        }
        let (q1, r) = self.div_rem_3by2(n3, n2, n1);
        let ghost r1 = r;
        proof {
            lemma_split(r);
        }
        let (q0, r) = self.div_rem_3by2((r >> 64) as u64, r as u64, n0);
        proof {
            lemma_join(q1, q0);
            lemma_long_division(v, dv, p, self.divisor as int, top, n1 as int, n0 as int, q1 as int,
                r1 as int, q0 as int, r as int);
        }
        (((q1 as u128) << 64) | q0 as u128, r)
    }

    /// Divides `u2:u1:u0` by the normalized divisor, returning the quotient and remainder.
    /// Requires `u2:u1 < divisor`, which guarantees the quotient fits within 64 bits.
    pub fn div_rem_3by2(&self, u2: u64, u1: u64, u0: u64) -> (res: (u64, u128))
        requires
            self.wf(),
            u2 as int * b64() + u1 < self.divisor,
        ensures
            res.0 as int * self.divisor + res.1 == u2 as int * b128() + u1 as int * b64() + u0,
            res.1 < self.divisor,
    {
        let d = self.divisor;
        proof {
            lemma_split(d);
        }
        let d1 = (d >> 64) as u64;
        let d0 = d as u64;
        let ghost bb = b64();
        let ghost dd = d as int;
        let ghost uu: int = u2 as int * b128() + u1 as int * bb + u0;
        let ghost qq: int = (bb + self.reciprocal) * u2 + u1;
        proof {
            lemma_join(u2, u1);
            lemma_fundamental_div_mod(qq, bb);
            lemma_3by2_estimate(dd, self.reciprocal as int, u2 as int, u1 as int, u0 as int, qq / bb, qq % bb);
            assert(self.reciprocal as int * u2 as int + (u2 as int * bb + u1) == qq)
                by (nonlinear_arith)
                requires
                    qq == (bb + self.reciprocal) * u2 + u1,
            ;
        }
        let q = (self.reciprocal as u128 * u2 as u128).wrapping_add(((u2 as u128) << 64) | u1 as u128);
        proof {
            lemma_split(q);
        }
        let ghost qh: int = qq / bb;
        let ghost rt: int = uu - (qh + 1) * dd;
        let mut q1 = (q >> 64) as u64;
        let q0 = q as u64;
        let m1 = q1.wrapping_mul(d1);
        let r1 = u1.wrapping_sub(m1);
        proof {
            assert(q == qq);
            assert(q1 as int == qh);
            assert((d0 as int) * (q1 as int) <= (bb - 1) * (bb - 1)) by (nonlinear_arith)
                requires
                    0 <= d0 < bb,
                    0 <= q1 < bb,
            ;
        }
        let t = d0 as u128 * q1 as u128;
        let ghost a1: int = q1 as int * d1 as int;
        proof {
            lemma_join(r1, u0);
            lemma_fundamental_div_mod(a1, bb);
            assert(m1 as int == a1 % bb);
            assert(r1 as int == u1 - a1 % bb || r1 as int == u1 - a1 % bb + bb);
            assert(qh * dd == a1 * bb + (d0 as int) * (q1 as int)) by (nonlinear_arith)
                requires
                    dd == d1 * bb + d0,
                    a1 == q1 * d1,
                    qh == q1,
            ;
        }
        let x = ((r1 as u128) << 64) | u0 as u128;
        let ra = x.wrapping_sub(t);
        let mut r = ra.wrapping_sub(d);
        proof {
            assert((qh + 1) * dd == qh * dd + dd) by (nonlinear_arith);
            lemma_3by2_remainder(
                rt,
                r as int,
                ra as int,
                x as int,
                t as int,
                r1 as int,
                a1,
                dd,
                qh,
                u2 as int,
                u1 as int,
                u0 as int,
                q0 as int,
            );
        }
        assert(r as int == if rt >= 0 { rt } else { rt + b128() });
        q1 = q1.wrapping_add(1);
        proof {
            lemma_split(r);
        }
        let ghost qc: int;
        if (r >> 64) as u64 >= q0 {
            q1 = q1.wrapping_sub(1);
            r = r.wrapping_add(d);
            proof {
                qc = qh;
                assert((qh + 1) * dd == qh * dd + dd) by (nonlinear_arith);
            }
        } else {
            proof {
                qc = qh + 1;
                if qh + 1 == bb {
                    assert(rt < 0) by (nonlinear_arith)
                        requires
                            rt == uu - (qh + 1) * dd,
                            qh + 1 == bb,
                            uu == u2 * b128() + u1 * bb + u0,
                            u2 * bb + u1 < dd,
                            0 <= u0 < bb,
                            b128() == bb * bb,
                    ;
                }
            }
        }
        assert(q1 as int == qc && r as int == uu - qc * dd);
        if r >= d {
            proof {
                assert(qc + 1 < bb) by (nonlinear_arith)
                    requires
                        uu - qc * dd >= dd,
                        uu == u2 * b128() + u1 * bb + u0,
                        u2 * bb + u1 < dd,
                        0 <= u0 < bb,
                        b128() == bb * bb,
                        dd > 0,
                ;
                assert((qc + 1) * dd == qc * dd + dd) by (nonlinear_arith);
            }
            q1 += 1;
            r -= d;
        }
        (q1, r)
    }
}

/// An entry of a divisor table: a multiple of 2^shift by the unshifted divisor.
proof fn lemma_table_entry(divisor: int, shift: nat, d: int)
    requires
        divisor == d * pow2(shift),
        d > 0,
    ensures
        divisor % pow2(shift) as int == 0,
        divisor / pow2(shift) as int == d,
{
    lemma_pow2_pos(shift);
    lemma_div_by_multiple(d, pow2(shift) as int);
    lemma_mod_multiples_basic(d, pow2(shift) as int);
}

/// The normalized divisors for 10^0 to 10^19, indexed by the power.
pub fn pow10_divisor(power: usize) -> (r: NormalizedDivisor)
    requires
        power <= MAX_POW10_U64,
    ensures
        r.wf(),
        r.value() == pow10(power as nat),
        r.divisor == pow10(power as nat) * pow2(r.shift as nat),
        r.divisor % 2 == 0,
{
    proof {
        lemma_pow10_values();
        lemma2_to64();
        lemma2_to64_rest();
    }
    match power {
        0 => {
            proof {
                lemma_table_entry(9223372036854775808, 63, 1);
            }
            NormalizedDivisor { divisor: 9223372036854775808, reciprocal: 18446744073709551615, shift: 63 }
        },
        1 => {
            proof {
                lemma_table_entry(11529215046068469760, 60, 10);
            }
            NormalizedDivisor { divisor: 11529215046068469760, reciprocal: 11068046444225730969, shift: 60 }
        },
        2 => {
            proof {
                lemma_table_entry(14411518807585587200, 57, 100);
            }
            NormalizedDivisor { divisor: 14411518807585587200, reciprocal: 5165088340638674452, shift: 57 }
        },
        3 => {
            proof {
                lemma_table_entry(18014398509481984000, 54, 1000);
            }
            NormalizedDivisor { divisor: 18014398509481984000, reciprocal: 442721857769029238, shift: 54 }
        },
        4 => {
            proof {
                lemma_table_entry(11258999068426240000, 50, 10000);
            }
            NormalizedDivisor { divisor: 11258999068426240000, reciprocal: 11776401416656177751, shift: 50 }
        },
        5 => {
            proof {
                lemma_table_entry(14073748835532800000, 47, 100000);
            }
            NormalizedDivisor { divisor: 14073748835532800000, reciprocal: 5731772318583031878, shift: 47 }
        },
        6 => {
            proof {
                lemma_table_entry(17592186044416000000, 44, 1000000);
            }
            NormalizedDivisor { divisor: 17592186044416000000, reciprocal: 896069040124515179, shift: 44 }
        },
        7 => {
            proof {
                lemma_table_entry(10995116277760000000, 40, 10000000);
            }
            NormalizedDivisor { divisor: 10995116277760000000, reciprocal: 12501756908424955256, shift: 40 }
        },
        8 => {
            proof {
                lemma_table_entry(13743895347200000000, 37, 100000000);
            }
            NormalizedDivisor { divisor: 13743895347200000000, reciprocal: 6312056711998053881, shift: 37 }
        },
        9 => {
            proof {
                lemma_table_entry(17179869184000000000, 34, 1000000000);
            }
            NormalizedDivisor { divisor: 17179869184000000000, reciprocal: 1360296554856532782, shift: 34 }
        },
        10 => {
            proof {
                lemma_table_entry(10737418240000000000, 30, 10000000000);
            }
            NormalizedDivisor { divisor: 10737418240000000000, reciprocal: 13244520931996183421, shift: 30 }
        },
        11 => {
            proof {
                lemma_table_entry(13421772800000000000, 27, 100000000000);
            }
            NormalizedDivisor { divisor: 13421772800000000000, reciprocal: 6906267930855036413, shift: 27 }
        },
        12 => {
            proof {
                lemma_table_entry(16777216000000000000, 24, 1000000000000);
            }
            NormalizedDivisor { divisor: 16777216000000000000, reciprocal: 1835665529942118807, shift: 24 }
        },
        13 => {
            proof {
                lemma_table_entry(10485760000000000000, 20, 10000000000000);
            }
            NormalizedDivisor { divisor: 10485760000000000000, reciprocal: 14005111292133121062, shift: 20 }
        },
        14 => {
            proof {
                lemma_table_entry(13107200000000000000, 17, 100000000000000);
            }
            NormalizedDivisor { divisor: 13107200000000000000, reciprocal: 7514740218964586526, shift: 17 }
        },
        15 => {
            proof {
                lemma_table_entry(16384000000000000000, 14, 1000000000000000);
            }
            NormalizedDivisor { divisor: 16384000000000000000, reciprocal: 2322443360429758898, shift: 14 }
        },
        16 => {
            proof {
                lemma_table_entry(10240000000000000000, 10, 10000000000000000);
            }
            NormalizedDivisor { divisor: 10240000000000000000, reciprocal: 14783955820913345206, shift: 10 }
        },
        17 => {
            proof {
                lemma_table_entry(12800000000000000000, 7, 100000000000000000);
            }
            NormalizedDivisor { divisor: 12800000000000000000, reciprocal: 8137815841988765842, shift: 7 }
        },
        18 => {
            proof {
                lemma_table_entry(16000000000000000000, 4, 1000000000000000000);
            }
            NormalizedDivisor { divisor: 16000000000000000000, reciprocal: 2820903858849102350, shift: 4 }
        },
        _ => {
            proof {
                lemma_table_entry(10000000000000000000, 0, 10000000000000000000);
            }
            NormalizedDivisor { divisor: 10000000000000000000, reciprocal: 15581492618384294730, shift: 0 }
        },
    }
}

/// The normalized divisors for 10^20 to 10^29, indexed by the power less 20.
pub fn pow10_divisor_128(i: usize) -> (r: NormalizedDivisor128)
    requires
        i < 10,
    ensures
        r.wf(),
        r.shift < 64,
        r.value() == pow10((i + MAX_POW10_U64 + 1) as nat),
        r.divisor == pow10((i + MAX_POW10_U64 + 1) as nat) * pow2(r.shift as nat),
        r.divisor % 2 == 0,
{
    proof {
        lemma_pow10_values();
        lemma2_to64();
        lemma2_to64_rest();
    }
    match i {
        0 => {
            proof {
                lemma_table_entry(230584300921369395200000000000000000000, 61, 100000000000000000000);
            }
            NormalizedDivisor128 { divisor: 230584300921369395200000000000000000000, reciprocal: 8775845279965525461, shift: 61 }
        },
        1 => {
            proof {
                lemma_table_entry(288230376151711744000000000000000000000, 58, 1000000000000000000000);
            }
            NormalizedDivisor128 { divisor: 288230376151711744000000000000000000000, reciprocal: 3331327409230510045, shift: 58 }
        },
        2 => {
            proof {
                lemma_table_entry(180143985094819840000000000000000000000, 54, 10000000000000000000000);
            }
            NormalizedDivisor128 { divisor: 180143985094819840000000000000000000000, reciprocal: 16398170298994547042, shift: 54 }
        },
        3 => {
            proof {
                lemma_table_entry(225179981368524800000000000000000000000, 51, 100000000000000000000000);
            }
            NormalizedDivisor128 { divisor: 225179981368524800000000000000000000000, reciprocal: 9429187424453727310, shift: 51 }
        },
        4 => {
            proof {
                lemma_table_entry(281474976710656000000000000000000000000, 48, 1000000000000000000000000);
            }
            NormalizedDivisor128 { divisor: 281474976710656000000000000000000000000, reciprocal: 3854001124821071525, shift: 48 }
        },
        5 => {
            proof {
                lemma_table_entry(175921860444160000000000000000000000000, 44, 10000000000000000000000000);
            }
            NormalizedDivisor128 { divisor: 175921860444160000000000000000000000000, reciprocal: 17234448243939445410, shift: 44 }
        },
        6 => {
            proof {
                lemma_table_entry(219902325555200000000000000000000000000, 41, 100000000000000000000000000);
            }
            NormalizedDivisor128 { divisor: 219902325555200000000000000000000000000, reciprocal: 10098209780409646005, shift: 41 }
        },
        7 => {
            proof {
                lemma_table_entry(274877906944000000000000000000000000000, 38, 1000000000000000000000000000);
            }
            NormalizedDivisor128 { divisor: 274877906944000000000000000000000000000, reciprocal: 4389219009585806480, shift: 38 }
        },
        8 => {
            proof {
                lemma_table_entry(171798691840000000000000000000000000000, 34, 10000000000000000000000000000);
            }
            NormalizedDivisor128 { divisor: 171798691840000000000000000000000000000, reciprocal: 18090796859563021339, shift: 34 }
        },
        _ => {
            proof {
                lemma_table_entry(214748364800000000000000000000000000000, 31, 100000000000000000000000000000);
            }
            NormalizedDivisor128 { divisor: 214748364800000000000000000000000000000, reciprocal: 10783288672908506748, shift: 31 }
        },
    }
}

} // verus!
