// Concrete cases for the multiplication and its helpers: the laws on given values, the edge
// cases of each path, and exact expected values.

use lib::decimal::{flags, CalculationResult, Decimal};
use lib::digits::{decimal_digits_u128, decimal_digits_u32};
use lib::divisor::{pow10_divisor, pow10_divisor_128, NormalizedDivisor, NormalizedDivisor128};
use lib::mul::{
    div_round_pow10, finish_mul, low64, mul_32_rescale, mul_impl, rescale_product, rescale_u64,
    rounds_up, RESCALE_OVERFLOW,
};

const MAX_MANTISSA: u128 = (1u128 << 96) - 1;

fn dec(mantissa: u128, negative: bool, scale: u32) -> Decimal {
    Decimal::from_parts_raw_unchecked(
        mantissa as u32,
        (mantissa >> 32) as u32,
        (mantissa >> 64) as u32,
        flags(negative, scale),
    )
}

/// (mantissa, negative, scale) of a value, or `None` on overflow.
fn parts(r: CalculationResult) -> Option<(u128, bool, u32)> {
    match r {
        CalculationResult::Value(d) => {
            let m = d.lo() as u128 | (d.mid() as u128) << 32 | (d.hi() as u128) << 64;
            Some((m, d.is_sign_negative(), d.scale()))
        }
        CalculationResult::Overflow => None,
        CalculationResult::DivByZero => panic!("multiplication gave DivByZero"),
    }
}

fn words(r: CalculationResult) -> Option<(u32, u32, u32, u32)> {
    match r {
        CalculationResult::Value(d) => Some((d.lo(), d.mid(), d.hi(), d.flags())),
        CalculationResult::Overflow => None,
        CalculationResult::DivByZero => panic!("multiplication gave DivByZero"),
    }
}

#[test]
fn exact_products_keep_scale_and_sign() {
    // 12.5 * 0.3 = 3.75
    assert_eq!(parts(mul_impl(&dec(125, false, 1), &dec(3, false, 1))), Some((375, false, 2)));
    // -12.5 * 0.3 = -3.75
    assert_eq!(parts(mul_impl(&dec(125, true, 1), &dec(3, false, 1))), Some((375, true, 2)));
    // -12.5 * -0.3 = 3.75
    assert_eq!(parts(mul_impl(&dec(125, true, 1), &dec(3, true, 1))), Some((375, false, 2)));
    // 64 bit operands: (2^64 - 1) * 3 at scale 28
    let m = u64::MAX as u128;
    assert_eq!(parts(mul_impl(&dec(m, false, 14), &dec(3, true, 14))), Some((3 * m, true, 28)));
    // 96 bit operand times one
    assert_eq!(
        parts(mul_impl(&dec(MAX_MANTISSA, true, 7), &dec(1, false, 0))),
        Some((MAX_MANTISSA, true, 7))
    );
}

#[test]
fn multiplication_commutes_on_samples() {
    let values = [
        dec(0, true, 3),
        dec(1, false, 0),
        dec(7, true, 28),
        dec(u32::MAX as u128, false, 20),
        dec(1u128 << 32, true, 9),
        dec(u64::MAX as u128, false, 28),
        dec(MAX_MANTISSA, true, 0),
        dec(MAX_MANTISSA - 12345, false, 28),
        dec(66023468761886947994619958613, true, 1),
        dec(12, false, 1),
    ];
    for a in values.iter() {
        for b in values.iter() {
            assert_eq!(words(mul_impl(a, b)), words(mul_impl(b, a)));
        }
    }
}

#[test]
fn zero_operand_gives_positive_zero_at_scale_zero() {
    let zero = dec(0, true, 17);
    for other in [dec(5, true, 3), dec(MAX_MANTISSA, true, 28), dec(1u128 << 40, false, 2)] {
        assert_eq!(words(mul_impl(&zero, &other)), Some((0, 0, 0, 0)));
        assert_eq!(words(mul_impl(&other, &zero)), Some((0, 0, 0, 0)));
    }
}

#[test]
fn one_is_an_identity() {
    let one = dec(1, false, 0);
    for (m, neg, s) in [(5u128, true, 3u32), (MAX_MANTISSA, false, 28), (1u128 << 70, true, 0)] {
        assert_eq!(parts(mul_impl(&dec(m, neg, s), &one)), Some((m, neg, s)));
    }
}

#[test]
fn flipping_a_sign_flips_the_product() {
    let b = dec(987654321987654321, false, 5);
    let p = parts(mul_impl(&dec(123456789, false, 10), &b)).unwrap();
    let n = parts(mul_impl(&dec(123456789, true, 10), &b)).unwrap();
    assert_eq!((p.0, p.2), (n.0, n.2));
    assert!(!p.1 && n.1);
}

#[test]
fn overflow_when_the_whole_number_does_not_fit() {
    let max = dec(MAX_MANTISSA, false, 0);
    assert_eq!(parts(mul_impl(&max, &max)), None);
    assert_eq!(parts(mul_impl(&max, &dec(2, true, 0))), None);
    // At scale 28 the same product rounds to a whole number far below 2^96.
    let small = dec(MAX_MANTISSA, false, 28);
    assert_eq!(
        parts(mul_impl(&small, &dec(2, false, 0))),
        Some((15845632502852867518708790067, false, 27))
    );
}

#[test]
fn rounding_carry_drops_one_more_digit() {
    // 1.2 * 6602346876188694799461995861.3 = 7922816251426433759354395033.56, which rounds to
    // 2^96 at one decimal place, so one more digit is dropped.
    let a = dec(12, false, 1);
    let b = dec(66023468761886947994619958613, true, 1);
    assert_eq!(parts(mul_impl(&a, &b)), Some((7922816251426433759354395034, true, 0)));
    // At a combined scale of 1 there is no digit left to drop.
    assert_eq!(parts(mul_impl(&dec(12, false, 0), &b)), None);
}

#[test]
fn ties_round_to_even() {
    let tenth = dec(1, false, 1);
    // 32 bit products: 2.5e-28 -> 2e-28, 3.5e-28 -> 4e-28, 1.5e-28 -> 2e-28
    assert_eq!(parts(mul_impl(&dec(25, false, 28), &tenth)), Some((2, false, 28)));
    assert_eq!(parts(mul_impl(&dec(35, false, 28), &tenth)), Some((4, false, 28)));
    assert_eq!(parts(mul_impl(&dec(15, true, 28), &tenth)), Some((2, true, 28)));
    // A 64 bit product with a tie: 42949672985 -> 4294967298
    assert_eq!(
        parts(mul_impl(&dec(42949672985, false, 28), &tenth)),
        Some((4294967298, false, 28))
    );
}

#[test]
fn underflow_to_zero_and_its_sign() {
    let tenth = dec(1, false, 1);
    // A 32 bit product that rounds to zero loses its sign.
    assert_eq!(words(mul_impl(&dec(4, true, 28), &tenth)), Some((0, 0, 0, 28 << 16)));
    // A wider product that rounds to zero keeps it.
    let wide = dec(1u128 << 32, true, 28);
    assert_eq!(
        words(mul_impl(&wide, &dec(1, false, 20))),
        Some((0, 0, 0, 0x8000_0000 | 28 << 16))
    );
    // 32 bit products beyond a combined scale of 47 are zero at scale 0.
    assert_eq!(words(mul_impl(&dec(1, true, 28), &dec(1, false, 20))), Some((0, 0, 0, 0)));
}

#[test]
fn helpers_give_exact_values() {
    assert_eq!(low64(&Decimal::from_parts_raw_unchecked(1, 2, 3, 0)), (2u64 << 32) | 1);
    assert!(rounds_up(6u64, 5, false));
    assert!(rounds_up(5u64, 5, true));
    assert!(!rounds_up(5u64, 5, false));
    assert!(!rounds_up(4u128, 5, true));
    assert_eq!(div_round_pow10(15, 1), 2);
    assert_eq!(div_round_pow10(25, 1), 2);
    assert_eq!(div_round_pow10(26, 1), 3);
    assert_eq!(div_round_pow10(u64::MAX, 19), 2);
    let d = mul_32_rescale(15, true, 29);
    assert_eq!((d.lo(), d.mid(), d.hi(), d.flags()), (2, 0, 0, 0x8000_0000 | 28 << 16));
    let d = mul_32_rescale(15, true, 48);
    assert_eq!((d.lo(), d.mid(), d.hi(), d.flags()), (0, 0, 0, 0));
    let d = rescale_u64(u64::MAX, false, 47);
    assert_eq!((d.lo(), d.mid(), d.hi(), d.flags()), (2, 0, 0, 28 << 16));
    let d = rescale_u64(u64::MAX, true, 48);
    assert_eq!((d.lo(), d.mid(), d.hi(), d.flags()), (0, 0, 0, 0x8000_0000 | 28 << 16));
}

#[test]
fn rescale_product_packs_or_overflows() {
    // 2^96 at scale 1: one digit dropped, rounding up.
    assert_eq!(rescale_product(1u128 << 96, 0, false, 1), 7922816251426433759354395034);
    // The same with a sign at scale 2 keeps scale 1 and the sign in the flags.
    assert_eq!(
        rescale_product(1u128 << 96, 0, true, 2),
        7922816251426433759354395034 | ((0x8000_0000u128 | 1 << 16) << 96)
    );
    assert_eq!(rescale_product(u128::MAX, u64::MAX, false, 0), RESCALE_OVERFLOW);
    assert_eq!(
        parts(finish_mul(1u128 << 96, 0, true, 1)),
        Some((7922816251426433759354395034, true, 0))
    );
    assert_eq!(parts(finish_mul(375, 0, false, 2)), Some((375, false, 2)));
    assert_eq!(parts(finish_mul(u128::MAX, u64::MAX, false, 10)), None);
}

#[test]
fn digit_counts_at_powers_of_ten() {
    assert_eq!(decimal_digits_u32(0), 0);
    assert_eq!(decimal_digits_u128(0), 0);
    assert_eq!(decimal_digits_u32(1), 1);
    assert_eq!(decimal_digits_u32(9), 1);
    assert_eq!(decimal_digits_u32(10), 2);
    assert_eq!(decimal_digits_u32(999_999_999), 9);
    assert_eq!(decimal_digits_u32(1_000_000_000), 10);
    assert_eq!(decimal_digits_u32(u32::MAX), 10);
    assert_eq!(decimal_digits_u128(1), 1);
    assert_eq!(decimal_digits_u128(10u128.pow(38) - 1), 38);
    assert_eq!(decimal_digits_u128(10u128.pow(38)), 39);
    assert_eq!(decimal_digits_u128(u128::MAX), 39);
    assert_eq!(decimal_digits_u128(1u128 << 64), 20);
}

#[test]
fn divisor_tables_match_their_construction() {
    let mut power = 1u64;
    for p in 0..=19usize {
        let built = NormalizedDivisor::new(power);
        let table = pow10_divisor(p);
        assert_eq!(
            (built.divisor, built.reciprocal, built.shift),
            (table.divisor, table.reciprocal, table.shift)
        );
        if p < 19 {
            power *= 10;
        }
    }
    let mut power = 10u128.pow(20);
    for i in 0..10usize {
        let built = NormalizedDivisor128::new(power);
        let table = pow10_divisor_128(i);
        assert_eq!(
            (built.divisor, built.reciprocal, built.shift),
            (table.divisor, table.reciprocal, table.shift)
        );
        power *= 10;
    }
}

#[test]
fn divisors_divide_exact_values() {
    // 2^128 / 10^19
    let d = pow10_divisor(19);
    assert_eq!(d.shift, 0);
    assert_eq!(d.div_rem_to_128([0, 0, 1]), (34028236692093846346, 3374607431768211456));
    // 5 * 2^128 / 10^20, remainder shifted left by 61
    let d = pow10_divisor_128(0);
    assert_eq!(d.shift, 61);
    assert_eq!(
        d.div_rem_to_128([0, 0, 5]),
        (17014118346046923173, 16873037158841057280u128 << 61)
    );
    // 2by1: (2^64 + 7) / (10 << 60)
    let ten = NormalizedDivisor::new(10);
    assert_eq!(ten.divisor, 10 << 60);
    let (q, r) = ten.div_rem_2by1(1, 7);
    assert_eq!(q as u128 * ten.divisor as u128 + r as u128, (1u128 << 64) + 7);
    assert!(r < ten.divisor);
}

#[test]
fn decimal_parts_and_flags() {
    assert_eq!(flags(true, 28), 0x801C_0000);
    assert_eq!(flags(false, 5), 5 << 16);
    let z = Decimal::zero();
    assert_eq!((z.lo(), z.mid(), z.hi(), z.flags()), (0, 0, 0, 0));
    assert!(z.is_zero() && !z.is_sign_negative() && z.scale() == 0);
    assert_eq!(Decimal::from_parts(0, 0, 0, true, 5).flags(), 5 << 16);
    assert_eq!(Decimal::from_parts(1, 0, 0, true, 5).flags(), 0x8005_0000);
    let d = Decimal::from_parts(7, 1, 0, true, 3);
    assert_eq!(d.mantissa(), -((1i128 << 32) + 7));
    assert_eq!(d.scale(), 3);
    assert!(d.is_sign_negative() && !d.is_zero());
    assert_eq!(Decimal::MAX_SCALE, 28);
}
