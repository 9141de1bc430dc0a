use arbitrary_fixed::pow_mod;
use arbitrary_fixed::pow_mod_inner;
use arbitrary_fixed::pow_mod_inner_wide;
use arbitrary_fixed::ArbitraryFixed;
use std::cmp::Ordering;

/// A single-precision float as a fixed-point number.
fn fx(f: f32) -> ArbitraryFixed {
    ArbitraryFixed::from_f32_bits(f.to_bits())
}

/// A whole number as a fixed-point number.
fn w(x: i128) -> ArbitraryFixed {
    ArbitraryFixed::from(x)
}

fn words(data: [u32; 8]) -> ArbitraryFixed {
    ArbitraryFixed { data }
}

fn max_value() -> ArbitraryFixed {
    words([
        0xFFFF_FFFF,
        0xFFFF_FFFF,
        0xFFFF_FFFF,
        0xFFFF_FFFF,
        0xFFFF_FFFF,
        0xFFFF_FFFF,
        0xFFFF_FFFF,
        0x7FFF_FFFF,
    ])
}

fn min_value() -> ArbitraryFixed {
    words([0, 0, 0, 0, 0, 0, 0, 0x8000_0000])
}

/// The smallest positive number, 2^-132.
fn unit() -> ArbitraryFixed {
    words([1, 0, 0, 0, 0, 0, 0, 0])
}

fn all_ones() -> ArbitraryFixed {
    words([0xFFFF_FFFF; 8])
}

#[test]
fn whole_numbers_sit_above_the_binary_point() {
    // 1 is 2^132: bit 4 of word 4.
    assert_eq!(ArbitraryFixed::from(1u32).data, [0, 0, 0, 0, 0x10, 0, 0, 0]);
    assert_eq!(
        ArbitraryFixed::from(0xFFFF_FFFFu32).data,
        [0, 0, 0, 0, 0xFFFF_FFF0, 0xF, 0, 0]
    );
    assert_eq!(ArbitraryFixed::from(5u128), ArbitraryFixed::from(5u32));
    assert_eq!(w(-5), -ArbitraryFixed::from(5u32));
}

#[test]
fn large_u128_values_wrap() {
    // 2^124 scaled by 2^132 is 2^256: every bit falls off the top.
    assert!(ArbitraryFixed::from(1u128 << 124).is_zero());
    // 2^123 lands on the sign bit.
    assert_eq!(ArbitraryFixed::from(1u128 << 123), min_value());
}

#[test]
fn most_negative_i128_is_converted() {
    // -2^127 scaled by 2^132 is a multiple of 2^256.
    assert!(w(i128::MIN).is_zero());
    assert_eq!(w(i128::MAX), -w(i128::MIN + 1));
}

#[test]
fn addition_concrete() {
    assert_eq!(fx(1.5) + fx(2.25), fx(3.75));
    assert_eq!(fx(-1.5) + fx(2.25), fx(0.75));
}

#[test]
fn addition_commutes_and_associates() {
    let (a, b, c) = (fx(3.25), fx(-7.5), fx(1e-3));
    assert_eq!(a + b, b + a);
    assert_eq!((a + b) + c, a + (b + c));
    assert_eq!(max_value() + max_value(), max_value() + max_value());
}

#[test]
fn addition_wraps_around() {
    assert_eq!(max_value() + unit(), min_value());
    assert_eq!(all_ones() + unit(), ArbitraryFixed::zero());
}

#[test]
fn zero_and_negation_laws() {
    let a = fx(-12.375);
    assert_eq!(a + ArbitraryFixed::zero(), a);
    assert_eq!(a + -a, ArbitraryFixed::zero());
    assert_eq!(-(-a), a);
    assert_eq!(-min_value(), min_value());
    assert_eq!(-ArbitraryFixed::zero(), ArbitraryFixed::zero());
}

#[test]
fn subtraction_undoes_addition() {
    let (a, b) = (fx(10.5), max_value());
    assert_eq!((a - b) + b, a);
    assert_eq!((a + b) - b, a);
    assert_eq!(fx(3.0) - fx(5.5), fx(-2.5));
}

#[test]
fn whole_numbers_add_and_multiply_exactly() {
    assert_eq!(w(3) + w(5), w(8));
    assert_eq!(w(3) * w(5), w(15));
    assert_eq!(w(-3) * w(5), w(-15));
    assert_eq!(w(-3) * w(-5), w(15));
    assert_eq!(w(1 << 60) * w(1 << 60), w(1 << 120));
}

#[test]
fn multiplication_concrete() {
    assert_eq!(fx(1.5) * fx(2.5), fx(3.75));
    assert_eq!(fx(-0.5) * fx(0.5), fx(-0.25));
    // The product of two smallest units rounds down to zero.
    assert!((unit() * unit()).is_zero());
}

#[test]
fn multiplication_laws() {
    let (a, b) = (fx(-3.75), fx(1234.5));
    assert_eq!(a * b, b * a);
    assert_eq!(a * w(1), a);
    assert_eq!(a * ArbitraryFixed::zero(), ArbitraryFixed::zero());
    assert_eq!((-a) * b, -(a * b));
    // The most negative number is its own negation.
    assert_eq!((-min_value()) * w(1), min_value() * w(1));
}

#[test]
fn division_concrete() {
    assert_eq!(w(7) / w(2), fx(3.5));
    assert_eq!(w(-7) / w(2), fx(-3.5));
    assert_eq!(w(7) / w(-2), fx(-3.5));
    // The long division runs a fixed number of steps; once every bit of the
    // divisor has been shifted out, each further step sets a quotient bit.
    // With a divisor below 1 in magnitude, those bits reach the result.
    assert_eq!((fx(1.0) / fx(0.25)).data, [3, 0, 0, 0, 0x40, 0, 0, 0]);
}

#[test]
fn division_by_whole_numbers_and_by_one() {
    let a = fx(-1000.125);
    assert_eq!(a / w(1), a);
    assert_eq!(w(100) / w(8), fx(12.5));
    assert_eq!(w(1) / w(3) * w(3) + unit(), w(1));
}

#[test]
fn division_by_zero_sets_every_bit() {
    assert_eq!(fx(3.0) / ArbitraryFixed::zero(), all_ones());
    assert_eq!(ArbitraryFixed::zero() / ArbitraryFixed::zero(), all_ones());
    assert_eq!(fx(-3.0) / ArbitraryFixed::zero(), unit());
}

#[test]
fn remainder_rounds_the_quotient_down() {
    assert_eq!(w(7) % w(2), w(1));
    assert_eq!(w(-7) % w(2), w(1));
    assert_eq!(w(7) % w(-2), w(-1));
    assert_eq!(fx(7.5) % fx(2.0), fx(1.5));
}

#[test]
fn remainder_and_whole_quotient_rebuild_the_dividend() {
    let (a, b) = (fx(-17.25), fx(4.5));
    let q = a / b;
    // the whole part of the quotient, rounded down: clear the fraction bits
    let mut f = q;
    f.data[4] &= 0xFFFF_FFF0;
    for i in 0..4 {
        f.data[i] = 0;
    }
    assert_eq!(f, w(-4));
    assert_eq!(a % b + f * b, a);
}

#[test]
fn assignment_operators() {
    let mut a = w(10);
    a += w(5);
    assert_eq!(a, w(15));
    a -= w(20);
    assert_eq!(a, w(-5));
    a *= w(-3);
    assert_eq!(a, w(15));
    a /= w(2);
    assert_eq!(a, fx(7.5));
    a %= w(2);
    assert_eq!(a, fx(1.5));
}

#[test]
fn ordering() {
    assert_eq!(fx(1.0).partial_cmp(&fx(2.0)), Some(Ordering::Less));
    assert_eq!(fx(2.0).partial_cmp(&fx(1.0)), Some(Ordering::Greater));
    assert_eq!(fx(-2.0).partial_cmp(&fx(-2.0)), Some(Ordering::Equal));
    assert!(fx(-3.0) < fx(0.5));
    // Comparison goes by the sign of the wrapped difference.
    assert_eq!(max_value().partial_cmp(&min_value()), Some(Ordering::Less));
    // Reversed operands give the reversed answer ...
    let (a, b) = (fx(-7.25), fx(1e6));
    assert_eq!(a.partial_cmp(&b), Some(Ordering::Less));
    assert_eq!(b.partial_cmp(&a), Some(Ordering::Greater));
    // ... but for a difference that is its own negation.
    let zero = ArbitraryFixed::zero();
    assert_eq!(min_value().partial_cmp(&zero), Some(Ordering::Less));
    assert_eq!(zero.partial_cmp(&min_value()), Some(Ordering::Less));
}

#[test]
fn predicates() {
    assert!(ArbitraryFixed::zero().is_zero());
    assert!(ArbitraryFixed::default().is_zero());
    assert!(ArbitraryFixed::one().is_one());
    assert!(w(1).is_one());
    assert!(fx(1.0).is_one());
    assert!(!unit().is_one());
    assert!(!fx(-1.0).is_one());
    assert!(!(w(1) + unit()).is_one());
    assert!(!ArbitraryFixed::one().is_zero());
    assert!(fx(-0.001).is_negative());
    assert!(!ArbitraryFixed::zero().is_negative());
    assert!(min_value().is_negative());
    assert!(!max_value().is_negative());
}

#[test]
fn u32_round_trip_and_truncation() {
    for x in [0u32, 1, 316, 15178538, u32::MAX] {
        assert_eq!(u32::from(ArbitraryFixed::from(x)), x);
    }
    assert_eq!(u32::from(fx(316.9)), 316);
    assert_eq!(u32::from(fx(-1.0)), 0xFFFF_FFFF);
}

#[test]
fn float_bits_edge_cases() {
    assert!(ArbitraryFixed::from_f32_bits(0).is_zero());
    assert!(ArbitraryFixed::from_f32_bits(0x8000_0000).is_zero());
    // Exponent 17 places half the significand in word 1.
    assert_eq!(
        ArbitraryFixed::from_f32_bits(17 << 23).data,
        [0, 0x40_0000, 0, 0, 0, 0, 0, 0]
    );
    // Below exponent 17 nothing is kept.
    assert!(ArbitraryFixed::from_f32_bits(16 << 23).is_zero());
    // Exponent 18 puts the significand at bit 0.
    assert_eq!(
        ArbitraryFixed::from_f32_bits(18 << 23).data,
        [0x80_0000, 0, 0, 0, 0, 0, 0, 0]
    );
    assert_eq!(fx(1.0), w(1));
    assert_eq!(fx(-2.0), w(-2));
}

#[test]
fn shifts_scale_by_powers_of_two() {
    let a = fx(3.25);
    assert_eq!(a.lshift1(), fx(6.5));
    assert_eq!(a.rshift1(), fx(1.625));
    assert_eq!(a.lshiftword(5), fx(104.0));
    assert_eq!(a.rshiftword(2), fx(0.8125));
    assert_eq!(a.lshift(40), fx(3.25 * 1099511627776.0));
    assert_eq!(a.lshift(0), a);
    assert_eq!(a.rshift(0), a);
    assert_eq!(a.lshiftword(0), a);
    assert_eq!(a.rshiftword(0), a);
    // the right shift is logical: a negative number loses its sign
    assert_eq!(fx(-1.0).rshift1().data[7], 0x7FFF_FFFF);
    // bits shifted past the top are lost
    assert!(min_value().lshift1().is_zero());
    assert!(w(1).lshift(124).is_zero());
}

#[test]
fn shifts_compose_and_undo() {
    let a = fx(-7.75);
    assert_eq!(a.lshift(3).lshift(5), a.lshift(8));
    assert_eq!(a.lshift1().lshift1(), a.lshift(2));
    let b = fx(1234.5);
    assert_eq!(b.lshift(77).rshift(77), b);
    assert_eq!(b.lshiftword(31).rshiftword(31), b);
    assert_eq!(b.rshift(100), b.rshift(60).rshift(40));
}

#[test]
fn constants_from_digits() {
    assert_eq!(ArbitraryFixed::gen_pi(&[0; 8], 0), w(3));
    assert!(ArbitraryFixed::gen_ln_2(&[0; 8], 0).is_zero());
    // The top bit of the first chunk is one half.
    assert_eq!(
        ArbitraryFixed::gen_ln_2(&[0x8000, 0, 0, 0, 0, 0, 0, 0], 0),
        fx(0.5)
    );
    // Only the top four bits of the last chunk are kept: the smallest unit.
    assert_eq!(
        ArbitraryFixed::gen_ln_2(&[0; 8], 0x1FFF),
        unit()
    );
    assert_eq!(
        ArbitraryFixed::gen_pi(
            &[0x243f, 0x6a88, 0x85a3, 0x08d3, 0x1319, 0x8a2e, 0x0370, 0x7344],
            0xa409
        )
        .data,
        [0x3707_344a, 0x3198_a2e0, 0x5a30_8d31, 0x43f6_a888, 0x32, 0, 0, 0]
    );
}

#[test]
fn modular_powers() {
    assert_eq!(pow_mod(2, 10, 1000), 24);
    assert_eq!(pow_mod(3, 0, 1), 0);
    assert_eq!(pow_mod(5, 0, 7), 1);
    assert_eq!(pow_mod(5, 0, 0), 1);
    assert_eq!(pow_mod(7, 1, 5), 2);
    assert_eq!(pow_mod(200, 3, 7), 1);
    assert_eq!(pow_mod(4, 13, 497), 445);
    assert_eq!(pow_mod(2, 62, 1_000_000_007), 145586002);
    assert_eq!(pow_mod_inner(3, 5, 1000), 243);
    assert_eq!(pow_mod_inner_wide(10, 20, 1 << 70), 100000000000000000000);
}

#[test]
fn text_form_lists_words_in_hex() {
    let a = fx(-3.141592);
    assert_eq!(
        a.debug_string(),
        format!("ArbitraryFixed {{ data: {:08x?} }}", a.data)
    );
    assert_eq!(
        ArbitraryFixed::from(1u32).debug_string(),
        "ArbitraryFixed { data: [00000000, 00000000, 00000000, 00000000, 00000010, 00000000, 00000000, 00000000] }"
    );
    assert_eq!(
        max_value().debug_string(),
        "ArbitraryFixed { data: [ffffffff, ffffffff, ffffffff, ffffffff, ffffffff, ffffffff, ffffffff, 7fffffff] }"
    );
}

#[test]
fn division_is_within_one_unit_above_the_exact_quotient() {
    // 3 / 5.3 rounded down is ...cd3 in the lowest word; the long division
    // gives one unit more.
    assert_eq!(
        (fx(3.0) / fx(5.3)).data,
        [0x41df_1cd4, 0x48d2_e678, 0x88b7_62b2, 0x0e7d_9044, 9, 0, 0, 0]
    );
    // 1000.5 / 7.75 comes out exactly rounded down.
    assert_eq!(
        (fx(1000.5) / fx(7.75)).data,
        [0x18c6_318c, 0xc631_8c63, 0x318c_6318, 0x8c63_18c6, 0x811, 0, 0, 0]
    );
}

#[test]
fn one_is_the_identity_of_multiplication() {
    let one = ArbitraryFixed::one();
    assert_eq!(one, w(1));
    assert_eq!(one.data, [0, 0, 0, 0, 0x10, 0, 0, 0]);
    for a in [fx(-3.75), fx(1234.5), unit(), max_value(), min_value(), ArbitraryFixed::zero()] {
        assert_eq!(a * one, a);
        assert_eq!(one * a, a);
    }
}
