use arbitrary_fixed::ArbitraryFixed;
use arbitrary_fixed::SCALING_FACTOR;

/// A single-precision float as a fixed-point number.
fn fx(f: f32) -> ArbitraryFixed {
    ArbitraryFixed::from_f32_bits(f.to_bits())
}

/// A fixed-point number as a single-precision float: the words of its
/// magnitude summed at their weights, then the sign put back.
fn to_f32(a: ArbitraryFixed) -> f32 {
    let mut res: f32 = 0.0;
    let a_negative = a.is_negative();
    let a = if a_negative { -a } else { a };
    for (ind, r) in a.data.iter().enumerate() {
        let factor = ((32 * ind as isize - SCALING_FACTOR as isize) as f32).exp2();
        if factor.is_finite() {
            res += (*r as f32) * factor;
        }
    }
    if a_negative {
        -res
    } else {
        res
    }
}

/// The number that the digits of pi give: 3 and the first 132 bits of its
/// fraction.
fn pi() -> ArbitraryFixed {
    ArbitraryFixed::gen_pi(
        &[0x243f, 0x6a88, 0x85a3, 0x08d3, 0x1319, 0x8a2e, 0x0370, 0x7344],
        0xa409,
    )
}

/// The number that the binary digits of ln 2 give.
fn ln_2() -> ArbitraryFixed {
    ArbitraryFixed::gen_ln_2(
        &[0xb172, 0x17f7, 0xd1cf, 0x79ab, 0xc9e3, 0xb398, 0x03f2, 0xf6af],
        0x40f3,
    )
}

#[test]
fn test_add() {
    let (fa, fb): (f32, f32) = (3.0, 5.3);
    let (a, b): (ArbitraryFixed, ArbitraryFixed) = (fx(fa), fx(fb));
    assert_eq!(a + b, fx(fa + fb));
}

#[test]
fn test_sub() {
    let (fa, fb): (f32, f32) = (3.0, 5.3);
    let (a, b): (ArbitraryFixed, ArbitraryFixed) = (fx(fa), fx(fb));
    assert_eq!(a - b, fx(fa - fb));
}

#[test]
fn test_mul() {
    let (fa, fb): (f32, f32) = (3.0, 5.3);
    let (a, b): (ArbitraryFixed, ArbitraryFixed) = (fx(fa), fx(fb));
    assert_eq!(a * b, fx(fa * fb));
}

#[test]
fn test_div() {
    let fa: f32 = 3.0;
    let fb: f32 = 5.3;
    let a: ArbitraryFixed = fx(fa);
    let b: ArbitraryFixed = fx(fb);
    assert_eq!(to_f32(a / b), (fa / fb));
}

#[test]
fn test_rem() {
    let fa: f32 = 3.0;
    let fb: f32 = 5.3;
    let a: ArbitraryFixed = fx(fa);
    let b: ArbitraryFixed = fx(fb);
    assert_eq!(to_f32(a % b), (fa % fb));
}

#[test]
fn test_pi() {
    let a = pi();
    assert_eq!(to_f32(a), std::f32::consts::PI);
}

#[test]
fn test_ln_2() {
    let a = ln_2();
    assert_eq!(to_f32(a), 2.0f32.ln());
}

#[test]
fn test_u32_from() {
    let au: u32 = 15178538;
    let a: ArbitraryFixed = au.into();
    assert_eq!(au, to_f32(a) as u32);
}

#[test]
fn test_from_f32() {
    let fa: f32 = 3.141592;
    let a: ArbitraryFixed = fx(fa);
    println!("{}", a.debug_string());
    assert_eq!(to_f32(a), fa);
}

#[test]
fn test_to_u32() {
    let fa: f32 = 316.141592;
    let a: ArbitraryFixed = fx(fa);
    println!("{}", a.debug_string());
    assert_eq!(u32::from(a), fa as u32);
}

#[test]
fn test_lshift1() {
    let fa: f32 = 3.1;
    let a: ArbitraryFixed = fx(fa);
    assert_eq!(a.lshift1(), fx(fa * 2.0));
}

#[test]
fn test_rshift1() {
    let fa: f32 = 3.1;
    let a: ArbitraryFixed = fx(fa);
    assert_eq!(a.rshift1(), fx(fa / 2.0));
}

#[test]
fn test_lshiftword() {
    let fa: f32 = 3.1;
    let a: ArbitraryFixed = fx(fa);
    assert_eq!(a.lshiftword(24), fx((2.0f32).powi(24) * fa));
}

#[test]
fn test_rshiftword() {
    let fa: f32 = 3.1;
    let a: ArbitraryFixed = fx(fa);
    assert_eq!(a.rshiftword(24), fx((2.0f32).powi(-24) * fa));
}

#[test]
fn test_lshift() {
    let fa: f32 = 3.141592;
    let a: ArbitraryFixed = fx(fa);
    assert_eq!(a.lshift(32), fx((2.0f32).powi(32) * fa));
}

#[test]
fn test_rshift() {
    let a: ArbitraryFixed = pi();
    assert_eq!(to_f32(a.rshift(32)), (2.0f32).powi(-32) * to_f32(a));
}
