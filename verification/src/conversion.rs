//! Conversions between fixed-point numbers and integers, and from the bits of
//! a single-precision float.
use crate::fixed::{
    from_raw, lemma_moduli, lemma_pattern, lemma_raw_bound, modulus, one_scaled, wrap,
    ArbitraryFixed, SCALING_FACTOR, SIZE,
};
use crate::shift::{lemma_shl_word_exec, lemma_shl_words, lemma_zero_fill, shl_word};
use crate::words::{base, lemma_base_is_pow2, lemma_val_of_digits, lemma_wpow_succ, val, wpow};
use std::ops::Neg;
use vstd::arithmetic::div_mod::*;
use vstd::arithmetic::mul::*;
use vstd::arithmetic::power2::*;
use vstd::bits::*;
use vstd::prelude::*;

verus! {

/// The number that stands for the whole number `x`: `x` scaled by 2^132,
/// taken modulo 2^256.
pub open spec fn whole(x: int) -> ArbitraryFixed {
    from_raw(x * one_scaled())
}

/// The 32 bits of a pattern just above the binary point.
pub open spec fn whole_bits(a: ArbitraryFixed) -> u32 {
    ((a.raw() / one_scaled()) % base()) as u32
}

/// Dividing a scaled whole number by the weight of a word at or below the
/// binary point's word.
proof fn lemma_scaled_div_low(a: nat, k: nat)
    requires
        k <= 4,
    ensures
        (a * pow2(132)) / wpow(k) == a * pow2((132 - 32 * k) as nat),
{
    let e = (132 - 32 * k) as nat;
    lemma_pow2_adds(e, 32 * k);
    lemma_pow2_pos(32 * k);
    assert(a * pow2(132) == wpow(k) * (a * pow2(e))) by (nonlinear_arith)
        requires
            pow2(132) == pow2(e) * wpow(k),
    ;
    lemma_div_multiples_vanish((a * pow2(e)) as int, wpow(k) as int);
}

/// Dividing a scaled whole number by the weight of a word above the binary
/// point's word.
proof fn lemma_scaled_div_high(a: nat, k: nat)
    requires
        5 <= k,
    ensures
        (a * pow2(132)) / wpow(k) == a / pow2((32 * k - 132) as nat),
{
    let e = (32 * k - 132) as nat;
    lemma_pow2_adds(132, e);
    lemma_pow2_pos(132);
    lemma_pow2_pos(e);
    lemma_div_denominator((a * pow2(132)) as int, pow2(132) as int, pow2(e) as int);
    lemma_mul_is_commutative(a as int, pow2(132) as int);
    lemma_div_multiples_vanish(a as int, pow2(132) as int);
}

/// A whole multiple of a word weight has no low word.
proof fn lemma_low_word_zero(a: nat, k: nat)
    requires
        k <= 3,
    ensures
        (a * pow2((132 - 32 * k) as nat)) % base() == 0,
{
    let e = (100 - 32 * k) as nat;
    lemma_pow2_adds(32, e);
    lemma_base_is_pow2();
    assert(a * pow2((132 - 32 * k) as nat) == (a * pow2(e)) * base()) by (nonlinear_arith)
        requires
            pow2((132 - 32 * k) as nat) == base() * pow2(e),
    ;
    lemma_mod_multiples_basic((a * pow2(e)) as int, base() as int);
}

/// The word at index `ind` of `a` placed above the binary point, as the
/// conversion computes it.
pub open spec fn scaled_word(a: u128, ind: nat) -> u32 {
    let up = 32 * ind;
    if up < 132 {
        let off = (132 - up) as nat;
        if off < 128 {
            (a << (off as u32)) as u32
        } else {
            0
        }
    } else {
        let off = (up - 132) as nat;
        if off < 128 {
            (a >> (off as u32)) as u32
        } else {
            0
        }
    }
}

/// Each computed word is the matching base-2^32 digit of `a * 2^132`.
proof fn lemma_scaled_word(a: u128, ind: nat)
    requires
        ind < 8,
    ensures
        scaled_word(a, ind) as nat == ((a as nat * pow2(132)) / wpow(ind)) % base(),
{
    let n = a as nat;
    lemma_base_is_pow2();
    if ind <= 4 {
        lemma_scaled_div_low(n, ind);
        if ind <= 3 {
            lemma_low_word_zero(n, ind);
            if ind == 1 {
                assert(((a << 100u32) as u32) == 0) by (bit_vector);
            } else if ind == 2 {
                assert(((a << 68u32) as u32) == 0) by (bit_vector);
            } else if ind == 3 {
                assert(((a << 36u32) as u32) == 0) by (bit_vector);
            }
        } else {
            lemma2_to64();
            assert(((a << 4u32) as u32) == ((a * 16) % 0x1_0000_0000) as u32) by (bit_vector);
        }
    } else {
        lemma_scaled_div_high(n, ind);
        let off = (32 * ind - 132) as u32;
        lemma_u128_shr_is_div(a, off as u128);
        if ind == 5 {
            assert(((a >> 28u32) as u32) as u128 == (a >> 28u32) % 0x1_0000_0000) by (bit_vector);
            assert((a >> 28u32) == (a >> 28u128)) by (bit_vector);
        } else if ind == 6 {
            assert(((a >> 60u32) as u32) as u128 == (a >> 60u32) % 0x1_0000_0000) by (bit_vector);
            assert((a >> 60u32) == (a >> 60u128)) by (bit_vector);
        } else {
            assert(((a >> 92u32) as u32) as u128 == (a >> 92u32) % 0x1_0000_0000) by (bit_vector);
            assert((a >> 92u32) == (a >> 92u128)) by (bit_vector);
        }
    }
}

impl From<u128> for ArbitraryFixed {
    /// The whole number `a`, its bits above 2^124 dropped.
    fn from(a: u128) -> (ret: ArbitraryFixed)
        ensures
            ret.raw() == (a * one_scaled()) % (modulus() as int),
            ret@ == wrap(a * one_scaled()),
    {
        let mut ret = ArbitraryFixed { data: [0u32; SIZE] };
        let mut ind: usize = 0;
        while ind < SIZE
            invariant
                ind <= SIZE,
                forall|k: int| 0 <= k < ind ==> ret.data[k] == #[trigger] scaled_word(a, k as nat),
            decreases SIZE - ind,
        {
            let up = 32 * ind;
            let w: u32 = if up < SCALING_FACTOR {
                let off = SCALING_FACTOR - up;
                if off < 128 {
                    (a << (off as u32)) as u32
                } else {
                    0
                }
            } else {
                let off = up - SCALING_FACTOR;
                if off < 128 {
                    (a >> (off as u32)) as u32
                } else {
                    0
                }
            };
            ret.data[ind] = w;
            ind = ind + 1;
        }
        proof {
            assert forall|k: int| 0 <= k < 8 implies ret.data@[k] as nat == #[trigger] (((a as nat
                * pow2(132)) / wpow(k as nat)) % base()) by {
                assert(ret.data[k] == scaled_word(a, k as nat));
                lemma_scaled_word(a, k as nat);
            }
            lemma_val_of_digits(ret.data@, a as nat * pow2(132));
            lemma_moduli();
            lemma_pattern(ret, a * one_scaled());
        }
        ret
    }
}

impl vstd::std_specs::convert::FromSpecImpl<u128> for ArbitraryFixed {
    open spec fn obeys_from_spec() -> bool {
        true
    }

    /// The whole number `a`, scaled.
    open spec fn from_spec(a: u128) -> ArbitraryFixed {
        whole(a as int)
    }
}

impl From<u32> for ArbitraryFixed {
    /// The whole number `a`.
    fn from(a: u32) -> (ret: ArbitraryFixed)
        ensures
            ret.raw() == a * one_scaled(),
            ret@ == a * one_scaled(),
    {
        let mut ret = ArbitraryFixed { data: [0u32; SIZE] };
        ret.data[SCALING_FACTOR / 32] = a << ((SCALING_FACTOR % 32) as u32);
        if (SCALING_FACTOR % 32) != 0 {
            ret.data[SCALING_FACTOR / 32 + 1] = a >> ((32 - SCALING_FACTOR % 32) as u32);
        }
        proof {
            let w = a as u128;
            assert((a << 4u32) == ((w << 4u32) as u32)) by (bit_vector)
                requires
                    w == a as u128,
            ;
            assert((a >> 28u32) == ((w >> 28u32) as u32)) by (bit_vector)
                requires
                    w == a as u128,
            ;
            assert(0u32 == ((w >> 60u32) as u32)) by (bit_vector)
                requires
                    w == a as u128,
            ;
            assert(0u32 == ((w >> 92u32) as u32)) by (bit_vector)
                requires
                    w == a as u128,
            ;
            assert(0u32 == ((w << 100u32) as u32)) by (bit_vector);
            assert(0u32 == ((w << 68u32) as u32)) by (bit_vector);
            assert(0u32 == ((w << 36u32) as u32)) by (bit_vector);
            assert forall|k: int| 0 <= k < 8 implies ret.data@[k] as nat == #[trigger] (((a as nat
                * pow2(132)) / wpow(k as nat)) % base()) by {
                assert(ret.data[k] == scaled_word(w, k as nat));
                lemma_scaled_word(w, k as nat);
            }
            lemma_val_of_digits(ret.data@, a as nat * pow2(132));
            lemma_moduli();
            lemma_pow2_adds(132, 32);
            lemma_pow2_strictly_increases(164, 255);
            lemma_pow2_strictly_increases(255, 256);
            lemma_base_is_pow2();
            let p = pow2(132);
            assert(a as nat * p < pow2(164)) by (nonlinear_arith)
                requires
                    pow2(164) == p * base(),
                    a < base(),
                    p > 0,
            ;
            lemma_small_mod(a as nat * pow2(132), modulus());
            lemma_pattern(ret, a * one_scaled());
        }
        ret
    }
}

impl vstd::std_specs::convert::FromSpecImpl<u32> for ArbitraryFixed {
    open spec fn obeys_from_spec() -> bool {
        true
    }

    /// The whole number `a`, scaled.
    open spec fn from_spec(a: u32) -> ArbitraryFixed {
        whole(a as int)
    }
}

impl From<i128> for ArbitraryFixed {
    /// The whole number `a`, its magnitude's bits above 2^124 dropped.
    fn from(a: i128) -> (ret: ArbitraryFixed)
        ensures
            ret.raw() == (a * one_scaled()) % (modulus() as int),
            ret@ == wrap(a * one_scaled()),
    {
        let normalised: u128 = if a < 0 {
            ((-(a + 1)) as u128) + 1
        } else {
            a as u128
        };
        let m = ArbitraryFixed::from(normalised);
        let ret = if a < 0 {
            m.neg()
        } else {
            m
        };
        proof {
            lemma_moduli();
            let s = one_scaled() as int;
            if a < 0 {
                assert(normalised == -a);
                lemma_sub_mod_noop(0, normalised * s, modulus() as int);
                lemma_mod_twice(normalised * s, modulus() as int);
                lemma_small_mod(0, modulus());
                lemma_raw_bound(m);
                lemma_sub_mod_noop(0, m.raw() as int, modulus() as int);
                assert(a * s == 0 - normalised * s) by (nonlinear_arith)
                    requires
                        normalised == -a,
                ;
            }
            lemma_pattern(ret, a * one_scaled());
        }
        ret
    }
}

impl vstd::std_specs::convert::FromSpecImpl<i128> for ArbitraryFixed {
    open spec fn obeys_from_spec() -> bool {
        true
    }

    /// The whole number `a`, scaled.
    open spec fn from_spec(a: i128) -> ArbitraryFixed {
        whole(a as int)
    }
}

impl From<ArbitraryFixed> for u32 {
    /// The 32 bits just above the binary point: the whole part modulo 2^32
    /// of a number that is not negative.
    fn from(a: ArbitraryFixed) -> (r: u32)
        ensures
            r as nat == (a.raw() / one_scaled()) % base(),
    {
        let s = a.rshift(SCALING_FACTOR);
        proof {
            crate::words::lemma_val_digit(s.data@, 0);
            lemma_wpow_succ(0);
            assert(s.raw() / 1 == s.raw());
        }
        s.data[0]
    }
}

impl vstd::std_specs::convert::FromSpecImpl<ArbitraryFixed> for u32 {
    open spec fn obeys_from_spec() -> bool {
        true
    }

    /// The 32 bits just above the binary point.
    open spec fn from_spec(a: ArbitraryFixed) -> u32 {
        whole_bits(a)
    }
}

/// The biased exponent field of single-precision float bits.
pub open spec fn f32_exponent(bits: u32) -> nat {
    ((bits as nat) / 0x80_0000) % 256
}

/// The significand of single-precision float bits with its leading one.
pub open spec fn f32_significand(bits: u32) -> nat {
    (bits as nat) % 0x80_0000 + 0x80_0000
}

/// Whether the sign bit of single-precision float bits is set.
pub open spec fn f32_sign(bits: u32) -> bool {
    bits >= 0x8000_0000
}

/// The pattern magnitude that the conversion gives for float bits: the
/// significand placed at bit `exponent - 18` (the float's value scaled by
/// 2^132); one bit below that, the significand halved is placed one word up;
/// below that, nothing.
pub open spec fn f32_magnitude(bits: u32) -> nat {
    let e = f32_exponent(bits);
    let m = f32_significand(bits);
    if e >= 18 {
        m * pow2((e - 18) as nat)
    } else if e == 17 {
        (m / 2) * base()
    } else {
        0
    }
}

/// The scaled value that the conversion gives for float bits.
pub open spec fn f32_scaled(bits: u32) -> int {
    if f32_sign(bits) {
        -(f32_magnitude(bits) as int)
    } else {
        f32_magnitude(bits) as int
    }
}

/// Placing a word `m` at bit `n` of a zero pattern by its two halves.
proof fn lemma_place_word(m: u32, n: nat, r: Seq<u32>)
    requires
        n < 256,
        r.len() == 8,
        forall|i: int|
            0 <= i < 8 && i != n / 32 && (n % 32 == 0 || i != n / 32 + 1) ==> r[i] == 0,
        r[(n / 32) as int] == m << ((n % 32) as u32),
        n % 32 != 0 && n / 32 + 1 < 8 ==> r[(n / 32 + 1) as int] == m >> ((32 - n % 32) as u32),
    ensures
        val(r) == (m as nat * pow2(n)) % modulus(),
{
    let d = seq![m];
    let q = n / 32;
    let s = (n % 32) as u32;
    assert forall|i: int| 0 <= i < r.len() implies r[i] as nat == #[trigger] shl_word(d, i, n) by {
        lemma_zero_fill(m, s);
        lemma_zero_fill(0, s);
        if i == q {
            lemma_shl_word_exec(d, i, n, m, 0, s, r[i]);
        } else if i == q + 1 && s != 0 {
            assert((0u32 << s) | (m >> ((32 - s) as u32)) == m >> ((32 - s) as u32)) by (bit_vector);
            lemma_shl_word_exec(d, i, n, 0, m, s, r[i]);
        } else {
            let lo: u32 = if i == q + 1 {
                m
            } else {
                0
            };
            lemma_shl_word_exec(d, i, n, 0, lo, s, 0);
        }
    }
    lemma_shl_words(d, n, r);
    assert(d.drop_first() =~= Seq::<u32>::empty());
    assert(val(Seq::<u32>::empty()) == 0);
    lemma_moduli();
}

impl ArbitraryFixed {
    /// The number that the single-precision float whose bits are `bits`
    /// gives: its significand placed at its exponent, with the float's sign.
    /// From biased exponent 18 on this is the float's value exactly; at 17
    /// the halved significand lands one word up, about 2^32 times too large;
    /// below 17 nothing is kept (see `f32_magnitude`).
    pub fn from_f32_bits(bits: u32) -> (ret: ArbitraryFixed)
        requires
            f32_exponent(bits) <= 242,
        ensures
            ret.raw() == f32_scaled(bits) % (modulus() as int),
            ret@ == wrap(f32_scaled(bits)),
    {
        proof {
            assert(((bits & 0x8000_0000u32) > 0) == (bits >= 0x8000_0000u32)) by (bit_vector);
            assert((bits & 0x7f80_0000u32) >> 23u32 == (bits / 0x80_0000) % 256) by (bit_vector);
            assert((bits & 0x007f_ffffu32) == bits % 0x80_0000) by (bit_vector);
            assert(1u32 << 23u32 == 0x80_0000) by (bit_vector);
        }
        let sign = (bits & 0x8000_0000u32) > 0;
        let exponent = (bits & 0x7f80_0000u32) >> 23u32;
        let mantissa_complete = (bits & 0x007f_ffffu32) + (1u32 << 23u32);
        assert(mantissa_complete < 0x100_0000);
        let mut ret = ArbitraryFixed { data: [0u32; SIZE] };
        if exponent >= 18 {
            let offset = (exponent - 18) as usize;
            ret.data[offset / 32] = mantissa_complete << ((offset % 32) as u32);
            if offset % 32 != 0 {
                ret.data[offset / 32 + 1] = mantissa_complete >> ((32 - offset % 32) as u32);
            }
            proof {
                lemma_place_word(mantissa_complete, offset as nat, ret.data@);
                // the significand fits well below 2^256 at this offset
                lemma_pow2_adds(24, offset as nat);
                lemma_pow2_strictly_increases((24 + offset) as nat, 256);
                lemma2_to64();
                lemma_pow2_pos(offset as nat);
                let p = pow2(offset as nat);
                assert(mantissa_complete as nat * p < pow2((24 + offset) as nat))
                    by (nonlinear_arith)
                    requires
                        pow2((24 + offset) as nat) == pow2(24) * p,
                        mantissa_complete < pow2(24),
                        p > 0,
                ;
                lemma_pow2_pos(offset as nat);
                lemma_moduli();
                lemma_small_mod(mantissa_complete as nat * p, modulus());
            }
        } else if exponent == 17 {
            ret.data[1] = mantissa_complete >> 1u32;
            proof {
                let h = mantissa_complete >> 1u32;
                lemma_zero_fill(h, 0);
                lemma_place_word(h, 32, ret.data@);
                lemma_u32_shr_is_div(mantissa_complete, 1);
                lemma2_to64();
                lemma_base_is_pow2();
                lemma_moduli();
                lemma_pow2_strictly_increases(56, 256);
                lemma_pow2_adds(24, 32);
                assert(h as nat * pow2(32) < pow2(56)) by (nonlinear_arith)
                    requires
                        pow2(56) == pow2(24) * pow2(32),
                        h < pow2(24),
                        pow2(32) > 0,
                ;
                lemma_small_mod(h as nat * pow2(32), modulus());
            }
        } else {
            proof {
                assert(ret.data@ =~= crate::words::zeros(8));
                crate::words::lemma_val_zeros(8);
            }
        }
        let mag = ret;
        let ret = match sign {
            true => mag.neg(),
            false => mag,
        };
        proof {
            lemma_moduli();
            assert(mag.raw() == f32_magnitude(bits));
            if sign {
                assert(ret.raw() == (0 - f32_magnitude(bits)) % (modulus() as int));
            } else {
                lemma_raw_bound(mag);
                lemma_small_mod(mag.raw(), modulus());
            }
            lemma_pattern(ret, f32_scaled(bits));
        }
        ret
    }
}

/// What the conversion of float bits makes of the float's value, stated on
/// the bits themselves: raising the exponent field by one doubles the
/// number, setting the sign bit negates it, and at biased exponent 150,
/// where a float is the integer `2^23 + fraction field`, the number is that
/// integer.
pub proof fn law_float_bits(bits: u32)
    ensures
        18 <= (bits as nat / 0x80_0000) % 256 <= 241 ==> f32_scaled((bits + 0x80_0000) as u32)
            == 2 * f32_scaled(bits),
        bits < 0x8000_0000 ==> f32_scaled((bits + 0x8000_0000) as u32) == -f32_scaled(bits),
        (bits as nat / 0x80_0000) == 150 ==> f32_scaled(bits) == (0x80_0000 + bits as nat
            % 0x80_0000) * one_scaled(),
{
    let b = bits as int;
    let e = (b / 0x80_0000) % 256;
    lemma_div_pos_is_pos(b, 0x80_0000);
    if 18 <= e <= 241 {
        let b2 = b + 0x80_0000;
        assert(b2 < 0x1_0000_0000) by {
            lemma_fundamental_div_mod(b / 0x80_0000, 256);
            lemma_fundamental_div_mod(b, 0x80_0000);
            lemma_mod_bound(b, 0x80_0000);
            assert(b / 0x80_0000 < 512) by {
                lemma_div_is_ordered(b, 0xFFFF_FFFF, 0x80_0000);
            }
        }
        let n = b2 as u32;
        assert(n as int == b2);
        lemma_div_plus_one(b, 0x80_0000);
        assert(b2 / 0x80_0000 == b / 0x80_0000 + 1);
        lemma_fundamental_div_mod(b / 0x80_0000, 256);
        let h = (b / 0x80_0000) / 256;
        lemma_mod_bound(b / 0x80_0000, 256);
        assert(b2 / 0x80_0000 == 256 * h + (e + 1));
        lemma_fundamental_div_mod_converse(b2 / 0x80_0000, 256, h, e + 1);
        lemma_mod_add_multiples_vanish(b, 0x80_0000);
        assert(f32_exponent(n) == e + 1);
        assert(f32_significand(n) == f32_significand(bits));
        assert(f32_sign(n) == f32_sign(bits)) by {
            lemma_fundamental_div_mod(b, 0x80_0000);
            lemma_mod_bound(b, 0x80_0000);
            let r = b % 0x80_0000;
            let q = b / 0x80_0000;
            assert(q < 512) by {
                lemma_div_is_ordered(b, 0xFFFF_FFFF, 0x80_0000);
            }
            assert(h == 0 || h == 1);
            assert((b >= 0x8000_0000) == (h == 1) && (b2 >= 0x8000_0000) == (h == 1))
                by (nonlinear_arith)
                requires
                    b == 0x80_0000 * q + r,
                    0 <= r < 0x80_0000,
                    q == 256 * h + e,
                    18 <= e <= 241,
                    h == 0 || h == 1,
                    b2 == b + 0x80_0000,
            ;
        }
        lemma_pow2_unfold((e + 1 - 18) as nat);
        let m = f32_significand(bits);
        assert(m * pow2((e + 1 - 18) as nat) == 2 * (m * pow2((e - 18) as nat))) by (nonlinear_arith)
            requires
                pow2((e + 1 - 18) as nat) == 2 * pow2((e - 18) as nat),
        ;
    }
    if bits < 0x8000_0000 {
        let n = (b + 0x8000_0000) as u32;
        assert(n as int == b + 0x8000_0000);
        lemma_mod_add_multiples_vanish(b, 0x80_0000);
        assert(0x8000_0000 + b == 0x80_0000 * 256 + b);
        lemma_div_multiples_vanish_fancy(256, 0, 0x80_0000);
        lemma_hoist_over_denominator(b, 256, 0x80_0000);
        assert((b + 0x8000_0000) / 0x80_0000 == b / 0x80_0000 + 256);
        lemma_mod_add_multiples_vanish(b / 0x80_0000, 256);
        assert(f32_exponent(n) == f32_exponent(bits));
        assert(f32_significand(n) == f32_significand(bits)) by {
            lemma_mod_multiples_vanish(256, b, 0x80_0000);
        }
    }
    if b / 0x80_0000 == 150 {
        lemma_small_mod(150, 256);
        assert(f32_exponent(bits) == 150);
        assert(pow2(132) == one_scaled());
        assert(!f32_sign(bits));
    }
}

} // verus!
