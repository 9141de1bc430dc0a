//! Division by restoring long division, and the remainder built on it.
use crate::basic_ops::{
    mul_value, lemma_add_step, lemma_magnitude_pattern, lemma_neg_chain_step, lemma_neg_step,
    lemma_sum_chain_step, magnitude,
};
use crate::fixed::{
    from_raw, half, lemma_moduli, lemma_pattern, lemma_raw_bound, lemma_view_raw, lemma_wrap_view, modulus, one_scaled, wrap, ArbitraryFixed,
    SCALING_FACTOR, SIZE,
};
use crate::shift::{lemma_val_prepend, lemma_shl_word_exec, lemma_shl_words, lemma_shr_word_exec, lemma_shr_words, lemma_zero_fill, shl_word};
use crate::words::{
    base, lemma_extract, lemma_val_digit, lemma_val_split, lemma_val_zeros, lemma_window_word,
    zeros, lemma_val_bound, lemma_val_take_full, lemma_val_take_step, lemma_wpow_succ, val,
    window, wpow,
};
use vstd::arithmetic::div_mod::*;
use vstd::arithmetic::mul::*;
use vstd::arithmetic::power2::*;
use std::ops::{Div, Mul, Neg, Rem, Sub};
use vstd::prelude::*;

verus! {

/// The 512-bit pattern shifted left by one bit.
fn shl1_wide(x: &[u32; 16]) -> (r: [u32; 16])
    ensures
        val(r@) == (val(x@) * 2) % wpow(16),
{
    let ghost d = x@;
    let mut ret = [0u32; 16];
    ret[0] = x[0] << 1u32;
    proof {
        lemma_zero_fill(x[0], 1);
        lemma_shl_word_exec(d, 0, 1, x[0], 0, 1, ret[0]);
    }
    let mut i: usize = 1;
    while i < 16
        invariant
            d == x@,
            1 <= i <= 16,
            forall|k: int| 0 <= k < i ==> ret[k] as nat == #[trigger] shl_word(d, k, 1),
        decreases 16 - i,
    {
        let hi = x[i];
        let lo = x[i - 1];
        let v = (hi << 1u32) | (lo >> 31u32);
        ret[i] = v;
        proof {
            lemma_shl_word_exec(d, i as int, 1, hi, lo, 1, v);
        }
        i = i + 1;
    }
    proof {
        lemma_shl_words(d, 1, ret@);
        lemma2_to64();
    }
    ret
}

/// The 512-bit pattern shifted right by one bit.
fn shr1_wide(x: &[u32; 16]) -> (r: [u32; 16])
    ensures
        val(r@) == val(x@) / 2,
{
    let ghost d = x@;
    let mut ret = [0u32; 16];
    ret[15] = x[15] >> 1u32;
    proof {
        lemma_zero_fill(x[15], 1);
        lemma_shr_word_exec(d, 15, 1, 0, x[15], ret[15]);
    }
    let mut i: usize = 15;
    while i > 0
        invariant
            d == x@,
            i <= 15,
            forall|k: int| i <= k < 16 ==> ret[k] as nat == #[trigger] window(d, 0 + k, 1),
        decreases i,
    {
        i = i - 1;
        let hi = x[i + 1];
        let lo = x[i];
        let v = (hi << 31u32) | (lo >> 1u32);
        ret[i] = v;
        proof {
            lemma_shr_word_exec(d, 0 + i, 1, hi, lo, v);
        }
    }
    proof {
        lemma_shr_words(d, 1, ret@);
        lemma2_to64();
    }
    ret
}

/// The 512-bit difference modulo 2^512: the subtrahend negated, then added.
fn sub_wide(x: &[u32; 16], y: &[u32; 16]) -> (r: [u32; 16])
    ensures
        val(r@) == (val(x@) - val(y@)) % (wpow(16) as int),
{
    let mut d_sub = [0u32; 16];
    let mut carry_prev = true;
    let mut i: usize = 0;
    while i < 16
        invariant
            i <= 16,
            val(d_sub@.take(i as int)) + (if carry_prev {
                wpow(i as nat)
            } else {
                0
            }) == wpow(i as nat) - val(y@.take(i as int)),
        decreases 16 - i,
    {
        let a = y[i];
        let r = (!a).wrapping_add(if carry_prev {
            1u32
        } else {
            0u32
        });
        let ghost prev = d_sub@;
        let ghost cin = carry_prev;
        d_sub[i] = r;
        carry_prev = carry_prev && (r == 0);
        proof {
            lemma_neg_step(a, cin, r, carry_prev);
            assert(d_sub@.take(i as int) =~= prev.take(i as int));
            lemma_val_take_step(d_sub@, i as nat);
            lemma_val_take_step(y@, i as nat);
            lemma_wpow_succ(i as nat);
            let w = wpow(i as nat) as int;
            let ci: int = if cin {
                1
            } else {
                0
            };
            let co: int = if carry_prev {
                1
            } else {
                0
            };
            lemma_neg_chain_step(
                val(prev.take(i as int)) as int,
                val(y@.take(i as int)) as int,
                a as int,
                ci,
                r as int,
                co,
                w,
            );
            assert(co * (w * base()) == (if carry_prev {
                wpow((i + 1) as nat)
            } else {
                0
            }));
        }
        i = i + 1;
    }
    let ghost c1: int = if carry_prev {
        1
    } else {
        0
    };
    proof {
        lemma_val_take_full(d_sub@);
        lemma_val_take_full(y@);
    }
    let mut ret = [0u32; 16];
    let mut carry_prev = false;
    let mut i: usize = 0;
    while i < 16
        invariant
            i <= 16,
            val(ret@.take(i as int)) + (if carry_prev {
                wpow(i as nat)
            } else {
                0
            }) == val(x@.take(i as int)) + val(d_sub@.take(i as int)),
        decreases 16 - i,
    {
        let a = x[i];
        let b = d_sub[i];
        let r0 = a.wrapping_add(b);
        let carry = r0 < a;
        let r = r0.wrapping_add(if carry_prev {
            1u32
        } else {
            0u32
        });
        let ghost prev = ret@;
        let ghost cin = carry_prev;
        ret[i] = r;
        carry_prev = carry || (carry_prev && (r == 0));
        proof {
            lemma_add_step(a, b, cin, r0, r, carry_prev);
            assert(ret@.take(i as int) =~= prev.take(i as int));
            lemma_val_take_step(ret@, i as nat);
            lemma_val_take_step(x@, i as nat);
            lemma_val_take_step(d_sub@, i as nat);
            lemma_wpow_succ(i as nat);
            let w = wpow(i as nat) as int;
            let ci: int = if cin {
                1
            } else {
                0
            };
            let co: int = if carry_prev {
                1
            } else {
                0
            };
            lemma_sum_chain_step(
                val(prev.take(i as int)) as int,
                val(x@.take(i as int)) as int,
                val(d_sub@.take(i as int)) as int,
                a as int,
                b as int,
                ci,
                r as int,
                co,
                w,
            );
            assert(co * (w * base()) == (if carry_prev {
                wpow((i + 1) as nat)
            } else {
                0
            }));
        }
        i = i + 1;
    }
    proof {
        lemma_val_take_full(ret@);
        lemma_val_take_full(x@);
        lemma_val_bound(ret@);
        let c2: int = if carry_prev {
            1
        } else {
            0
        };
        let m = wpow(16) as int;
        lemma_wpow_succ(16);
        // ret + c2*m == x + (m - y - c1*m)
        assert(val(ret@) + c2 * m == val(x@) + m - val(y@) - c1 * m);
        assert(val(x@) - val(y@) == (c2 + c1 - 1) * m + val(ret@)) by (nonlinear_arith)
            requires
                val(ret@) + c2 * m == val(x@) + m - val(y@) - c1 * m,
        ;
        lemma_fundamental_div_mod_converse(
            val(x@) - val(y@),
            m,
            c2 + c1 - 1,
            val(ret@) as int,
        );
    }
    ret
}

/// The divisor that step `k` of the long division compares with: the
/// magnitude `b` placed 256 bits up, then halved `k` times (rounding down).
pub open spec fn div_divisor(b: nat, k: nat) -> nat {
    (b * pow2(256)) / pow2(k)
}

/// The state of restoring long division of `a` by `b` after `k` steps: the
/// quotient bits so far (modulo 2^512) and the remainder.  Each step doubles
/// the quotient and, where the remainder reaches the current divisor,
/// subtracts it and sets the new low bit.
pub open spec fn restoring(a: nat, b: nat, k: nat) -> (nat, nat)
    decreases k,
{
    if k == 0 {
        (0, a)
    } else {
        let prev = restoring(a, b, (k - 1) as nat);
        let d = div_divisor(b, (k - 1) as nat);
        if prev.1 >= d {
            ((2 * prev.0) % pow2(512) + 1, (prev.1 - d) as nat)
        } else {
            ((2 * prev.0) % pow2(512), prev.1)
        }
    }
}

/// Number of steps of the long division: one per bit of a 512-bit quotient,
/// and one more.
pub open spec fn div_steps() -> nat {
    513
}

/// The magnitude of a quotient: the quotient bits above 2^124, cut to 256
/// bits.
pub open spec fn div_magnitude(a: nat, b: nat) -> nat {
    (restoring(a, b, div_steps()).0 / pow2(124)) % modulus()
}

/// The scaled quotient of two scaled values, with the sign of their product.
pub open spec fn div_value(x: int, y: int) -> int {
    let m = div_magnitude(magnitude(x), magnitude(y));
    if (x < 0) != (y < 0) {
        -(m as int)
    } else {
        m as int
    }
}

/// The remainder never grows.
pub proof fn lemma_restoring_rem_bound(a: nat, b: nat, k: nat)
    ensures
        restoring(a, b, k).1 <= a,
        restoring(a, b, k).0 < pow2(512),
    decreases k,
{
    lemma_pow2_pos(512);
    if k > 0 {
        lemma_restoring_rem_bound(a, b, (k - 1) as nat);
        let p = restoring(a, b, (k - 1) as nat).0;
        lemma_mod_bound((2 * p) as int, pow2(512) as int);
        lemma_pow2_unfold(512);
        lemma_mod_multiples_basic(pow2(511) as int, 2);
        lemma_mod_multiples_basic(p as int, 2);
        lemma_even_mod(2 * p, pow2(512));
    }
}

/// An even number stays even modulo an even modulus.
proof fn lemma_even_mod(x: nat, m: nat)
    requires
        m > 0,
        m % 2 == 0,
        x % 2 == 0,
    ensures
        (x % m) % 2 == 0,
        x % m + 1 < m,
{
    lemma_fundamental_div_mod(x as int, m as int);
    lemma_fundamental_div_mod(x as int, 2);
    lemma_fundamental_div_mod(m as int, 2);
    let q = x / m;
    let r = x % m;
    let g = x / 2;
    let h = m / 2;
    assert(r == 2 * (g - h * q)) by (nonlinear_arith)
        requires
            x == m * q + r,
            m == 2 * h,
            x == 2 * g,
    ;
    lemma_mod_multiples_basic(g - h * q, 2);
    lemma_mul_is_commutative(g - h * q, 2);
    lemma_mod_bound(x as int, m as int);
}

/// The top bit of a 512-bit pattern.
proof fn lemma_top_bit_wide(s: Seq<u32>)
    requires
        s.len() == 16,
    ensures
        (s[15] & 0x8000_0000u32) == 0 <==> val(s) < wpow(15) * 0x8000_0000,
{
    crate::words::lemma_val_split(s, 15);
    lemma_val_bound(s.take(15));
    let h = s.skip(15);
    assert(h.drop_first() =~= Seq::<u32>::empty());
    assert(val(h.drop_first()) == 0);
    assert(val(h) == s[15] as nat);
    let w = wpow(15);
    let top = s[15];
    if top >= 0x8000_0000u32 {
        lemma_mul_inequality(0x8000_0000, top as int, w as int);
        lemma_mul_is_commutative(w as int, top as int);
    } else {
        lemma_mul_inequality(top as int + 1, 0x8000_0000, w as int);
        lemma_mul_is_commutative(w as int, top as int);
        lemma_mul_is_distributive_add(w as int, top as int, 1);
    }
    assert((top & 0x8000_0000u32) == 0 <==> top < 0x8000_0000u32) by (bit_vector);
}

/// Comparing a remainder with a divisor by the top bit of their 512-bit
/// difference.
proof fn lemma_compare(r: nat, d: nat)
    requires
        r <= pow2(255),
        d <= pow2(511),
    ensures
        ((r - d) % (pow2(512) as int) < pow2(511)) == (r >= d),
        r >= d ==> (r - d) % (pow2(512) as int) == r - d,
{
    lemma_pow2_unfold(512);
    lemma_pow2_strictly_increases(255, 511);
    let m = pow2(512) as int;
    if r >= d {
        lemma_small_mod((r - d) as nat, m as nat);
    } else {
        lemma_mod_add_multiples_vanish(r - d, m);
        lemma_small_mod((r - d + m) as nat, m as nat);
    }
}

/// Halving the divisor is the next step's divisor, and it never exceeds the
/// first one.
proof fn lemma_divisor_step(b: nat, k: nat)
    ensures
        div_divisor(b, k + 1) == div_divisor(b, k) / 2,
        div_divisor(b, k) <= b * pow2(256),
{
    lemma_pow2_pos(k);
    lemma_pow2_adds(k, 1);
    lemma2_to64();
    lemma_div_denominator((b * pow2(256)) as int, pow2(k) as int, 2);
    lemma_div_is_ordered_by_denominator((b * pow2(256)) as int, 1, pow2(k) as int);
}

/// Setting the low bit of an even word adds one.
proof fn lemma_set_low_bit(w: u32)
    requires
        w % 2 == 0,
    ensures
        (w | 1u32) == w + 1,
{
    assert((w | 1u32) == w + 1) by (bit_vector)
        requires
            w % 2 == 0,
    ;
}

/// The two halves of an extracted word may be combined in either order.
proof fn lemma_or_commutes(x: u32, y: u32)
    ensures
        (x | y) == (y | x),
{
    assert((x | y) == (y | x)) by (bit_vector);
}

/// The sign of a quotient: the magnitude divided, then the sign put back.
proof fn lemma_div_sign(x: int, y: int, flip: bool, m: nat, r: nat)
    requires
        flip == ((x < 0) != (y < 0)),
        m == div_magnitude(magnitude(x), magnitude(y)),
        flip ==> r == (0 - m) % (modulus() as int),
        !flip ==> r == m,
    ensures
        r == div_value(x, y) % (modulus() as int),
{
    lemma_moduli();
    lemma_mod_bound((restoring(magnitude(x), magnitude(y), div_steps()).0 / pow2(124)) as int, modulus() as int);
    if !flip {
        lemma_small_mod(m, modulus());
    }
}

impl Div for ArbitraryFixed {
    type Output = ArbitraryFixed;

    /// Quotient of the scaled values, scaled: the magnitudes divided by
    /// restoring long division, then the sign of the product put back.
    fn div(self, other: ArbitraryFixed) -> (ret: ArbitraryFixed)
        ensures
            ret.raw() == div_value(self@, other@) % (modulus() as int),
            ret@ == wrap(div_value(self@, other@)),
    {
        let a_negative = self.is_negative();
        let b_negative = other.is_negative();
        let fix_a = match a_negative {
            true => self.neg(),
            false => self,
        };
        let fix_b = match b_negative {
            true => other.neg(),
            false => other,
        };
        proof {
            lemma_magnitude_pattern(self, fix_a, a_negative);
            lemma_magnitude_pattern(other, fix_b, b_negative);
        }
        let ghost a = fix_a.raw();
        let ghost b = fix_b.raw();
        let mut rem = [0u32; 16];
        let mut d = [0u32; 16];
        let mut res = [0u32; 16];
        let mut i: usize = 0;
        while i < SIZE
            invariant
                i <= SIZE,
                forall|k: int| 0 <= k < 16 ==> rem[k] == (if k < i {
                    fix_a.data[k]
                } else {
                    0u32
                }),
                forall|k: int| 0 <= k < 16 ==> d[k] == (if 8 <= k < 8 + i {
                    fix_b.data[k - 8]
                } else {
                    0u32
                }),
            decreases SIZE - i,
        {
            rem[i] = fix_a.data[i];
            d[i + SIZE] = fix_b.data[i];
            i = i + 1;
        }
        proof {
            assert(rem@ =~= fix_a.data@ + zeros(8));
            assert(d@ =~= zeros(8) + fix_b.data@);
            assert(res@ =~= zeros(16));
            lemma_val_zeros(16);
            lemma_val_zeros(8);
            lemma_val_prepend(fix_b.data@, 8);
            let e = fix_a.data@ + zeros(8);
            lemma_val_split(e, 8);
            assert(e.take(8) =~= fix_a.data@);
            assert(e.skip(8) =~= zeros(8));
            assert(val(e.skip(8)) == 0);
            lemma_mul_by_zero_is_zero(wpow(8) as int);
            assert(wpow(8) * val(e.skip(8)) == 0);
            assert(val(e) == val(fix_a.data@));
            lemma_moduli();
            lemma_pow2_pos(0);
            lemma2_to64();
            lemma_mul_is_commutative(b as int, pow2(256) as int);
            assert(val(d@) == div_divisor(b, 0));
            assert(val(rem@) == val(fix_a.data@));
            assert(val(rem@) == restoring(a, b, 0).1);
        }
        let mut k: usize = 0;
        while k < 2 * 32 * SIZE + 1
            invariant
                k <= 513,
                a <= half(),
                b <= half(),
                val(res@) == restoring(a, b, k as nat).0,
                val(rem@) == restoring(a, b, k as nat).1,
                val(d@) == div_divisor(b, k as nat),
            decreases 513 - k,
        {
            let ghost q = val(res@);
            let ghost r = val(rem@);
            let ghost dv = val(d@);
            let shifted = shl1_wide(&res);
            let rem_d = sub_wide(&rem, &d);
            res = shifted;
            proof {
                lemma_restoring_rem_bound(a, b, k as nat);
                lemma_divisor_step(b, k as nat);
                lemma_moduli();
                crate::words::lemma_wpow_adds(15, 1);
                lemma_wpow_succ(15);
                lemma_mul_inequality(b as int, half() as int, pow2(256) as int);
                lemma_pow2_adds(255, 256);
                assert(dv <= pow2(511));
                lemma_pow2_adds(480, 31);
                assert(wpow(15) == pow2(480));
                assert(pow2(31) == 0x8000_0000) by {
                    lemma2_to64();
                }
                lemma_compare(r, dv);
                lemma_top_bit_wide(rem_d@);
                assert(wpow(16) == pow2(512));
            }
            if (rem_d[15] & 0x8000_0000u32) == 0 {
                let ghost prev = res@;
                let w = res[0];
                proof {
                    lemma_val_digit(prev, 0);
                    lemma_wpow_succ(0);
                    assert(val(prev) / 1 == val(prev));
                    lemma_pow2_unfold(512);
                    lemma_mod_multiples_basic(pow2(511) as int, 2);
                    lemma_mod_multiples_basic(q as int, 2);
                    lemma_even_mod(2 * q, pow2(512));
                    lemma_even_mod(val(prev), base());
                    lemma_set_low_bit(w);
                }
                res[0] = w | 1u32;
                rem = rem_d;
                proof {
                    crate::words::lemma_val_update(prev, 0, w | 1u32);
                    assert(res@ =~= prev.update(0, w | 1u32));
                }
            }
            d = shr1_wide(&d);
            k = k + 1;
        }
        let mut ret = ArbitraryFixed { data: [0u32; SIZE] };
        let mut idx: usize = 0;
        while idx < SIZE
            invariant
                idx <= SIZE,
                forall|j: int| 0 <= j < idx ==> ret.data[j] as nat == #[trigger] window(
                    res@,
                    3 + j,
                    28,
                ),
            decreases SIZE - idx,
        {
            let lo = res[idx + SIZE - 1 - SCALING_FACTOR / 32];
            let hi = res[idx + SIZE - SCALING_FACTOR / 32];
            let v = (if (SCALING_FACTOR % 32) > 0 {
                lo >> (((32 - SCALING_FACTOR % 32) % 32) as u32)
            } else {
                0
            }) | (hi << ((SCALING_FACTOR % 32) as u32));
            ret.data[idx] = v;
            proof {
                lemma_window_word(hi, lo, 28);
                lemma_or_commutes(lo >> 28u32, hi << 4u32);
            }
            idx = idx + 1;
        }
        proof {
            lemma_extract(res@, 3, 28, ret.data@);
            lemma_moduli();
        }
        let m = ret;
        let ret = match a_negative != b_negative {
            true => m.neg(),
            false => m,
        };
        proof {
            lemma_div_sign(self@, other@, a_negative != b_negative, m.raw(), ret.raw());
            lemma_pattern(ret, div_value(self@, other@));
        }
        ret
    }
}

impl vstd::std_specs::ops::DivSpecImpl for ArbitraryFixed {
    open spec fn obeys_div_spec() -> bool {
        true
    }

    open spec fn div_req(self, rhs: ArbitraryFixed) -> bool {
        true
    }

    /// The number whose view is the quotient given by `div_value`.
    open spec fn div_spec(self, rhs: ArbitraryFixed) -> ArbitraryFixed {
        from_raw(div_value(self@, rhs@))
    }
}

/// A scaled value rounded down to a whole number: its fraction bits cleared.
pub open spec fn floor_scaled(v: int) -> int {
    v - v % (one_scaled() as int)
}

/// Clearing the 132 fraction bits of a pattern: the four low words and the
/// low four bits of the fifth.
proof fn lemma_clear_fraction(old: Seq<u32>, new: Seq<u32>)
    requires
        old.len() == 8,
        new.len() == 8,
        forall|k: int| 0 <= k < 4 ==> new[k] == 0,
        new[4] as int == old[4] - old[4] % 16,
        forall|k: int| 5 <= k < 8 ==> new[k] == old[k],
    ensures
        val(new) == val(old) - val(old) % one_scaled(),
{
    lemma_moduli();
    lemma_val_split(old, 4);
    lemma_val_split(new, 4);
    lemma_val_digit(old, 4);
    assert(new.take(4) =~= zeros(4));
    lemma_val_zeros(4);
    let ho = old.skip(4);
    let hn = new.skip(4);
    assert(ho.drop_first() =~= hn.drop_first());
    let rest = val(ho.drop_first());
    let w4 = old[4] as int;
    let w = wpow(4) as int;
    let hv = val(ho) as int;
    assert(hv == w4 + base() * rest);
    assert(val(hn) == val(ho) - w4 % 16);
    lemma_pow2_pos(128);
    lemma_mod_breakdown(val(old) as int, w, 16);
    assert(w4 + base() * rest == 16 * (0x1000_0000 * rest) + w4) by (nonlinear_arith);
    lemma_mod_multiples_vanish((0x1000_0000 * rest) as int, w4, 16);
    lemma_mul_is_distributive_sub(w, hv, w4 % 16);
}

/// Clearing the fraction bits of a pattern rounds its view down.
proof fn lemma_floor_view(x: ArbitraryFixed, y: ArbitraryFixed)
    requires
        y.raw() == x.raw() - x.raw() % one_scaled(),
    ensures
        y@ == floor_scaled(x@),
{
    lemma_moduli();
    lemma_view_raw(x);
    lemma_raw_bound(x);
    let v = x@;
    let r = x.raw() as int;
    let s = one_scaled() as int;
    // the fraction of the pattern is the fraction of the view
    lemma_mod_mod(v, s, pow2(124) as int);
    assert(r % s == v % s);
    lemma_mod_bound(r, s);
    lemma_floor_in_range(v);
}

/// Rounding a value in the signed range down to a whole number stays in the
/// range.
pub proof fn lemma_floor_in_range(v: int)
    requires
        v + half() >= 0,
        v < half(),
    ensures
        floor_scaled(v) + half() >= 0,
        floor_scaled(v) <= v,
{
    lemma_moduli();
    let s = one_scaled() as int;
    let t = v % s;
    lemma_fundamental_div_mod(v, s);
    lemma_mod_bound(v, s);
    if v < 0 {
        // v - t is a multiple of 2^132 no smaller than -2^255
        lemma_pow2_adds(132, 123);
        let lowest = -(pow2(123) as int);
        let p123 = pow2(123) as int;
        assert(-(half() as int) == s * lowest) by (nonlinear_arith)
            requires
                half() == s * p123,
                lowest == -p123,
        ;
        lemma_div_multiples_vanish(lowest, s);
        lemma_div_is_ordered(-(half() as int), v, s);
        assert(v / s >= lowest);
        lemma_mul_inequality(lowest, v / s, s);
        lemma_mul_is_commutative(lowest, s);
        lemma_mul_is_commutative(v / s, s);
        assert(v - t >= -(half() as int));
    }
}

impl Rem for ArbitraryFixed {
    type Output = ArbitraryFixed;

    /// What is left of `self` after taking away the whole part of the
    /// quotient times `rhs`.
    fn rem(self, rhs: ArbitraryFixed) -> (ret: ArbitraryFixed)
        ensures
            ret@ == wrap(self@ - mul_value(floor_scaled(wrap(div_value(self@, rhs@))), rhs@)),
    {
        let mut a = self / rhs;
        let ghost q = a;
        let w = a.data[SCALING_FACTOR / 32];
        proof {
            assert((w & (0xFFFF_FFFFu32 << 4u32)) as int == w - w % 16) by (bit_vector);
        }
        a.data[SCALING_FACTOR / 32] = w & (0xFFFF_FFFFu32 << ((SCALING_FACTOR % 32) as u32));
        let mut i: usize = 0;
        while i < SCALING_FACTOR / 32
            invariant
                i <= 4,
                a.data[4] as int == q.data[4] - q.data[4] % 16,
                forall|k: int| 0 <= k < i ==> a.data[k] == 0,
                forall|k: int| 5 <= k < 8 ==> a.data[k] == q.data[k],
            decreases 4 - i,
        {
            a.data[i] = 0;
            i = i + 1;
        }
        proof {
            lemma_clear_fraction(q.data@, a.data@);
            lemma_floor_view(q, a);
        }
        let p = a * rhs;
        let ret = self - p;
        proof {
            lemma_moduli();
            let mv = mul_value(a@, rhs@);
            lemma_wrap_view(self);
            lemma_sub_mod_noop(self.raw() as int, p.raw() as int, modulus() as int);
            lemma_sub_mod_noop(self.raw() as int, mv, modulus() as int);
            lemma_raw_bound(p);
            lemma_small_mod(p.raw(), modulus());
            lemma_mod_twice(self.raw() as int, modulus() as int);
            lemma_sub_mod_noop(self@, mv, modulus() as int);
            lemma_pattern(ret, self@ - mv);
        }
        ret
    }
}

impl vstd::std_specs::ops::RemSpecImpl for ArbitraryFixed {
    open spec fn obeys_rem_spec() -> bool {
        true
    }

    open spec fn rem_req(self, rhs: ArbitraryFixed) -> bool {
        true
    }

    /// `self` less the whole part of the quotient times `rhs`.
    open spec fn rem_spec(self, rhs: ArbitraryFixed) -> ArbitraryFixed {
        from_raw(self@ - mul_value(floor_scaled(wrap(div_value(self@, rhs@))), rhs@))
    }
}

} // verus!
