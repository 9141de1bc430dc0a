//! Addition, negation and subtraction: exact arithmetic modulo 2^256.
use crate::fixed::{
    from_raw, half, lemma_moduli, lemma_pattern, lemma_raw_bound, lemma_view_raw,
    lemma_wrap_view, modulus, one_scaled, wrap, ArbitraryFixed, SCALING_FACTOR, SIZE,
};
use crate::words::{
    base, lemma_base_is_pow2, lemma_extract, lemma_val_bound, lemma_val_take_full,
    lemma_val_take_step, lemma_val_update, lemma_window_word, lemma_wpow_adds, lemma_wpow_succ,
    val, window, word, wpow,
};
use std::ops::{Add, Mul, Neg, Sub};
use vstd::arithmetic::power2::*;
use vstd::bits::*;
use vstd::arithmetic::div_mod::*;
use vstd::arithmetic::mul::*;
use vstd::prelude::*;

verus! {

/// One step of a carry chain: `a + b + carry_in == r + 2^32 * carry_out`.
pub(crate) proof fn lemma_add_step(a: u32, b: u32, cin: bool, r0: u32, r: u32, cout: bool)
    requires
        r0 == a.wrapping_add(b),
        r == (if cin {
            1u32
        } else {
            0u32
        }).wrapping_add(r0),
        cout == ((r0 < a) || (cin && r == 0)),
    ensures
        a as nat + b as nat + (if cin {
            1nat
        } else {
            0nat
        }) == r as nat + base() * (if cout {
            1nat
        } else {
            0nat
        }),
{
}

/// One step of a negation chain: `!a + carry_in == r + 2^32 * carry_out`.
pub(crate) proof fn lemma_neg_step(a: u32, cin: bool, r: u32, cout: bool)
    requires
        r == (if cin {
            1u32
        } else {
            0u32
        }).wrapping_add(!a),
        cout == (cin && r == 0),
    ensures
        (base() - 1 - a) + (if cin {
            1int
        } else {
            0int
        }) == r as int + base() * (if cout {
            1int
        } else {
            0int
        }),
{
    assert(!a == 0xFFFF_FFFFu32 - a) by (bit_vector);
}

/// A carry-chain step of a sum, scaled by the weight `w` of its position.
pub(crate) proof fn lemma_sum_chain_step(
    lo_r: int,
    lo_a: int,
    lo_b: int,
    a: int,
    b: int,
    ci: int,
    r: int,
    co: int,
    w: int,
)
    requires
        lo_r + ci * w == lo_a + lo_b,
        a + b + ci == r + base() * co,
    ensures
        (lo_r + r * w) + co * (w * base()) == (lo_a + a * w) + (lo_b + b * w),
{
    assert((lo_r + r * w) + co * (w * base()) == (lo_a + a * w) + (lo_b + b * w))
        by (nonlinear_arith)
        requires
            lo_r + ci * w == lo_a + lo_b,
            a + b + ci == r + base() * co,
    ;
}

/// A carry-chain step of a negation, scaled by the weight `w` of its position.
pub(crate) proof fn lemma_neg_chain_step(lo_r: int, lo_a: int, a: int, ci: int, r: int, co: int, w: int)
    requires
        lo_r + ci * w == w - lo_a,
        (base() - 1 - a) + ci == r + base() * co,
    ensures
        (lo_r + r * w) + co * (w * base()) == w * base() - (lo_a + a * w),
{
    assert((lo_r + r * w) + co * (w * base()) == w * base() - (lo_a + a * w))
        by (nonlinear_arith)
        requires
            lo_r + ci * w == w - lo_a,
            (base() - 1 - a) + ci == r + base() * co,
    ;
}

impl Add for ArbitraryFixed {
    type Output = ArbitraryFixed;

    /// Sum modulo 2^256, word by word with a carry.
    fn add(self, other: ArbitraryFixed) -> (ret: ArbitraryFixed)
        ensures
            ret.raw() == (self.raw() + other.raw()) % modulus(),
            ret@ == wrap(self@ + other@),
    {
        let mut ret = ArbitraryFixed { data: [0u32; SIZE] };
        let mut carry_prev = false;
        let mut i: usize = 0;
        while i < SIZE
            invariant
                i <= SIZE,
                val(ret.data@.take(i as int)) + (if carry_prev {
                    wpow(i as nat)
                } else {
                    0
                }) == val(self.data@.take(i as int)) + val(other.data@.take(i as int)),
            decreases SIZE - i,
        {
            let a = self.data[i];
            let b = other.data[i];
            let r0 = a.wrapping_add(b);
            let carry = r0 < a;
            let r = (if carry_prev {
                1u32
            } else {
                0u32
            }).wrapping_add(r0);
            let ghost prev = ret.data@;
            let ghost cin = carry_prev;
            ret.data[i] = r;
            carry_prev = carry || (carry_prev && (r == 0));
            proof {
                lemma_add_step(a, b, cin, r0, r, carry_prev);
                assert(ret.data@.take(i as int) =~= prev.take(i as int));
                lemma_val_take_step(ret.data@, i as nat);
                lemma_val_take_step(self.data@, i as nat);
                lemma_val_take_step(other.data@, i as nat);
                lemma_wpow_succ(i as nat);
                let w = wpow(i as nat) as int;
                let ci: int = if cin {
                    1
                } else {
                    0
                };
                let co: int = if carry_prev {
                    1
                } else {
                    0
                };
                lemma_sum_chain_step(
                    val(prev.take(i as int)) as int,
                    val(self.data@.take(i as int)) as int,
                    val(other.data@.take(i as int)) as int,
                    a as int,
                    b as int,
                    ci,
                    r as int,
                    co,
                    w,
                );
                assert(co * (w * base()) == (if carry_prev {
                    wpow((i + 1) as nat)
                } else {
                    0
                }));
            }
            i = i + 1;
        }
        proof {
            lemma_val_take_full(ret.data@);
            lemma_val_take_full(self.data@);
            lemma_val_take_full(other.data@);
            lemma_raw_bound(ret);
            lemma_moduli();
            let c: int = if carry_prev {
                1
            } else {
                0
            };
            lemma_fundamental_div_mod_converse(
                (self.raw() + other.raw()) as int,
                modulus() as int,
                c,
                ret.raw() as int,
            );
            lemma_wrap_view(self);
            lemma_wrap_view(other);
            lemma_add_mod_noop(self@, other@, modulus() as int);
            lemma_add_mod_noop(self.raw() as int, other.raw() as int, modulus() as int);
            lemma_mod_twice(self.raw() as int, modulus() as int);
            lemma_mod_twice(other.raw() as int, modulus() as int);
            lemma_pattern(ret, self@ + other@);
            lemma_pattern(ret, (self.raw() + other.raw()) as int);
        }
        ret
    }
}

impl vstd::std_specs::ops::AddSpecImpl for ArbitraryFixed {
    open spec fn obeys_add_spec() -> bool {
        true
    }

    open spec fn add_req(self, rhs: ArbitraryFixed) -> bool {
        true
    }

    /// The number whose pattern is the sum of the patterns.
    open spec fn add_spec(self, rhs: ArbitraryFixed) -> ArbitraryFixed {
        from_raw((self.raw() + rhs.raw()) as int)
    }
}

impl Neg for ArbitraryFixed {
    type Output = ArbitraryFixed;

    /// Two's complement negation modulo 2^256: every bit flipped, then one
    /// added.
    fn neg(self) -> (ret: ArbitraryFixed)
        ensures
            ret.raw() == (0 - self.raw()) % (modulus() as int),
            ret@ == wrap(-self@),
    {
        let mut ret = ArbitraryFixed { data: [0u32; SIZE] };
        let mut carry_prev = true;
        let mut i: usize = 0;
        while i < SIZE
            invariant
                i <= SIZE,
                val(ret.data@.take(i as int)) + (if carry_prev {
                    wpow(i as nat)
                } else {
                    0
                }) == wpow(i as nat) - val(self.data@.take(i as int)),
            decreases SIZE - i,
        {
            let a = self.data[i];
            let r = (if carry_prev {
                1u32
            } else {
                0u32
            }).wrapping_add(!a);
            let ghost prev = ret.data@;
            let ghost cin = carry_prev;
            ret.data[i] = r;
            carry_prev = carry_prev && (r == 0);
            proof {
                lemma_neg_step(a, cin, r, carry_prev);
                assert(ret.data@.take(i as int) =~= prev.take(i as int));
                lemma_val_take_step(ret.data@, i as nat);
                lemma_val_take_step(self.data@, i as nat);
                lemma_wpow_succ(i as nat);
                let w = wpow(i as nat) as int;
                let ci: int = if cin {
                    1
                } else {
                    0
                };
                let co: int = if carry_prev {
                    1
                } else {
                    0
                };
                lemma_neg_chain_step(
                    val(prev.take(i as int)) as int,
                    val(self.data@.take(i as int)) as int,
                    a as int,
                    ci,
                    r as int,
                    co,
                    w,
                );
                assert(co * (w * base()) == (if carry_prev {
                    wpow((i + 1) as nat)
                } else {
                    0
                }));
            }
            i = i + 1;
        }
        proof {
            lemma_val_take_full(ret.data@);
            lemma_val_take_full(self.data@);
            lemma_raw_bound(ret);
            lemma_moduli();
            let c: int = if carry_prev {
                1
            } else {
                0
            };
            assert((c - 1) * modulus() == c * modulus() - modulus()) by (nonlinear_arith);
            lemma_fundamental_div_mod_converse(
                0 - self.raw(),
                modulus() as int,
                c - 1,
                ret.raw() as int,
            );
            lemma_wrap_view(self);
            lemma_sub_mod_noop(0, self@, modulus() as int);
            lemma_sub_mod_noop(0, self.raw() as int, modulus() as int);
            lemma_mod_twice(self.raw() as int, modulus() as int);
            lemma_pattern(ret, -self@);
            lemma_pattern(ret, 0 - self.raw());
        }
        ret
    }
}

impl vstd::std_specs::ops::NegSpecImpl for ArbitraryFixed {
    open spec fn obeys_neg_spec() -> bool {
        true
    }

    open spec fn neg_req(self) -> bool {
        true
    }

    /// The number whose pattern is minus the pattern.
    open spec fn neg_spec(self) -> ArbitraryFixed {
        from_raw(0 - self.raw())
    }
}

impl Sub for ArbitraryFixed {
    type Output = ArbitraryFixed;

    /// Difference modulo 2^256: the sum with the negation.
    fn sub(self, rhs: ArbitraryFixed) -> (ret: ArbitraryFixed)
        ensures
            ret.raw() == (self.raw() - rhs.raw()) % (modulus() as int),
            ret@ == wrap(self@ - rhs@),
    {
        let n = rhs.neg();
        let ret = self + n;
        proof {
            lemma_moduli();
            lemma_add_mod_noop(self.raw() as int, n.raw() as int, modulus() as int);
            lemma_add_mod_noop(self.raw() as int, 0 - rhs.raw(), modulus() as int);
            lemma_raw_bound(n);
            lemma_small_mod(n.raw(), modulus());
            lemma_pattern(ret, self.raw() - rhs.raw());
            lemma_wrap_view(self);
            lemma_wrap_view(rhs);
            lemma_sub_mod_noop(self@, rhs@, modulus() as int);
            lemma_sub_mod_noop(self.raw() as int, rhs.raw() as int, modulus() as int);
            lemma_mod_twice(self.raw() as int, modulus() as int);
            lemma_mod_twice(rhs.raw() as int, modulus() as int);
            lemma_pattern(ret, self@ - rhs@);
        }
        ret
    }
}

impl vstd::std_specs::ops::SubSpecImpl for ArbitraryFixed {
    open spec fn obeys_sub_spec() -> bool {
        true
    }

    open spec fn sub_req(self, rhs: ArbitraryFixed) -> bool {
        true
    }

    /// The number whose pattern is the difference of the patterns.
    open spec fn sub_spec(self, rhs: ArbitraryFixed) -> ArbitraryFixed {
        from_raw(self.raw() - rhs.raw())
    }
}

/// The magnitude of a signed value.
pub open spec fn magnitude(x: int) -> nat {
    if x < 0 {
        (-x) as nat
    } else {
        x as nat
    }
}

/// Division rounding toward zero.
pub open spec fn trunc_div(z: int, d: nat) -> int {
    if z < 0 {
        -((-z) / (d as int))
    } else {
        z / (d as int)
    }
}

/// The scaled product of two scaled values, rounded toward zero.
pub open spec fn mul_value(x: int, y: int) -> int {
    trunc_div(x * y, one_scaled())
}

/// Taking the magnitude by negating a negative number gives the magnitude of
/// its view as its pattern.
pub(crate) proof fn lemma_magnitude_pattern(x: ArbitraryFixed, m: ArbitraryFixed, neg: bool)
    requires
        neg == (x@ < 0),
        neg ==> m.raw() == (0 - x.raw()) % (modulus() as int),
        !neg ==> m == x,
    ensures
        m.raw() == magnitude(x@),
        m.raw() <= half(),
{
    lemma_view_raw(x);
    lemma_raw_bound(x);
    lemma_moduli();
    if neg {
        lemma_mod_add_multiples_vanish(0 - x.raw(), modulus() as int);
        lemma_small_mod((modulus() - x.raw()) as nat, modulus());
    }
}

/// A product and its carry at one position.
proof fn lemma_product_step(a: u32, b: u32, r: u32, c: u32, p: u64)
    requires
        p == (a as u64) * (b as u64) + (r as u64) + (c as u64),
    ensures
        (p as u32) as nat == p as nat % base(),
        ((p >> 32u64) as u32) as nat == p as nat / base(),
        p as nat == (p as u32) as nat + base() * ((p >> 32u64) as u32) as nat,
{
    assert((p as u32) as u64 == p % 0x1_0000_0000u64) by (bit_vector);
    assert((p >> 32u64) as u32 as u64 == p >> 32u64) by (bit_vector);
    lemma_u64_shr_is_div(p, 32);
    lemma_base_is_pow2();
    lemma_fundamental_div_mod(p as int, base() as int);
}

/// One column of a row of the schoolbook product, at weight `w = wi * wj`.
proof fn lemma_mul_column(
    v: int,
    x: int,
    lo_b: int,
    a: int,
    b: int,
    r: int,
    c: int,
    p: int,
    pl: int,
    ph: int,
    wi: int,
    wj: int,
    w: int,
)
    requires
        w == wi * wj,
        v + c * w == x + a * lo_b * wi,
        p == a * b + r + c,
        p == pl + base() * ph,
    ensures
        (v - r * w + pl * w) + ph * (w * base()) == x + a * (lo_b + b * wj) * wi,
{
    assert(pl * w + ph * (w * base()) == (pl + base() * ph) * w) by (nonlinear_arith);
    assert((a * b + r + c) * w == (a * b) * w + r * w + c * w) by (nonlinear_arith);
    assert(a * (lo_b + b * wj) * wi == a * lo_b * wi + (a * b) * w) by (nonlinear_arith)
        requires
            w == wi * wj,
    ;
}

/// The full 512-bit product of two 256-bit patterns, row by row.
fn mul_words(a: &[u32; 8], b: &[u32; 8]) -> (res: [u32; 16])
    ensures
        val(res@) == val(a@) * val(b@),
{
    let mut res = [0u32; 16];
    proof {
        assert forall|k: int| 0 <= k < 16 implies res[k] == 0 by {}
        assert(res@ =~= crate::words::zeros(16));
        crate::words::lemma_val_zeros(16);
        assert(a@.take(0) =~= Seq::<u32>::empty());
        assert(val(Seq::<u32>::empty()) == 0);
    }
    let mut i: usize = 0;
    while i < 8
        invariant
            i <= 8,
            val(res@) == val(a@.take(i as int)) * val(b@),
            forall|k: int| i + 8 <= k < 16 ==> res[k] == 0,
        decreases 8 - i,
    {
        let ai = a[i];
        let mut carry: u32 = 0;
        let mut j: usize = 0;
        let ghost x = val(a@.take(i as int)) * val(b@);
        proof {
            assert(b@.take(0) =~= Seq::<u32>::empty());
            assert(val(Seq::<u32>::empty()) == 0);
            lemma_wpow_succ(0);
        }
        while j < 8
            invariant
                i < 8,
                j <= 8,
                ai == a[i as int],
                x == val(a@.take(i as int)) * val(b@),
                val(res@) + carry * wpow((i + j) as nat) == x + ai * val(b@.take(j as int)) * wpow(
                    i as nat,
                ),
                forall|k: int| i + 8 <= k < 16 ==> res[k] == 0,
            decreases 8 - j,
        {
            let bj = b[j];
            let r = res[i + j];
            proof {
                assert(ai as int * bj as int <= 0xFFFF_FFFF * 0xFFFF_FFFF) by (nonlinear_arith)
                    requires
                        0 <= ai <= 0xFFFF_FFFF,
                        0 <= bj <= 0xFFFF_FFFF,
                ;
            }
            let product = (ai as u64) * (bj as u64) + (r as u64) + (carry as u64);
            let ghost prev = res@;
            let ghost c = carry;
            res[i + j] = product as u32;
            carry = (product >> 32) as u32;
            proof {
                lemma_product_step(ai, bj, r, c, product);
                lemma_val_update(prev, (i + j) as nat, product as u32);
                assert(res@ =~= prev.update((i + j) as int, product as u32));
                lemma_val_take_step(b@, j as nat);
                lemma_wpow_adds(i as nat, j as nat);
                lemma_wpow_succ((i + j) as nat);
                lemma_mul_column(
                    val(prev) as int,
                    x as int,
                    val(b@.take(j as int)) as int,
                    ai as int,
                    bj as int,
                    r as int,
                    c as int,
                    product as int,
                    (product as u32) as int,
                    carry as int,
                    wpow(i as nat) as int,
                    wpow(j as nat) as int,
                    wpow((i + j) as nat) as int,
                );
                lemma_mul_is_commutative(bj as int, wpow(j as nat) as int);
            }
            j = j + 1;
        }
        let ghost prev = res@;
        res[i + 8] = carry;
        proof {
            lemma_val_update(prev, (i + 8) as nat, carry);
            assert(res@ =~= prev.update((i + 8) as int, carry));
            lemma_val_take_full(b@);
            lemma_val_take_step(a@, i as nat);
            assert(val(a@.take((i + 1) as int)) * val(b@) == x + ai * val(b@) * wpow(i as nat))
                by (nonlinear_arith)
                requires
                    val(a@.take((i + 1) as int)) == val(a@.take(i as int)) + ai * wpow(i as nat),
                    x == val(a@.take(i as int)) * val(b@),
            ;
        }
        i = i + 1;
    }
    proof {
        lemma_val_take_full(a@);
    }
    res
}

/// Extraction of the 256 bits of a 512-bit product that sit above the
/// binary point.
proof fn lemma_mul_extract(res: Seq<u32>, r: Seq<u32>)
    requires
        res.len() == 16,
        r.len() == 8,
        forall|k: int| 0 <= k < 8 ==> r[k] as nat == #[trigger] window(res, 4 + k, 4),
    ensures
        val(r) == (val(res) / one_scaled()) % modulus(),
{
    lemma_extract(res, 4, 4, r);
    lemma_moduli();
}

impl Mul for ArbitraryFixed {
    type Output = ArbitraryFixed;

    /// Product of the scaled values divided by 2^132, rounded toward zero,
    /// taken modulo 2^256.
    fn mul(self, other: ArbitraryFixed) -> (ret: ArbitraryFixed)
        ensures
            ret.raw() == mul_value(self@, other@) % (modulus() as int),
            ret@ == wrap(mul_value(self@, other@)),
    {
        let a_negative = self.is_negative();
        let b_negative = other.is_negative();
        let fix_a = match a_negative {
            true => self.neg(),
            false => self,
        };
        let fix_b = match b_negative {
            true => other.neg(),
            false => other,
        };
        proof {
            lemma_magnitude_pattern(self, fix_a, a_negative);
            lemma_magnitude_pattern(other, fix_b, b_negative);
        }
        let res = mul_words(&fix_a.data, &fix_b.data);
        let mut ret = ArbitraryFixed { data: [0u32; SIZE] };
        let mut idx: usize = 0;
        while idx < SIZE
            invariant
                idx <= SIZE,
                forall|k: int| 0 <= k < idx ==> ret.data[k] as nat == #[trigger] window(
                    res@,
                    4 + k,
                    4,
                ),
            decreases SIZE - idx,
        {
            let hi = res[idx + 1 + SCALING_FACTOR / 32];
            let lo = res[idx + SCALING_FACTOR / 32];
            let v = (if (SCALING_FACTOR % 32) > 0 {
                hi << ((32 - SCALING_FACTOR % 32) as u32)
            } else {
                0
            }) | (lo >> ((SCALING_FACTOR % 32) as u32));
            ret.data[idx] = v;
            proof {
                lemma_window_word(hi, lo, 4);
            }
            idx = idx + 1;
        }
        proof {
            lemma_mul_extract(res@, ret.data@);
        }
        let m = ret;
        let ret = match a_negative != b_negative {
            true => m.neg(),
            false => m,
        };
        proof {
            lemma_mul_sign(self@, other@, a_negative != b_negative, fix_a.raw() * fix_b.raw(), m.raw(), ret.raw());
            lemma_pattern(ret, mul_value(self@, other@));
        }
        ret
    }
}

/// The sign handling of a product: the magnitudes multiplied, then the sign
/// put back.
proof fn lemma_mul_sign(x: int, y: int, flip: bool, p: nat, m: nat, r: nat)
    requires
        flip == ((x < 0) != (y < 0)),
        p == magnitude(x) * magnitude(y),
        m == (p / one_scaled()) % modulus(),
        flip ==> r == (0 - m) % (modulus() as int),
        !flip ==> r == m,
    ensures
        r == mul_value(x, y) % (modulus() as int),
{
    lemma_moduli();
    let q = p / one_scaled();
    if flip {
        assert(x * y <= 0 && p == -(x * y)) by (nonlinear_arith)
            requires
                (x < 0) != (y < 0),
                p == magnitude(x) * magnitude(y),
        ;
        if x * y < 0 {
            assert(mul_value(x, y) == -(q as int));
        } else {
            assert(p == 0);
            lemma_basic_div(0, one_scaled() as int);
            assert(mul_value(x, y) == 0);
        }
        lemma_sub_mod_noop(0, q as int, modulus() as int);
        lemma_small_mod(0, modulus());
        lemma_mod_twice(q as int, modulus() as int);
        lemma_sub_mod_noop(0, m as int, modulus() as int);
    } else {
        assert(x * y >= 0 && p == x * y) by (nonlinear_arith)
            requires
                (x < 0) == (y < 0),
                p == magnitude(x) * magnitude(y),
        ;
    }
}

impl vstd::std_specs::ops::MulSpecImpl for ArbitraryFixed {
    open spec fn obeys_mul_spec() -> bool {
        true
    }

    open spec fn mul_req(self, rhs: ArbitraryFixed) -> bool {
        true
    }

    /// The number whose view is the scaled product, rounded toward zero.
    open spec fn mul_spec(self, rhs: ArbitraryFixed) -> ArbitraryFixed {
        from_raw(mul_value(self@, rhs@))
    }
}

} // verus!
