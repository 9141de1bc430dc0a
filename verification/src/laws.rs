//! What holds of the operations together.
use crate::basic_ops::{magnitude, mul_value, trunc_div};
use crate::conversion::{whole, whole_bits};
use crate::division::{
    div_divisor, div_magnitude, div_steps, div_value, floor_scaled, lemma_floor_in_range, restoring,
};
use crate::fixed::{
    from_raw, half, lemma_from_raw, lemma_moduli, lemma_raw_bound, lemma_view_raw, modulus,
    one_scaled, wrap, ArbitraryFixed,
};
use crate::shift::{shifted_left, shifted_right};
use crate::words::base;
use vstd::arithmetic::div_mod::*;
use vstd::arithmetic::mul::*;
use vstd::arithmetic::power2::*;
use vstd::prelude::*;
use vstd::std_specs::ops::{AddSpec, DivSpec, MulSpec, NegSpec, RemSpec, SubSpec};

verus! {

/// Patterns equal modulo 2^256 name the same number.
proof fn lemma_same_pattern(z1: int, z2: int)
    requires
        z1 % (modulus() as int) == z2 % (modulus() as int),
    ensures
        from_raw(z1) == from_raw(z2),
{
}

/// The number zero.
pub open spec fn zero_value() -> ArbitraryFixed {
    from_raw(0)
}

/// Addition does not depend on the order of its operands.
pub proof fn law_add_commutative(a: ArbitraryFixed, b: ArbitraryFixed)
    ensures
        a.add_spec(b) == b.add_spec(a),
{
}

/// Addition groups either way.
pub proof fn law_add_associative(a: ArbitraryFixed, b: ArbitraryFixed, c: ArbitraryFixed)
    ensures
        a.add_spec(b).add_spec(c) == a.add_spec(b.add_spec(c)),
{
    lemma_moduli();
    let m = modulus() as int;
    lemma_from_raw((((a.raw() + b.raw()) as int)) as int);
    lemma_from_raw((((b.raw() + c.raw()) as int)) as int);
    lemma_add_mod_noop(((a.raw() + b.raw()) as int), c.raw() as int, m);
    lemma_add_mod_noop(a.raw() as int, ((b.raw() + c.raw()) as int), m);
    lemma_mod_twice(((a.raw() + b.raw()) as int), m);
    lemma_mod_twice(((b.raw() + c.raw()) as int), m);
    lemma_add_mod_noop(((a.raw() + b.raw()) as int), c.raw() as int, m);
    lemma_raw_bound(a);
    lemma_raw_bound(c);
    lemma_small_mod(a.raw(), modulus());
    lemma_small_mod(c.raw(), modulus());
    lemma_same_pattern(
        (a.add_spec(b).raw() + c.raw()) as int,
        (a.raw() + b.add_spec(c).raw()) as int,
    );
}

/// Adding zero changes nothing.
pub proof fn law_add_zero(a: ArbitraryFixed)
    ensures
        a.add_spec(zero_value()) == a,
{
    lemma_moduli();
    lemma_from_raw(0);
    lemma_small_mod(0, modulus());
    crate::fixed::lemma_from_raw_of_raw(a);
}

/// A number plus its negation is zero.
pub proof fn law_add_negation(a: ArbitraryFixed)
    ensures
        a.add_spec(a.neg_spec()) == zero_value(),
{
    lemma_moduli();
    let m = modulus() as int;
    lemma_from_raw(0 - a.raw());
    lemma_add_mod_noop(a.raw() as int, 0 - a.raw(), m);
    lemma_add_mod_noop(a.raw() as int, (0 - a.raw()) % m, m);
    lemma_mod_twice(0 - a.raw(), m);
    lemma_small_mod(0, modulus());
    lemma_same_pattern((a.raw() + a.neg_spec().raw()) as int, 0);
}

/// Negating twice gives the number back.
pub proof fn law_neg_involution(a: ArbitraryFixed)
    ensures
        a.neg_spec().neg_spec() == a,
{
    lemma_moduli();
    let m = modulus() as int;
    lemma_from_raw(0 - a.raw());
    lemma_sub_mod_noop(0, 0 - a.raw(), m);
    lemma_small_mod(0, modulus());
    lemma_mod_twice(0 - a.raw(), m);
    lemma_sub_mod_noop(0, (0 - a.raw()) % m, m);
    crate::fixed::lemma_from_raw_of_raw(a);
    lemma_raw_bound(a);
    lemma_small_mod(a.raw(), modulus());
    lemma_same_pattern(0 - a.neg_spec().raw(), a.raw() as int);
}

/// Subtracting and then adding the same number gives the first number back.
pub proof fn law_sub_then_add(a: ArbitraryFixed, b: ArbitraryFixed)
    ensures
        a.sub_spec(b).add_spec(b) == a,
{
    lemma_moduli();
    let m = modulus() as int;
    lemma_from_raw(a.raw() - b.raw());
    lemma_add_mod_noop(a.raw() - b.raw(), b.raw() as int, m);
    lemma_mod_twice(a.raw() - b.raw(), m);
    lemma_raw_bound(b);
    lemma_small_mod(b.raw(), modulus());
    lemma_add_mod_noop((a.raw() - b.raw()) % m, b.raw() as int, m);
    lemma_raw_bound(a);
    lemma_small_mod(a.raw(), modulus());
    lemma_same_pattern((a.sub_spec(b).raw() + b.raw()) as int, a.raw() as int);
    crate::fixed::lemma_from_raw_of_raw(a);
}

/// Adding and then subtracting the same number gives the first number back.
pub proof fn law_add_then_sub(a: ArbitraryFixed, b: ArbitraryFixed)
    ensures
        a.add_spec(b).sub_spec(b) == a,
{
    lemma_moduli();
    let m = modulus() as int;
    let sum = (a.raw() + b.raw()) as int;
    lemma_from_raw(sum);
    lemma_sub_mod_noop(sum, b.raw() as int, m);
    lemma_mod_twice(sum, m);
    lemma_raw_bound(b);
    lemma_small_mod(b.raw(), modulus());
    lemma_sub_mod_noop(sum % m, b.raw() as int, m);
    lemma_raw_bound(a);
    lemma_small_mod(a.raw(), modulus());
    lemma_same_pattern(a.add_spec(b).raw() - b.raw(), a.raw() as int);
    crate::fixed::lemma_from_raw_of_raw(a);
}

/// Subtracting a number is adding its negation.
pub proof fn law_sub_is_add_neg(a: ArbitraryFixed, b: ArbitraryFixed)
    ensures
        a.sub_spec(b) == a.add_spec(b.neg_spec()),
{
    lemma_moduli();
    let m = modulus() as int;
    lemma_from_raw(0 - b.raw());
    lemma_add_mod_noop(a.raw() as int, 0 - b.raw(), m);
    lemma_raw_bound(a);
    lemma_small_mod(a.raw(), modulus());
    lemma_mod_twice(0 - b.raw(), m);
    lemma_same_pattern(a.raw() - b.raw(), (a.raw() + b.neg_spec().raw()) as int);
}

/// Whole numbers add exactly (modulo 2^256).
pub proof fn law_whole_sum(x: int, y: int)
    ensures
        whole(x).add_spec(whole(y)) == whole(x + y),
{
    lemma_moduli();
    let m = modulus() as int;
    let s = one_scaled() as int;
    lemma_from_raw(x * s);
    lemma_from_raw(y * s);
    lemma_add_mod_noop(x * s, y * s, m);
    lemma_mul_is_distributive_add_other_way(s, x, y);
    lemma_same_pattern((whole(x).raw() + whole(y).raw()) as int, (x + y) * s);
}

/// Multiplication does not depend on the order of its operands.
pub proof fn law_mul_commutative(a: ArbitraryFixed, b: ArbitraryFixed)
    ensures
        a.mul_spec(b) == b.mul_spec(a),
{
    lemma_mul_is_commutative(a@, b@);
}

/// Multiplying by the number one leaves a number as it is.
pub proof fn law_mul_one(a: ArbitraryFixed)
    ensures
        a.mul_spec(whole(1)) == a,
{
    lemma_moduli();
    let s = one_scaled() as int;
    lemma_from_raw(s);
    lemma_pow2_strictly_increases(132, 255);
    lemma_pow2_strictly_increases(132, 256);
    lemma_small_mod(one_scaled(), modulus());
    assert(whole(1)@ == s);
    let x = a@;
    if x < 0 {
        assert((-x) * s == -(x * s)) by (nonlinear_arith);
        lemma_div_multiples_vanish(-x, s);
        lemma_mul_is_commutative(-x, s);
        assert(x * s < 0) by (nonlinear_arith)
            requires
                x < 0,
                s > 0,
        ;
    } else {
        lemma_div_multiples_vanish(x, s);
        lemma_mul_is_commutative(x, s);
        assert(x * s >= 0) by (nonlinear_arith)
            requires
                x >= 0,
                s > 0,
        ;
    }
    assert(mul_value(x, s) == x);
    lemma_view_raw(a);
    crate::fixed::lemma_pattern(a, x);
}

/// The number one (`ArbitraryFixed::one()`, the number whose view is
/// 2^132) is the identity of multiplication on either side.
pub proof fn law_one_is_identity(a: ArbitraryFixed, o: ArbitraryFixed)
    requires
        o@ == one_scaled(),
    ensures
        a.mul_spec(o) == a,
        o.mul_spec(a) == a,
{
    lemma_moduli();
    let s = one_scaled() as int;
    lemma_from_raw(s);
    lemma_pow2_strictly_increases(132, 255);
    lemma_pow2_strictly_increases(132, 256);
    lemma_small_mod(one_scaled(), modulus());
    assert(whole(1) == from_raw(s));
    assert(whole(1)@ == s);
    crate::fixed::lemma_view_determines(o, whole(1));
    assert(o == whole(1));
    law_mul_one(a);
    law_mul_commutative(a, o);
}

/// Multiplying by zero gives zero.
pub proof fn law_mul_zero(a: ArbitraryFixed)
    ensures
        a.mul_spec(zero_value()) == zero_value(),
{
    lemma_moduli();
    lemma_from_raw(0);
    lemma_small_mod(0, modulus());
    assert(zero_value()@ == 0);
    lemma_mul_by_zero_is_zero(a@);
    lemma_basic_div(0, one_scaled() as int);
}

/// A product of negated numbers: the sign moves out, for every number but the
/// most negative one, which is its own negation.
pub proof fn law_mul_negation(a: ArbitraryFixed, b: ArbitraryFixed)
    requires
        a@ != -(half() as int),
    ensures
        a.neg_spec().mul_spec(b) == a.mul_spec(b).neg_spec(),
{
    lemma_moduli();
    let m = modulus() as int;
    lemma_from_raw(0 - a.raw());
    lemma_view_raw(a);
    // the negation's view is exactly minus the view
    assert(a.neg_spec()@ == -a@) by {
        lemma_sub_mod_noop(0, a@, m);
        lemma_mod_twice(a@, m);
        lemma_sub_mod_noop(0, a.raw() as int, m);
        lemma_small_mod(0, modulus());
        crate::fixed::lemma_pattern(a.neg_spec(), -a@);
        lemma_small_mod((-a@ + if -a@ < 0 { m } else { 0 }) as nat, modulus());
        lemma_mod_add_multiples_vanish(-a@, m);
    }
    let x = a@;
    let y = b@;
    let s = one_scaled() as int;
    assert((-x) * y == -(x * y)) by (nonlinear_arith);
    assert(mul_value(-x, y) == -mul_value(x, y));
    let p = mul_value(x, y);
    lemma_from_raw(p);
    lemma_sub_mod_noop(0, p, m);
    lemma_mod_twice(p, m);
    lemma_small_mod(0, modulus());
    lemma_sub_mod_noop(0, p % m, m);
    lemma_same_pattern(-p, 0 - a.mul_spec(b).raw());
}

/// Whole numbers no larger than 2^123 in magnitude multiply exactly (modulo
/// 2^256).
pub proof fn law_whole_product(x: int, y: int)
    requires
        -(pow2(123) as int) <= x < pow2(123),
        -(pow2(123) as int) <= y < pow2(123),
    ensures
        whole(x).mul_spec(whole(y)) == whole(x * y),
{
    lemma_moduli();
    let s = one_scaled() as int;
    lemma_pow2_adds(123, 132);
    lemma_view_of_whole(x);
    lemma_view_of_whole(y);
    assert((x * s) * (y * s) == (x * y * s) * s) by (nonlinear_arith);
    let z = x * y * s;
    if z < 0 {
        assert(-((x * s) * (y * s)) == (-z) * s) by (nonlinear_arith)
            requires
                (x * s) * (y * s) == z * s,
        ;
        lemma_div_multiples_vanish(-z, s);
        lemma_mul_is_commutative(-z, s);
        assert((x * s) * (y * s) < 0) by (nonlinear_arith)
            requires
                (x * s) * (y * s) == z * s,
                z < 0,
                s > 0,
        ;
    } else {
        lemma_div_multiples_vanish(z, s);
        lemma_mul_is_commutative(z, s);
        assert((x * s) * (y * s) >= 0) by (nonlinear_arith)
            requires
                (x * s) * (y * s) == z * s,
                z >= 0,
                s > 0,
        ;
    }
    assert(mul_value(x * s, y * s) == z);
}

/// The view of a small whole number is the number scaled.
proof fn lemma_view_of_whole(x: int)
    requires
        -(pow2(123) as int) <= x < pow2(123),
    ensures
        whole(x)@ == x * one_scaled(),
{
    lemma_moduli();
    let s = one_scaled() as int;
    let m = modulus() as int;
    lemma_pow2_adds(123, 132);
    lemma_from_raw(x * s);
    let h = half() as int;
    assert(-h <= x * s < h) by (nonlinear_arith)
        requires
            -(pow2(123) as int) <= x < pow2(123),
            h == pow2(123) * s,
            s > 0,
    ;
    if x * s >= 0 {
        lemma_small_mod((x * s) as nat, m as nat);
    } else {
        lemma_mod_add_multiples_vanish(x * s, m);
        lemma_small_mod((x * s + m) as nat, m as nat);
    }
}

/// Reading the bits above the binary point of a whole number gives the
/// number back: converting a `u32` in and out is the identity.
pub proof fn law_u32_round_trip(x: u32)
    ensures
        whole_bits(whole(x as int)) == x,
{
    lemma_moduli();
    let s = one_scaled();
    lemma_pow2_adds(132, 32);
    lemma_pow2_strictly_increases(164, 256);
    crate::words::lemma_base_is_pow2();
    assert(x as nat * s < pow2(164)) by (nonlinear_arith)
        requires
            pow2(164) == s * base(),
            x < base(),
            s > 0,
    ;
    lemma_from_raw(x * s);
    lemma_small_mod(x as nat * s, modulus());
    lemma_div_multiples_vanish(x as int, s as int);
    lemma_mul_is_commutative(x as int, s as int);
    lemma_small_mod(x as nat, base());
}

/// Shifting left multiplies the view by a power of two, modulo 2^256.
pub proof fn law_shift_left_multiplies(a: ArbitraryFixed, n: nat)
    ensures
        shifted_left(a, n)@ == wrap(a@ * pow2(n)),
{
    lemma_moduli();
    let m = modulus() as int;
    lemma_view_raw(a);
    lemma_from_raw((a.raw() * pow2(n)) as int);
    lemma_mul_mod_noop_left(a@, pow2(n) as int, m);
    lemma_mul_mod_noop_left(a.raw() as int, pow2(n) as int, m);
    lemma_raw_bound(a);
    lemma_small_mod(a.raw(), modulus());
}

/// Shifting a number that is not negative right divides its view by a power
/// of two, rounding down.
pub proof fn law_shift_right_divides(a: ArbitraryFixed, n: nat)
    requires
        a@ >= 0,
    ensures
        shifted_right(a, n)@ == a@ / (pow2(n) as int),
{
    lemma_moduli();
    lemma_view_raw(a);
    lemma_raw_bound(a);
    lemma_pow2_pos(n);
    let q = a.raw() / pow2(n);
    lemma_div_is_ordered_by_denominator(a.raw() as int, 1, pow2(n) as int);
    assert(a.raw() / 1 == a.raw());
    lemma_from_raw(q as int);
    lemma_small_mod(q, modulus());
    lemma_small_mod(a.raw(), modulus());
}

/// Shifting left and then right by the same amount gives the number back
/// when no bit was shifted out.
pub proof fn law_shift_round_trip(a: ArbitraryFixed, n: nat)
    requires
        n <= 256,
        a.raw() < pow2((256 - n) as nat),
    ensures
        shifted_right(shifted_left(a, n), n) == a,
{
    lemma_moduli();
    lemma_pow2_pos(n);
    lemma_pow2_adds((256 - n) as nat, n);
    let p = pow2(n);
    assert(a.raw() * p < modulus()) by (nonlinear_arith)
        requires
            a.raw() < pow2((256 - n) as nat),
            modulus() == pow2((256 - n) as nat) * p,
            p > 0,
    ;
    lemma_from_raw((a.raw() * p) as int);
    lemma_small_mod(a.raw() * p, modulus());
    lemma_div_multiples_vanish(a.raw() as int, p as int);
    lemma_mul_is_commutative(a.raw() as int, p as int);
    crate::fixed::lemma_from_raw_of_raw(a);
}

/// Shifting left twice is shifting left by the sum.
pub proof fn law_shift_left_adds(a: ArbitraryFixed, m: nat, n: nat)
    ensures
        shifted_left(shifted_left(a, m), n) == shifted_left(a, m + n),
{
    lemma_moduli();
    let md = modulus() as int;
    lemma_from_raw((a.raw() * pow2(m)) as int);
    lemma_mul_mod_noop_left((a.raw() * pow2(m)) as int, pow2(n) as int, md);
    lemma_pow2_adds(m, n);
    lemma_mul_is_associative(a.raw() as int, pow2(m) as int, pow2(n) as int);
    lemma_same_pattern(
        (shifted_left(a, m).raw() * pow2(n)) as int,
        (a.raw() * pow2(m + n)) as int,
    );
}

/// The divisor of step `j` when `b * 2^256 == c * 2^e`: exact for the
/// first `e + 1` steps.
proof fn lemma_exact_divisor(b: nat, c: nat, e: nat, j: nat)
    requires
        b * pow2(256) == c * pow2(e),
        j <= e,
    ensures
        div_divisor(b, j) == c * pow2((e - j) as nat),
{
    lemma_pow2_adds((e - j) as nat, j);
    lemma_pow2_pos(j);
    let p = pow2((e - j) as nat);
    assert(b * pow2(256) == pow2(j) * (c * p)) by (nonlinear_arith)
        requires
            b * pow2(256) == c * pow2(e),
            pow2(e) == p * pow2(j),
    ;
    lemma_div_multiples_vanish((c * p) as int, pow2(j) as int);
}

/// Long division while its divisor halves exactly (`b * 2^256 == c * 2^e`):
/// after `k` steps, up to the last exact one, the quotient bits and the
/// remainder are those of dividing by the last divisor used.
proof fn lemma_exact_phase(a: nat, b: nat, c: nat, e: nat, k: nat)
    requires
        b * pow2(256) == c * pow2(e),
        c >= 1,
        256 <= e,
        a <= pow2(255),
        1 <= k <= e + 1,
    ensures
        a == restoring(a, b, k).0 * div_divisor(b, (k - 1) as nat) + restoring(a, b, k).1,
        restoring(a, b, k).1 < div_divisor(b, (k - 1) as nat),
        restoring(a, b, k).0 <= a,
    decreases k,
{
    lemma_exact_divisor(b, c, e, (k - 1) as nat);
    lemma_pow2_pos((e + 1 - k) as nat);
    let d = div_divisor(b, (k - 1) as nat);
    assert(d >= 1) by (nonlinear_arith)
        requires
            d == c * pow2((e + 1 - k) as nat),
            c >= 1,
            pow2((e + 1 - k) as nat) > 0,
    ;
    lemma_pow2_pos(512);
    if k == 1 {
        assert(restoring(a, b, 0) == (0nat, a));
        lemma_pow2_strictly_increases(255, 256);
        if e > 256 {
            lemma_pow2_strictly_increases(256, e);
        }
        assert(d >= pow2(e)) by (nonlinear_arith)
            requires
                d == c * pow2(e),
                c >= 1,
        ;
        lemma_small_mod(0, pow2(512));
        assert(restoring(a, b, 1) == (0nat, a));
        lemma_mul_by_zero_is_zero(d as int);
    } else {
        lemma_exact_phase(a, b, c, e, (k - 1) as nat);
        let prev = restoring(a, b, (k - 1) as nat);
        let d2 = div_divisor(b, (k - 2) as nat);
        lemma_exact_divisor(b, c, e, (k - 2) as nat);
        lemma_pow2_unfold((e + 2 - k) as nat);
        assert(d2 == 2 * d) by (nonlinear_arith)
            requires
                d2 == c * pow2((e + 2 - k) as nat),
                d == c * pow2((e + 1 - k) as nat),
                pow2((e + 2 - k) as nat) == 2 * pow2((e + 1 - k) as nat),
        ;
        lemma_pow2_strictly_increases(255, 511);
        lemma_pow2_unfold(512);
        assert(2 * prev.0 < pow2(512));
        lemma_small_mod(2 * prev.0, pow2(512));
        assert(a == (2 * prev.0) * d + prev.1) by (nonlinear_arith)
            requires
                a == prev.0 * d2 + prev.1,
                d2 == 2 * d,
        ;
        let cur = restoring(a, b, k);
        assert(((k - 1) as nat) == (k - 1));
        if prev.1 >= d {
            assert(cur == (2 * prev.0 + 1, (prev.1 - d) as nat));
            assert(a == (2 * prev.0 + 1) * d + (prev.1 - d)) by (nonlinear_arith)
                requires
                    a == (2 * prev.0) * d + prev.1,
            ;
        } else {
            assert(cur == (2 * prev.0, prev.1));
        }
        let q = cur.0;
        assert(q * d <= a) by (nonlinear_arith)
            requires
                a == q * d + cur.1,
        ;
        assert(q <= q * d) by (nonlinear_arith)
            requires
                d >= 1,
        ;
    }
}

/// After the exact steps, each step appends one bit below the quotient found
/// so far.
proof fn lemma_tail_phase(a: nat, b: nat, c: nat, e: nat, t: nat)
    requires
        b * pow2(256) == c * pow2(e),
        c >= 1,
        256 <= e,
        a <= pow2(255),
        t <= 512 - e,
    ensures
        restoring(a, b, e + 1).0 * pow2(t) <= restoring(a, b, e + 1 + t).0,
        restoring(a, b, e + 1 + t).0 < (restoring(a, b, e + 1).0 + 1) * pow2(t),
    decreases t,
{
    let q0 = restoring(a, b, e + 1).0;
    lemma_exact_phase(a, b, c, e, e + 1);
    lemma2_to64();
    lemma_mul_basics(q0 as int);
    lemma_mul_basics((q0 + 1) as int);
    if t > 0 {
        lemma_tail_phase(a, b, c, e, (t - 1) as nat);
        let prev = restoring(a, b, (e + t) as nat).0;
        assert(((e + 1 + t - 1) as nat) == e + t);
        let p = pow2((t - 1) as nat);
        lemma_pow2_unfold(t);
        lemma_pow2_adds(256, 255);
        if t - 1 < 255 {
            lemma_pow2_strictly_increases((t - 1) as nat, 255);
        }
        lemma_pow2_unfold(512);
        lemma_pow2_strictly_increases(255, 256);
        assert(prev < pow2(511)) by (nonlinear_arith)
            requires
                prev < (q0 + 1) * p,
                q0 <= pow2(255),
                pow2(255) < pow2(256),
                p <= pow2(255),
                pow2(511) == pow2(256) * pow2(255),
        ;
        lemma_small_mod(2 * prev, pow2(512));
        assert(((e + 1 + t - 1) as nat) == (e + 1 + t - 1));
        let q = restoring(a, b, e + 1 + t).0;
        assert(q == 2 * prev || q == 2 * prev + 1);
        assert(q0 * pow2(t) <= q && q < (q0 + 1) * pow2(t)) by (nonlinear_arith)
            requires
                q0 * p <= prev,
                prev < (q0 + 1) * p,
                pow2(t) == 2 * p,
                q == 2 * prev || q == 2 * prev + 1,
        ;
    }
}

/// The quotient bits of long division while the divisor halves exactly: the
/// whole quotient by the last exact divisor, followed by the remaining bits.
proof fn lemma_quotient_bits(a: nat, b: nat, c: nat, e: nat)
    requires
        b * pow2(256) == c * pow2(e),
        c >= 1,
        256 <= e <= 388,
        a <= pow2(255),
    ensures
        restoring(a, b, div_steps()).0 / pow2((512 - e) as nat) == a / c,
{
    lemma_exact_phase(a, b, c, e, e + 1);
    lemma_tail_phase(a, b, c, e, (512 - e) as nat);
    lemma_exact_divisor(b, c, e, e);
    lemma2_to64();
    let t = (512 - e) as nat;
    let q0 = restoring(a, b, e + 1).0;
    let q = restoring(a, b, 513).0;
    assert(e + 1 + t == 513);
    assert(pow2(0) == 1);
    assert(((e - e) as nat) == 0);
    lemma_mul_basics(c as int);
    lemma_mul_basics(q0 as int);
    lemma_fundamental_div_mod_converse(a as int, c as int, q0 as int, restoring(a, b, e + 1).1 as int);
    lemma_pow2_pos(t);
    assert(q - q0 * pow2(t) < pow2(t)) by (nonlinear_arith)
        requires
            q < (q0 + 1) * pow2(t),
    ;
    lemma_fundamental_div_mod_converse(q as int, pow2(t) as int, q0 as int, q - q0 * pow2(t));
}

/// Past the exact steps the divisor is the magnitude halved and rounded
/// down: step `256 + t` divides by `b / 2^t`.
proof fn lemma_truncated_divisor(b: nat, t: nat)
    ensures
        div_divisor(b, 256 + t) == b / pow2(t),
{
    lemma_pow2_pos(256);
    lemma_pow2_pos(t);
    lemma_pow2_adds(256, t);
    lemma_div_denominator((b * pow2(256)) as int, pow2(256) as int, pow2(t) as int);
    lemma_mul_is_commutative(b as int, pow2(256) as int);
    lemma_div_multiples_vanish(b as int, pow2(256) as int);
}

/// Past the exact steps the quotient bits stay below 2^511, so doubling
/// them never wraps.
proof fn lemma_quotient_small(a: nat, b: nat, k: nat)
    requires
        b >= 1,
        a <= pow2(255),
        257 <= k <= 512,
    ensures
        restoring(a, b, k).0 < pow2(511),
{
    lemma_mul_basics(b as int);
    lemma_exact_phase(a, b, b, 256, 257);
    lemma_tail_phase(a, b, b, 256, (k - 257) as nat);
    let q0 = restoring(a, b, 257).0;
    let p = pow2((k - 257) as nat);
    if k - 257 < 255 {
        lemma_pow2_strictly_increases((k - 257) as nat, 255);
    }
    lemma_pow2_strictly_increases(255, 256);
    lemma_pow2_adds(256, 255);
    assert(((256 + 1) as nat) == 257);
    assert(restoring(a, b, k).0 < pow2(511)) by (nonlinear_arith)
        requires
            restoring(a, b, k).0 < (q0 + 1) * p,
            q0 <= pow2(255),
            pow2(255) < pow2(256),
            p <= pow2(255),
            pow2(511) == pow2(256) * pow2(255),
    ;
}

/// Past the exact steps, each step appends one bit to the quotient.
proof fn lemma_append_bits(a: nat, b: nat, k: nat, t: nat)
    requires
        b >= 1,
        a <= pow2(255),
        257 <= k,
        k + t <= 513,
    ensures
        restoring(a, b, k).0 * pow2(t) <= restoring(a, b, k + t).0,
        restoring(a, b, k + t).0 < (restoring(a, b, k).0 + 1) * pow2(t),
    decreases t,
{
    let q0 = restoring(a, b, k).0;
    lemma2_to64();
    lemma_mul_basics(q0 as int);
    lemma_mul_basics((q0 + 1) as int);
    if t > 0 {
        lemma_append_bits(a, b, k, (t - 1) as nat);
        let prev = restoring(a, b, (k + t - 1) as nat).0;
        lemma_quotient_small(a, b, (k + t - 1) as nat);
        lemma_pow2_unfold(t);
        lemma_pow2_unfold(512);
        lemma_small_mod(2 * prev, pow2(512));
        assert(((k + t - 1) as nat) == (k + t - 1));
        let q = restoring(a, b, k + t).0;
        assert(q == 2 * prev || q == 2 * prev + 1);
        let p = pow2((t - 1) as nat);
        assert(q0 * pow2(t) <= q && q < (q0 + 1) * pow2(t)) by (nonlinear_arith)
            requires
                q0 * p <= prev,
                prev < (q0 + 1) * p,
                pow2(t) == 2 * p,
                q == 2 * prev || q == 2 * prev + 1,
        ;
    }
}

/// Past the exact steps, after `t` more: with `e = a * 2^t - q * b` what is
/// left of the exact scaled dividend and `g = r * 2^t - e` what the rounded
/// down divisors failed to take away, `e < b` and `0 <= g <= t * 2^t`.
proof fn lemma_truncated_phase(a: nat, b: nat, t: nat)
    requires
        b >= 1,
        a <= pow2(255),
        t <= 255,
    ensures
        a * pow2(t) - restoring(a, b, 257 + t).0 * b < b,
        restoring(a, b, 257 + t).1 * pow2(t) - (a * pow2(t) - restoring(a, b, 257 + t).0 * b)
            >= 0,
        restoring(a, b, 257 + t).1 * pow2(t) - (a * pow2(t) - restoring(a, b, 257 + t).0 * b)
            <= t * pow2(t),
    decreases t,
{
    lemma2_to64();
    let q = restoring(a, b, 257 + t).0;
    let r = restoring(a, b, 257 + t).1;
    if t == 0 {
        lemma_mul_basics(b as int);
        lemma_exact_phase(a, b, b, 256, 257);
        lemma_exact_divisor(b, b, 256, 256);
        assert(div_divisor(b, 256) == b);
        assert(a == q * b + r);
        lemma_mul_basics(a as int);
        lemma_mul_basics(r as int);
    } else {
        lemma_truncated_phase(a, b, (t - 1) as nat);
        let k = (256 + t) as nat;
        assert(((257 + (t - 1)) as nat) == k);
        let qp = restoring(a, b, k).0;
        let rp = restoring(a, b, k).1;
        let p = pow2((t - 1) as nat);
        let pt = pow2(t);
        lemma_pow2_unfold(t);
        lemma_pow2_pos((t - 1) as nat);
        let ep = a * p - qp * b;
        let gp = rp * p - ep;
        lemma_quotient_small(a, b, k);
        lemma_pow2_unfold(512);
        lemma_small_mod(2 * qp, pow2(512));
        lemma_truncated_divisor(b, t);
        let d = b / pt;
        lemma_fundamental_div_mod(b as int, pt as int);
        lemma_mod_bound(b as int, pt as int);
        let m = b % pt;
        assert(b == pt * d + m);
        assert(((k + 1) as nat) == 257 + t);
        assert(((257 + t - 1) as nat) == k);
        if rp >= d {
            assert(q == 2 * qp + 1 && r == rp - d);
            assert(a * pt - q * b < b && r * pt - (a * pt - q * b) >= 0 && r * pt - (a * pt
                - q * b) <= t * pt) by (nonlinear_arith)
                requires
                    ep < b,
                    gp >= 0,
                    gp <= (t - 1) * p,
                    ep == a * p - qp * b,
                    gp == rp * p - ep,
                    pt == 2 * p,
                    q == 2 * qp + 1,
                    r == rp - d,
                    b == pt * d + m,
                    0 <= m < pt,
                    t >= 1,
            ;
        } else {
            assert(q == 2 * qp && r == rp);
            assert(a * pt - q * b < b && r * pt - (a * pt - q * b) >= 0 && r * pt - (a * pt
                - q * b) <= t * pt) by (nonlinear_arith)
                requires
                    ep < b,
                    gp >= 0,
                    gp <= (t - 1) * p,
                    ep == a * p - qp * b,
                    gp == rp * p - ep,
                    pt == 2 * p,
                    p > 0,
                    q == 2 * qp,
                    r == rp,
                    rp < d,
                    b == pt * d + m,
                    0 <= m,
                    t >= 1,
            ;
        }
    }
}

/// The magnitude of a quotient before it is cut to 256 bits.
pub open spec fn div_quotient(a: nat, b: nat) -> nat {
    restoring(a, b, div_steps()).0 / pow2(124)
}

/// Division is never below the exact quotient of the magnitudes rounded
/// down, and exceeds the exact quotient by at most `132 / |y|` of the
/// smallest unit: for the magnitudes `a` and `b` of the views,
/// `q * b <= (a + 132) * 2^132`. For divisors of magnitude 132 or more the
/// quotient is the exact one rounded down, or one unit above it.
pub proof fn law_div_error(x: ArbitraryFixed, y: ArbitraryFixed)
    requires
        y@ != 0,
    ensures
        div_magnitude(magnitude(x@), magnitude(y@)) == div_quotient(magnitude(x@), magnitude(y@))
            % modulus(),
        (magnitude(x@) * one_scaled()) / magnitude(y@) <= div_quotient(
            magnitude(x@),
            magnitude(y@),
        ),
        div_quotient(magnitude(x@), magnitude(y@)) * magnitude(y@) <= (magnitude(x@) + 132)
            * one_scaled(),
        magnitude(y@) >= 132 * one_scaled() ==> div_quotient(magnitude(x@), magnitude(y@)) <= (
        magnitude(x@) * one_scaled()) / magnitude(y@) + 1,
{
    lemma_moduli();
    lemma_view_raw(x);
    lemma_view_raw(y);
    let a = magnitude(x@);
    let b = magnitude(y@);
    let s = one_scaled();
    lemma_truncated_phase(a, b, 132);
    lemma_append_bits(a, b, 389, 124);
    let q = restoring(a, b, 389).0;
    let r = restoring(a, b, 389).1;
    let qq = restoring(a, b, 513).0;
    assert(div_steps() == 389 + 124);
    lemma_pow2_pos(124);
    let w = pow2(124);
    assert(qq - q * w < w) by (nonlinear_arith)
        requires
            qq < (q + 1) * w,
    ;
    lemma_fundamental_div_mod_converse(qq as int, w as int, q as int, qq - q * w);
    assert(div_quotient(a, b) == q);
    let x_s = a * s;
    let tq = x_s / b;
    lemma_fundamental_div_mod(x_s as int, b as int);
    lemma_mod_bound(x_s as int, b as int);
    let rem = x_s % b;
    assert(tq <= q && q * b <= (a + 132) * s && (b >= 132 * s ==> q <= tq + 1)) by (nonlinear_arith)
        requires
            x_s == a * s,
            a * s - q * b < b,
            r * s - (a * s - q * b) >= 0,
            r * s - (a * s - q * b) <= 132 * s,
            r >= 0,
            x_s == b * tq + rem,
            0 <= rem < b,
            b >= 1,
    ;
}

/// Long division by a magnitude that is a nonzero whole number gives the
/// scaled quotient, rounded down.
proof fn lemma_div_magnitude_whole(a: nat, c: nat)
    requires
        c >= 1,
        a <= pow2(255),
    ensures
        div_magnitude(a, c * one_scaled()) == (a * one_scaled()) / (c * one_scaled()),
{
    let b = c * one_scaled();
    lemma_pow2_adds(132, 256);
    assert(b * pow2(256) == c * pow2(388)) by (nonlinear_arith)
        requires
            b == c * one_scaled(),
            one_scaled() == pow2(132),
            pow2(388) == pow2(132) * pow2(256),
    ;
    lemma_quotient_bits(a, b, c, 388);
    lemma_moduli();
    lemma_pow2_strictly_increases(255, 256);
    lemma_div_is_ordered_by_denominator(a as int, 1, c as int);
    assert(a / 1 == a);
    lemma_small_mod(a / c, modulus());
    // a * 2^132 / (c * 2^132) == a / c
    lemma_pow2_pos(132);
    lemma_div_denominator((a * one_scaled()) as int, one_scaled() as int, c as int);
    lemma_div_multiples_vanish(a as int, one_scaled() as int);
    lemma_mul_is_commutative(a as int, one_scaled() as int);
    lemma_mul_is_commutative(c as int, one_scaled() as int);
}

/// The whole part of a quotient's magnitude is the whole quotient of the
/// magnitudes, for every nonzero divisor (taken modulo 2^124, the whole bits
/// a number holds).
pub proof fn law_div_whole_part(x: ArbitraryFixed, y: ArbitraryFixed)
    requires
        y@ != 0,
    ensures
        magnitude(div_value(x@, y@)) / one_scaled() == (magnitude(x@) / magnitude(y@)) % pow2(124),
{
    lemma_moduli();
    lemma_view_raw(x);
    lemma_view_raw(y);
    let a = magnitude(x@);
    let b = magnitude(y@);
    lemma_quotient_bits(a, b, b, 256);
    let q = restoring(a, b, div_steps()).0;
    // the magnitude is (q / 2^124) % 2^256; its whole part is (q / 2^256) % 2^124
    lemma_pow2_pos(124);
    lemma_pow2_pos(132);
    lemma_pow2_adds(124, 132);
    lemma_div_denominator(q as int, pow2(124) as int, pow2(132) as int);
    let x1 = q / pow2(124);
    lemma_mod_breakdown(x1 as int, pow2(132) as int, pow2(124) as int);
    lemma_mod_bound(x1 as int, pow2(132) as int);
    let m = div_magnitude(a, b);
    let hi = ((x1 / pow2(132)) % pow2(124)) as int;
    let lo = (x1 % pow2(132)) as int;
    assert(m == pow2(132) * hi + lo);
    lemma_mul_is_commutative(pow2(132) as int, hi);
    assert(m == hi * pow2(132) + lo);
    lemma_fundamental_div_mod_converse(m as int, pow2(132) as int, hi, lo);
    assert(magnitude(div_value(x@, y@)) == m);
}

/// Quotient with the sign of the operands, rounded toward zero.
pub open spec fn trunc_quotient(z: int, w: int) -> int {
    let q = (magnitude(z) / magnitude(w)) as int;
    if (z < 0) != (w < 0) {
        -q
    } else {
        q
    }
}

/// Dividing by a nonzero whole number is exact, rounded toward zero: the
/// scaled quotient of the views.
pub proof fn law_div_by_whole(x: ArbitraryFixed, y: ArbitraryFixed)
    requires
        y@ != 0,
        y@ % (one_scaled() as int) == 0,
    ensures
        x.div_spec(y) == from_raw(trunc_quotient(x@ * one_scaled(), y@)),
{
    lemma_moduli();
    lemma_view_raw(x);
    lemma_view_raw(y);
    let s = one_scaled() as int;
    let a = magnitude(x@);
    let b = magnitude(y@);
    // the divisor's magnitude is a whole number c >= 1
    lemma_fundamental_div_mod(y@, s);
    let c0 = y@ / s;
    assert(y@ == s * c0);
    let c: nat = if y@ < 0 {
        (-c0) as nat
    } else {
        c0 as nat
    };
    assert(b == c * one_scaled() && c >= 1) by (nonlinear_arith)
        requires
            y@ == s * c0,
            y@ != 0,
            s > 0,
            s == one_scaled(),
            b == (if y@ < 0 { -y@ } else { y@ }),
            c == (if y@ < 0 { -c0 } else { c0 }),
    ;
    lemma_div_magnitude_whole(a, c);
    // the magnitude of the scaled dividend
    assert(magnitude(x@ * s) == a * one_scaled() && ((x@ * s < 0) == (x@ < 0)))
        by (nonlinear_arith)
        requires
            s > 0,
            s == one_scaled(),
            a == (if x@ < 0 { -x@ } else { x@ }),
    ;
    assert(div_value(x@, y@) == trunc_quotient(x@ * s, y@));
}

/// Scaling up and dividing by the scale gives the value back.
proof fn lemma_trunc_quotient_scale(v: int)
    ensures
        trunc_quotient(v * (one_scaled() as int), one_scaled() as int) == v,
{
    let s = one_scaled() as int;
    lemma_moduli();
    let a = magnitude(v);
    assert(magnitude(v * s) == a * one_scaled() && ((v * s < 0) == (v < 0))) by (nonlinear_arith)
        requires
            s > 0,
            s == one_scaled(),
            a == (if v < 0 { -v } else { v }),
    ;
    assert(magnitude(s) == one_scaled());
    lemma_div_multiples_vanish(a as int, s);
    lemma_mul_is_commutative(a as int, s);
}

/// Dividing by the number one leaves a number as it is.
pub proof fn law_div_one(x: ArbitraryFixed)
    ensures
        x.div_spec(whole(1)) == x,
{
    lemma_moduli();
    let s = one_scaled() as int;
    lemma_from_raw(s);
    lemma_pow2_strictly_increases(132, 255);
    lemma_pow2_strictly_increases(132, 256);
    lemma_small_mod(one_scaled(), modulus());
    assert(whole(1)@ == s);
    lemma_mod_self_0(s);
    law_div_by_whole(x, whole(1));
    lemma_trunc_quotient_scale(x@);
    lemma_view_raw(x);
    crate::fixed::lemma_pattern(x, x@);
}

/// An integer already in the signed range wraps to itself; one that wraps to
/// zero within twice that range is zero.
pub proof fn lemma_wrap_in_range(d: int)
    requires
        d + modulus() > 0,
        d < modulus(),
    ensures
        d + half() >= 0 && d < half() ==> wrap(d) == d,
        wrap(d) == 0 <==> d == 0,
{
    lemma_moduli();
    let m = modulus() as int;
    if d >= 0 {
        lemma_small_mod(d as nat, modulus());
    } else {
        lemma_mod_add_multiples_vanish(d, m);
        lemma_small_mod((d + m) as nat, modulus());
    }
}

/// The whole part of a number: its fraction bits cleared, rounding down.
pub open spec fn whole_part(z: ArbitraryFixed) -> ArbitraryFixed {
    from_raw(floor_scaled(z@))
}

/// The remainder and the whole part of the quotient give the dividend back:
/// `a % b + whole_part(a / b) * b == a`.
pub proof fn law_rem_reconstructs(a: ArbitraryFixed, b: ArbitraryFixed)
    ensures
        a.rem_spec(b).add_spec(whole_part(a.div_spec(b)).mul_spec(b)) == a,
{
    lemma_moduli();
    let m = modulus() as int;
    let dv = div_value(a@, b@);
    let q = a.div_spec(b);
    lemma_from_raw(dv);
    lemma_view_raw(q);
    let f = floor_scaled(q@);
    lemma_floor_in_range(q@);
    lemma_from_raw(f);
    lemma_wrap_in_range(f);
    let w = whole_part(q);
    assert(w@ == f);
    let mv = mul_value(w@, b@);
    let r = a.rem_spec(b);
    let p = w.mul_spec(b);
    lemma_from_raw(a@ - mv);
    lemma_from_raw(mv);
    lemma_add_mod_noop(a@ - mv, mv, m);
    assert(a@ - mv + mv == a@);
    lemma_view_raw(a);
    lemma_raw_bound(a);
    lemma_small_mod(a.raw(), modulus());
    assert((r.raw() + p.raw()) as int % m == a.raw() as int % m);
    lemma_same_pattern((r.raw() + p.raw()) as int, a.raw() as int);
    crate::fixed::lemma_from_raw_of_raw(a);
}

} // verus!
