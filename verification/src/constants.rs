//! Building constants from their binary digits, and the modular powers that
//! digit-extraction series are computed with.
use crate::fixed::{lemma_moduli, lemma_raw_bound, modulus, ArbitraryFixed};
use crate::words::{base, lemma_base_is_pow2, lemma_val_digit, lemma_val_update, lemma_wpow_succ};
use vstd::arithmetic::div_mod::*;
use vstd::arithmetic::mul::*;
use vstd::arithmetic::power::*;
use vstd::arithmetic::power2::*;
use vstd::bits::*;
use vstd::prelude::*;

verus! {

/// A whole part followed by the first `k` 16-bit chunks of a binary
/// fraction, read as one number.
pub open spec fn chunks_value(whole: nat, chunks: Seq<u16>, k: nat) -> nat
    decreases k,
{
    if k == 0 {
        whole
    } else {
        chunks_value(whole, chunks, (k - 1) as nat) * 0x1_0000 + chunks[k - 1] as nat
    }
}

/// The pattern of `whole` plus the fraction whose 132 bits are the eight
/// 16-bit chunks followed by the top four bits of `last`.
pub open spec fn fraction_pattern(whole: nat, chunks: Seq<u16>, last: u16) -> nat {
    chunks_value(whole, chunks, 8) * 16 + (last as nat) / 0x1000
}

proof fn lemma_chunks_bound(whole: nat, chunks: Seq<u16>, k: nat)
    requires
        whole < 0x1_0000_0000,
        k <= chunks.len(),
    ensures
        chunks_value(whole, chunks, k) < pow2(32 + 16 * k),
    decreases k,
{
    lemma2_to64();
    if k > 0 {
        lemma_chunks_bound(whole, chunks, (k - 1) as nat);
        let v = chunks_value(whole, chunks, (k - 1) as nat);
        let p = pow2((32 + 16 * (k - 1)) as nat);
        lemma_pow2_adds((32 + 16 * (k - 1)) as nat, 16);
        assert(v * 0x1_0000 + (chunks[k - 1] as nat) < p * 0x1_0000) by (nonlinear_arith)
            requires
                v < p,
                chunks[k - 1] < 0x1_0000,
        ;
    }
}

/// A multiple of `c` stays one modulo a multiple of `c`.
proof fn lemma_mod_keeps_multiple(x: nat, m: nat, c: nat)
    requires
        m > 0,
        c > 0,
        m % c == 0,
        x % c == 0,
    ensures
        (x % m) % c == 0,
{
    lemma_fundamental_div_mod(x as int, m as int);
    lemma_fundamental_div_mod(x as int, c as int);
    lemma_fundamental_div_mod(m as int, c as int);
    let q = x / m;
    let r = x % m;
    let g = x / c;
    let h = m / c;
    assert(r == c * (g - h * q)) by (nonlinear_arith)
        requires
            x == m * q + r,
            m == c * h,
            x == c * g,
    ;
    lemma_mod_multiples_basic(g - h * q, c as int);
    lemma_mul_is_commutative(g - h * q, c as int);
}

/// Shifting a number left by `t` bits and putting `x < 2^t` into the freed
/// low bits adds `x`.
fn shift_in(a: ArbitraryFixed, t: usize, x: u32) -> (r: ArbitraryFixed)
    requires
        0 < t < 32,
        (x as nat) < pow2(t as nat),
        a.raw() * pow2(t as nat) < modulus(),
    ensures
        r.raw() == a.raw() * pow2(t as nat) + x,
{
    let mut r = a.lshiftword(t);
    proof {
        lemma_moduli();
        lemma_small_mod(a.raw() * pow2(t as nat), modulus());
        lemma_val_digit(r.data@, 0);
        lemma_wpow_succ(0);
        assert(r.raw() / 1 == r.raw());
        lemma_pow2_pos(t as nat);
        lemma_pow2_adds(t as nat, (32 - t) as nat);
        lemma_base_is_pow2();
        lemma_mod_multiples_basic(a.raw() as int, pow2(t as nat) as int);
        lemma_mod_multiples_basic(pow2((32 - t) as nat) as int, pow2(t as nat) as int);
        lemma_mul_is_commutative(pow2((32 - t) as nat) as int, pow2(t as nat) as int);
        lemma_mod_keeps_multiple(r.raw(), base(), pow2(t as nat));
        let w = r.data[0];
        lemma_u32_pow2_no_overflow(t as nat);
        lemma_u32_shl_is_mul(1, t as u32);
        assert((w | x) == w + x) by (bit_vector)
            requires
                w % (1u32 << (t as u32)) == 0,
                x < (1u32 << (t as u32)),
                t < 32,
        ;
    }
    let ghost prev = r.data@;
    r.data[0] = r.data[0] | x;
    proof {
        lemma_val_update(prev, 0, r.data[0]);
        assert(r.data@ =~= prev.update(0, r.data[0]));
    }
    r
}

impl ArbitraryFixed {
    /// The number `whole` plus the binary fraction spelled by eight 16-bit
    /// chunks, most significant first, and the top four bits of `last`: the
    /// way a constant is assembled from the digits of its expansion.
    pub(crate) fn from_fraction_chunks(whole: u32, chunks: &[u16; 8], last: u16) -> (r: ArbitraryFixed)
        ensures
            r.raw() == fraction_pattern(whole as nat, chunks@, last),
            r@ == fraction_pattern(whole as nat, chunks@, last),
    {
        let mut ret = ArbitraryFixed { data: [0u32; 8] };
        ret.data[0] = ret.data[0] | whole;
        proof {
            assert((0u32 | whole) == whole) by (bit_vector);
            assert(ret.data@.drop_first() =~= crate::words::zeros(7));
            crate::words::lemma_val_zeros(7);
        }
        let mut i: usize = 0;
        while i < 8
            invariant
                i <= 8,
                ret.raw() == chunks_value(whole as nat, chunks@, i as nat),
            decreases 8 - i,
        {
            proof {
                lemma_chunks_bound(whole as nat, chunks@, i as nat);
                lemma2_to64();
                lemma_pow2_adds((32 + 16 * i) as nat, 16);
                lemma_pow2_strictly_increases((48 + 16 * i) as nat, 256);
                lemma_moduli();
            }
            ret = shift_in(ret, 16, chunks[i] as u32);
            i = i + 1;
        }
        proof {
            lemma_chunks_bound(whole as nat, chunks@, 8);
            lemma2_to64();
            lemma_pow2_adds(160, 4);
            lemma_pow2_strictly_increases(164, 255);
            lemma_pow2_strictly_increases(255, 256);
            lemma_moduli();
        }
        let tail = (last >> 12u16) as u32;
        proof {
            assert((last >> 12u16) < 16) by (bit_vector);
            lemma_u16_shr_is_div(last, 12);
        }
        ret = shift_in(ret, 4, tail);
        proof {
            lemma_raw_bound(ret);
        }
        ret
    }

    /// Pi from the hexadecimal digits of its fraction: `chunks[i]` holds the
    /// four hex digits from position `4 * i` on, and the top digit of `last`
    /// is the one at position 32.
    pub fn gen_pi(chunks: &[u16; 8], last: u16) -> (r: ArbitraryFixed)
        ensures
            r.raw() == fraction_pattern(3, chunks@, last),
            r@ == fraction_pattern(3, chunks@, last),
    {
        Self::from_fraction_chunks(3, chunks, last)
    }

    /// ln 2 from the binary digits of its fraction: `chunks[i]` holds the
    /// sixteen bits from position `16 * i` on, and the top four bits of
    /// `last` those from position 128.
    pub fn gen_ln_2(chunks: &[u16; 8], last: u16) -> (r: ArbitraryFixed)
        ensures
            r.raw() == fraction_pattern(0, chunks@, last),
            r@ == fraction_pattern(0, chunks@, last),
    {
        Self::from_fraction_chunks(0, chunks, last)
    }
}

/// The 16-bit digit `j` of `v`, counted from the least significant.
spec fn digit16(v: nat, j: nat) -> nat {
    (v / pow2(16 * j)) % 0x1_0000
}

/// Dividing by 2^16 and then by 2^(16 j) is dividing by 2^(16 (j + 1)).
proof fn lemma_div_16_then(v: nat, j: nat)
    ensures
        (v / pow2(16)) / pow2(16 * j) == v / pow2(16 * (j + 1)),
{
    lemma_pow2_pos(16);
    lemma_pow2_pos(16 * j);
    lemma_pow2_adds(16, 16 * j);
    assert(16 * (j + 1) == 16 + 16 * j);
    lemma_div_denominator(v as int, pow2(16) as int, pow2(16 * j) as int);
}

/// The chunks read back from their value: digit `j` is chunk `k - 1 - j`,
/// and above them all stands the whole part.
proof fn lemma_chunk_digits(whole: nat, chunks: Seq<u16>, k: nat)
    requires
        k <= chunks.len(),
    ensures
        chunks_value(whole, chunks, k) / pow2(16 * k) == whole,
        forall|j: nat| j < k ==> #[trigger] digit16(chunks_value(whole, chunks, k), j) == chunks[k - 1 - j],
    decreases k,
{
    lemma2_to64();
    if k == 0 {
        assert(whole / 1 == whole);
    } else {
        lemma_chunk_digits(whole, chunks, (k - 1) as nat);
        let prev = chunks_value(whole, chunks, (k - 1) as nat);
        let v = chunks_value(whole, chunks, k);
        let c = chunks[k - 1] as nat;
        assert(v == prev * 0x1_0000 + c);
        assert(pow2(16) == 0x1_0000);
        lemma_fundamental_div_mod_converse(v as int, 0x1_0000, prev as int, c as int);
        assert(v / pow2(16) == prev);
        lemma_div_16_then(v, (k - 1) as nat);
        assert(16 * k == 16 * ((k - 1) as nat + 1));
        assert forall|j: nat| j < k implies #[trigger] digit16(v, j) == chunks[k - 1 - j] by {
            if j == 0 {
                assert(pow2(16 * j) == 1);
                assert(v / 1 == v);
            } else {
                lemma_div_16_then(v, (j - 1) as nat);
                assert(16 * j == 16 * ((j - 1) as nat + 1));
                assert(digit16(v, j) == digit16(prev, (j - 1) as nat));
                assert(k - 1 - j == (k - 1) - 1 - (j - 1));
            }
        }
    }
}

/// The 16 fraction bits of a pattern from bit `16 * i + 1` after the binary
/// point on.
pub open spec fn fraction_chunk(p: nat, i: int) -> nat {
    (p / pow2((116 - 16 * i) as nat)) % 0x1_0000
}

/// A constant assembled from digits holds them: its whole part is `whole`,
/// each 16 fraction bits in turn are the chunks in order, and the last
/// four bits are the top four bits of `last`.
pub proof fn law_fraction_digits(whole: nat, chunks: Seq<u16>, last: u16)
    requires
        chunks.len() == 8,
    ensures
        fraction_pattern(whole, chunks, last) / pow2(132) == whole,
        forall|i: int|
            0 <= i < 8 ==> #[trigger] fraction_chunk(fraction_pattern(whole, chunks, last), i)
                == chunks[i],
        fraction_pattern(whole, chunks, last) % 16 == (last as nat) / 0x1000,
{
    lemma2_to64();
    lemma_chunk_digits(whole, chunks, 8);
    let v = chunks_value(whole, chunks, 8);
    let p = fraction_pattern(whole, chunks, last);
    let t = (last as nat) / 0x1000;
    assert(t < 16) by {
        assert((last as nat) < 0x1_0000);
    }
    assert(p == v * 16 + t);
    lemma_fundamental_div_mod_converse(p as int, 16, v as int, t as int);
    assert(pow2(4) == 16);
    lemma_pow2_pos(4);
    assert forall|i: int| 0 <= i < 8 implies #[trigger] fraction_chunk(p, i) == chunks[i] by {
        let j = (7 - i) as nat;
        lemma_pow2_pos(16 * j);
        lemma_pow2_adds(4, 16 * j);
        assert((116 - 16 * i) as nat == 4 + 16 * j);
        lemma_div_denominator(p as int, 16, pow2(16 * j) as int);
        assert(digit16(v, j) == chunks[8 - 1 - j]);
    }
    lemma_pow2_pos(128);
    lemma_pow2_adds(4, 128);
    lemma_div_denominator(p as int, 16, pow2(128) as int);
    assert(16 * 8 == 128);
}

/// Whether computing `n^m mod d` by repeated squaring keeps every square
/// (times `n`, at odd exponents) within `max`.
pub open spec fn pow_mod_fits(n: nat, m: nat, d: nat, max: nat) -> bool
    decreases m,
{
    if m <= 1 {
        true
    } else {
        let k = pow(n as int, m / 2) % (d as int);
        &&& pow_mod_fits(n, m / 2, d, max)
        &&& if m % 2 == 0 {
            k * k <= max
        } else {
            k * k * n <= max
        }
    }
}

/// `n^m mod d`, with `0^0 mod d` and every `n^0 mod 0` read as `1 mod d`
/// and 1.
pub open spec fn pow_mod_spec(n: nat, m: nat, d: nat) -> nat {
    if d == 0 {
        1
    } else {
        (pow(n as int, m) % (d as int)) as nat
    }
}

proof fn lemma_pow_step(n: nat, m: nat, d: nat, k: int)
    requires
        d > 0,
        m > 1,
        k == pow(n as int, m / 2) % (d as int),
    ensures
        m % 2 == 0 ==> (k * k) % (d as int) == pow(n as int, m) % (d as int),
        m % 2 == 1 ==> (k * k * n) % (d as int) == pow(n as int, m) % (d as int),
{
    let h = m / 2;
    let p = pow(n as int, h);
    lemma_pow_adds(n as int, h, h);
    lemma_mul_mod_noop(p, p, d as int);
    lemma_mod_twice(p, d as int);
    lemma_mul_mod_noop(k, k, d as int);
    if m % 2 == 1 {
        lemma_pow_adds(n as int, h + h, 1);
        lemma_pow1(n as int);
        assert(m == h + h + 1);
        lemma_mul_mod_noop(p * p, n as int, d as int);
        lemma_mul_mod_noop(k * k, n as int, d as int);
        lemma_mul_mod_noop(p, p, d as int);
    } else {
        assert(m == h + h);
    }
}

/// Zero to a positive power is zero.
proof fn lemma_pow_zero_base(e: nat)
    requires
        e > 0,
    ensures
        pow(0, e) == 0,
{
    reveal(pow);
    assert(pow(0, e) == 0 * pow(0, (e - 1) as nat));
}

/// `n^m mod d` by repeated squaring, in 64-bit words.
pub fn pow_mod_inner(n: u64, m: u64, d: u64) -> (r: u64)
    requires
        d > 0 || m == 0,
        pow_mod_fits(n as nat, m as nat, d as nat, u64::MAX as nat),
    ensures
        r == pow_mod_spec(n as nat, m as nat, d as nat),
    decreases m,
{
    proof {
        lemma_pow0(n as int);
        lemma_pow1(n as int);
    }
    if m == 0 {
        if d == 1 {
            0
        } else {
            proof {
                if d > 0 {
                    lemma_small_mod(1, d as nat);
                }
            }
            1
        }
    } else if m == 1 {
        n % d
    } else {
        let k = pow_mod_inner(n, m / 2, d);
        proof {
            assert(k as int == pow(n as int, (m / 2) as nat) % (d as int));
            assert(m % 2 == 1 ==> k * k * n <= u64::MAX);
            lemma_pow_step(n as nat, m as nat, d as nat, k as int);
            lemma_mod_bound(pow(n as int, (m / 2) as nat), d as int);
            if n == 0 {
                lemma_pow_zero_base((m / 2) as nat);
                lemma_small_mod(0, d as nat);
                assert(k == 0);
                assert(k * k == 0) by (nonlinear_arith)
                    requires
                        k == 0,
                ;
            } else {
                assert(k * k <= k * k * n) by (nonlinear_arith)
                    requires
                        n >= 1,
                        k >= 0,
                ;
            }
        }
        if m % 2 == 0 {
            (k * k) % d
        } else {
            (k * k * n) % d
        }
    }
}

/// `n^m mod d` by repeated squaring, in 128-bit words.
pub fn pow_mod_inner_wide(n: u128, m: u128, d: u128) -> (r: u128)
    requires
        d > 0 || m == 0,
        pow_mod_fits(n as nat, m as nat, d as nat, u128::MAX as nat),
    ensures
        r == pow_mod_spec(n as nat, m as nat, d as nat),
    decreases m,
{
    proof {
        lemma_pow0(n as int);
        lemma_pow1(n as int);
    }
    if m == 0 {
        if d == 1 {
            0
        } else {
            proof {
                if d > 0 {
                    lemma_small_mod(1, d as nat);
                }
            }
            1
        }
    } else if m == 1 {
        n % d
    } else {
        let k = pow_mod_inner_wide(n, m / 2, d);
        proof {
            assert(k as int == pow(n as int, (m / 2) as nat) % (d as int));
            assert(m % 2 == 1 ==> k * k * n <= u128::MAX);
            lemma_pow_step(n as nat, m as nat, d as nat, k as int);
            lemma_mod_bound(pow(n as int, (m / 2) as nat), d as int);
            if n == 0 {
                lemma_pow_zero_base((m / 2) as nat);
                lemma_small_mod(0, d as nat);
                assert(k == 0);
                assert(k * k == 0) by (nonlinear_arith)
                    requires
                        k == 0,
                ;
            } else {
                assert(k * k <= k * k * n) by (nonlinear_arith)
                    requires
                        n >= 1,
                        k >= 0,
                ;
            }
        }
        if m % 2 == 0 {
            (k * k) % d
        } else {
            (k * k * n) % d
        }
    }
}

/// Small bases and moduli keep every square within 64 bits.
proof fn lemma_small_fits(n: nat, m: nat, d: nat)
    requires
        n < 100,
        0 < d < 400_000_000,
    ensures
        pow_mod_fits(n, m, d, u64::MAX as nat),
{
    assert((d - 1) * (d - 1) * n <= 16_000_000_000_000_000_000) by (nonlinear_arith)
        requires
            n < 100,
            0 < d < 400_000_000,
    ;
    lemma_pow_mod_fits(n, m, d, u64::MAX as nat);
}

/// Squaring never leaves `max` when every remainder squared, times the
/// base, stays within it: `(d - 1)^2 * n <= max` is enough for
/// `pow_mod_fits(n, m, d, max)`, whatever the exponent.
pub proof fn lemma_pow_mod_fits(n: nat, m: nat, d: nat, max: nat)
    requires
        d >= 1,
        (d - 1) * (d - 1) * n <= max,
    ensures
        pow_mod_fits(n, m, d, max),
    decreases m,
{
    if m > 1 {
        lemma_pow_mod_fits(n, m / 2, d, max);
        let k = pow(n as int, m / 2) % (d as int);
        lemma_mod_bound(pow(n as int, m / 2), d as int);
        if n == 0 {
            lemma_pow_zero_base(m / 2);
            lemma_small_mod(0, d);
            assert(k * k == 0) by (nonlinear_arith)
                requires
                    k == 0,
            ;
            assert(k * k * n == 0) by (nonlinear_arith)
                requires
                    k == 0,
            ;
        } else {
            assert(k * k <= max && k * k * n <= max) by (nonlinear_arith)
                requires
                    0 <= k <= d - 1,
                    n >= 1,
                    (d - 1) * (d - 1) * n <= max,
            ;
        }
    }
}

/// The fitting condition read at one width implies it at any wider one.
proof fn lemma_fits_widen(n: nat, m: nat, d: nat, a: nat, b: nat)
    requires
        pow_mod_fits(n, m, d, a),
        a <= b,
    ensures
        pow_mod_fits(n, m, d, b),
    decreases m,
{
    if m > 1 {
        lemma_fits_widen(n, m / 2, d, a, b);
    }
}

/// `n^m mod d`: in 64-bit words when the base and modulus are small enough
/// for that, else in 128-bit words.
pub fn pow_mod(n: u64, m: u64, d: u64) -> (r: u64)
    requires
        d > 0 || m == 0,
        (n < 100 && d < 400_000_000) || pow_mod_fits(
            n as nat,
            m as nat,
            d as nat,
            u128::MAX as nat,
        ),
    ensures
        r == pow_mod_spec(n as nat, m as nat, d as nat),
{
    if n < 100 && d < 400_000_000 {
        proof {
            if d > 0 {
                lemma_small_fits(n as nat, m as nat, d as nat);
            } else {
                assert(m == 0);
            }
        }
        pow_mod_inner(n, m, d)
    } else {
        let r = pow_mod_inner_wide(n as u128, m as u128, d as u128);
        proof {
            if d > 0 {
                lemma_mod_bound(pow(n as int, m as nat), d as int);
            }
        }
        r as u64
    }
}

} // verus!
