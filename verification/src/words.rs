//! Little-endian sequences of 32-bit words read as natural numbers, and the
//! facts about them that the arithmetic of `ArbitraryFixed` rests on.
use vstd::arithmetic::div_mod::*;
use vstd::arithmetic::mul::*;
use vstd::arithmetic::power2::*;
use vstd::bits::*;
use vstd::prelude::*;

verus! {

/// The base of one word, 2^32.
pub open spec fn base() -> nat {
    0x1_0000_0000nat
}

/// The weight of the word at index `k`: 2^(32k).
pub open spec fn wpow(k: nat) -> nat {
    pow2(32 * k)
}

/// The natural number that the little-endian words `s` spell.
pub open spec fn val(s: Seq<u32>) -> nat
    decreases s.len(),
{
    if s.len() == 0 {
        0
    } else {
        s[0] as nat + base() * val(s.drop_first())
    }
}

/// The word at index `j`, or 0 outside the sequence.
pub open spec fn word(s: Seq<u32>, j: int) -> nat {
    if 0 <= j < s.len() {
        s[j] as nat
    } else {
        0
    }
}

/// The 32 bits of `val(s)` that start `t` bits above the word at index `i`.
pub open spec fn window(s: Seq<u32>, i: int, t: nat) -> nat {
    ((word(s, i + 1) * base() + word(s, i)) / pow2(t)) % base()
}

/// A sequence of `n` zero words.
pub open spec fn zeros(n: nat) -> Seq<u32> {
    Seq::new(n, |i: int| 0u32)
}

pub proof fn lemma_base_is_pow2()
    ensures
        pow2(32) == base(),
        pow2(0) == 1,
{
    lemma2_to64();
}

pub proof fn lemma_wpow_succ(k: nat)
    ensures
        wpow(k + 1) == wpow(k) * base(),
        wpow(0) == 1,
        wpow(k) > 0,
{
    lemma_pow2_adds(32 * k, 32);
    lemma_base_is_pow2();
    lemma_pow2_pos(32 * k);
    assert(32 * (k + 1) == 32 * k + 32);
}

pub proof fn lemma_wpow_adds(j: nat, k: nat)
    ensures
        wpow(j + k) == wpow(j) * wpow(k),
{
    lemma_pow2_adds(32 * j, 32 * k);
    assert(32 * (j + k) == 32 * j + 32 * k);
}

pub proof fn lemma_wpow_le(j: nat, k: nat)
    requires
        j <= k,
    ensures
        wpow(j) <= wpow(k),
{
    if j < k {
        lemma_pow2_strictly_increases(32 * j, 32 * k);
    }
}

pub proof fn lemma_val_bound(s: Seq<u32>)
    ensures
        val(s) < wpow(s.len()),
    decreases s.len(),
{
    lemma_wpow_succ(0);
    if s.len() > 0 {
        let r = s.drop_first();
        lemma_val_bound(r);
        lemma_wpow_succ(r.len());
        let v = val(r);
        let w = wpow(r.len());
        let x = s[0] as nat;
        assert(x + base() * v < w * base()) by (nonlinear_arith)
            requires
                x < base(),
                v < w,
        ;
    }
}

pub proof fn lemma_val_zeros(n: nat)
    ensures
        val(zeros(n)) == 0,
    decreases n,
{
    if n > 0 {
        assert(zeros(n).drop_first() =~= zeros((n - 1) as nat));
        assert(zeros(n)[0] == 0u32);
        lemma_val_zeros((n - 1) as nat);
        assert(val(zeros(n)) == zeros(n)[0] as nat + base() * val(zeros(n).drop_first()));
    } else {
        assert(zeros(n).len() == 0);
    }
}

/// `val` of a sequence splits at any index into the low part and the
/// weighted high part.
pub proof fn lemma_val_split(s: Seq<u32>, k: nat)
    requires
        k <= s.len(),
    ensures
        val(s) == val(s.take(k as int)) + wpow(k) * val(s.skip(k as int)),
    decreases k,
{
    if k == 0 {
        lemma_wpow_succ(0);
        assert(s.take(0) =~= Seq::<u32>::empty());
        assert(s.skip(0) =~= s);
    } else {
        let r = s.drop_first();
        let km = (k - 1) as nat;
        lemma_val_split(r, km);
        assert(s.take(k as int).drop_first() =~= r.take(km as int));
        assert(s.skip(k as int) =~= r.skip(km as int));
        lemma_wpow_succ(km);
        let a = val(r.take(km as int));
        let b = val(r.skip(km as int));
        let w = wpow(km);
        assert(base() * (a + w * b) == base() * a + (w * base()) * b) by (nonlinear_arith);
    }
}

/// Appending one word adds it at the next weight.
pub proof fn lemma_val_take_step(s: Seq<u32>, i: nat)
    requires
        i < s.len(),
    ensures
        val(s.take(i + 1 as int)) == val(s.take(i as int)) + s[i as int] as nat * wpow(i),
{
    let t = s.take((i + 1) as int);
    lemma_val_split(t, i);
    assert(t.take(i as int) =~= s.take(i as int));
    let one = t.skip(i as int);
    assert(one.drop_first() =~= Seq::<u32>::empty());
    assert(val(one.drop_first()) == 0);
    assert(val(one) == s[i as int] as nat);
    lemma_mul_is_commutative(wpow(i) as int, s[i as int] as int);
}

pub proof fn lemma_val_take_full(s: Seq<u32>)
    ensures
        val(s.take(s.len() as int)) == val(s),
{
    assert(s.take(s.len() as int) =~= s);
}

/// Dividing by a word weight drops the low words; the next word is the
/// remainder modulo one base.
pub proof fn lemma_val_digit(s: Seq<u32>, k: nat)
    requires
        k <= s.len(),
    ensures
        val(s) / wpow(k) == val(s.skip(k as int)),
        val(s) % wpow(k) == val(s.take(k as int)),
        k < s.len() ==> (val(s) / wpow(k)) % base() == s[k as int],
        k < s.len() ==> val(s.skip(k as int)) / base() == val(s.skip((k + 1) as int)),
{
    lemma_val_split(s, k);
    lemma_val_bound(s.take(k as int));
    lemma_wpow_succ(k);
    lemma_mul_is_commutative(wpow(k) as int, val(s.skip(k as int)) as int);
    lemma_fundamental_div_mod_converse(
        val(s) as int,
        wpow(k) as int,
        val(s.skip(k as int)) as int,
        val(s.take(k as int)) as int,
    );
    if k < s.len() {
        let h = s.skip(k as int);
        assert(h.drop_first() =~= s.skip((k + 1) as int));
        lemma_mul_is_commutative(base() as int, val(h.drop_first()) as int);
        lemma_fundamental_div_mod_converse(
            val(h) as int,
            base() as int,
            val(h.drop_first()) as int,
            h[0] as int,
        );
    }
}

/// The words of a sequence are fixed by its value.
pub proof fn lemma_val_injective(s: Seq<u32>, u: Seq<u32>)
    requires
        s.len() == u.len(),
        val(s) == val(u),
    ensures
        s =~= u,
{
    assert forall|k: int| 0 <= k < s.len() implies s[k] == u[k] by {
        lemma_val_digit(s, k as nat);
        lemma_val_digit(u, k as nat);
    }
}

/// `val(s)` read from bit `t` on: the lowest word of the result and the rest.
proof fn lemma_window_split(s: Seq<u32>, t: nat)
    requires
        t < 32,
    ensures
        (val(s) / pow2(t)) % base() == window(s, 0, t),
        (val(s) / pow2(t)) / base() == val(if s.len() == 0 {
            s
        } else {
            s.drop_first()
        }) / pow2(t),
{
    lemma_pow2_pos(t);
    lemma_base_is_pow2();
    let p = pow2(t);
    if s.len() == 0 {
        assert(0nat / p == 0) by {
            lemma_basic_div(0, p as int);
        }
    } else {
        let s1 = s.drop_first();
        let n = val(s);
        let r = val(s1);
        // n / base == r
        lemma_mul_is_commutative(base() as int, r as int);
        lemma_fundamental_div_mod_converse(n as int, base() as int, r as int, s[0] as int);
        // (n / p) / base == (n / base) / p
        lemma_div_denominator(n as int, p as int, base() as int);
        lemma_div_denominator(n as int, base() as int, p as int);
        lemma_mul_is_commutative(p as int, base() as int);
        // the low two words and the rest
        let w1 = word(s, 1);
        let r2 = r / base();
        assert(r == w1 + base() * r2) by {
            if s1.len() == 0 {
                assert(r == 0);
                lemma_basic_div(0, base() as int);
            } else {
                lemma_val_digit(s1, 0);
                lemma_wpow_succ(0);
                assert(s1.skip(0) =~= s1);
                lemma_fundamental_div_mod(r as int, base() as int);
            }
        }
        let x = w1 * base() + s[0] as nat;
        let e = pow2((64 - t) as nat);
        lemma_pow2_adds(t, (64 - t) as nat);
        lemma_pow2_adds(32, 32);
        assert(base() * base() == p * e);
        assert(n == x + (base() * base()) * r2) by (nonlinear_arith)
            requires
                n == s[0] as nat + base() * r,
                r == w1 + base() * r2,
                x == w1 * base() + s[0] as nat,
        ;
        assert(n == x + (e * r2) * p) by (nonlinear_arith)
            requires
                n == x + (base() * base()) * r2,
                base() * base() == p * e,
        ;
        lemma_hoist_over_denominator(x as int, (e * r2) as int, p);
        // e == base * 2^(32 - t)
        let f = pow2((32 - t) as nat);
        lemma_pow2_adds(32, (32 - t) as nat);
        assert(e * r2 == base() * (f * r2)) by (nonlinear_arith)
            requires
                e == base() * f,
        ;
        lemma_mod_multiples_vanish((f * r2) as int, (x / p) as int, base() as int);
    }
}

/// Reading `val(s)` from bit `t` on, word by word: if every word of `r` is the
/// matching window of `s`, then `r` spells `val(s) / 2^t` cut to `r`'s length.
pub proof fn lemma_extract_low(s: Seq<u32>, t: nat, r: Seq<u32>)
    requires
        t < 32,
        forall|i: int| 0 <= i < r.len() ==> r[i] as nat == #[trigger] window(s, i, t),
    ensures
        val(r) == (val(s) / pow2(t)) % wpow(r.len()),
    decreases r.len(),
{
    lemma_wpow_succ(0);
    lemma_pow2_pos(t);
    let n = val(s) / pow2(t);
    if r.len() == 0 {
        lemma_mod_self_0(1);
        lemma_small_mod(0, 1);
        assert(n % 1 == 0);
    } else {
        let s1 = if s.len() == 0 {
            s
        } else {
            s.drop_first()
        };
        let r1 = r.drop_first();
        assert forall|i: int| 0 <= i < r1.len() implies r1[i] as nat == #[trigger] window(
            s1,
            i,
            t,
        ) by {
            assert(r1[i] == r[i + 1]);
            assert(window(s, i + 1, t) == window(s1, i, t));
        }
        lemma_extract_low(s1, t, r1);
        lemma_window_split(s, t);
        assert(r[0] as nat == window(s, 0, t));
        lemma_wpow_succ(r1.len());
        lemma_mod_breakdown(n as int, base() as int, wpow(r1.len()) as int);
        lemma_mul_is_commutative(base() as int, wpow(r1.len()) as int);
    }
}

/// Reading `val(s)` from bit `32q + t` on, word by word.
pub proof fn lemma_extract(s: Seq<u32>, q: nat, t: nat, r: Seq<u32>)
    requires
        t < 32,
        forall|i: int| 0 <= i < r.len() ==> r[i] as nat == #[trigger] window(s, q + i, t),
    ensures
        val(r) == (val(s) / pow2(32 * q + t)) % wpow(r.len()),
{
    lemma_pow2_adds(32 * q, t);
    lemma_pow2_pos(t);
    lemma_pow2_pos(32 * q);
    lemma_div_denominator(val(s) as int, wpow(q) as int, pow2(t) as int);
    if q <= s.len() {
        let h = s.skip(q as int);
        lemma_val_digit(s, q);
        assert forall|i: int| 0 <= i < r.len() implies r[i] as nat == #[trigger] window(
            h,
            i,
            t,
        ) by {
            assert(window(s, q + i, t) == window(h, i, t));
        }
        lemma_extract_low(h, t, r);
    } else {
        let h = Seq::<u32>::empty();
        lemma_val_bound(s);
        lemma_wpow_le(s.len(), q);
        lemma_basic_div(val(s) as int, wpow(q) as int);
        assert forall|i: int| 0 <= i < r.len() implies r[i] as nat == #[trigger] window(
            h,
            i,
            t,
        ) by {
            assert(window(s, q + i, t) == window(h, i, t));
        }
        lemma_extract_low(h, t, r);
    }
}

/// One word taken `t` bits into the double word `hi:lo`.
pub proof fn lemma_window_word(hi: u32, lo: u32, t: u32)
    requires
        0 < t < 32,
    ensures
        ((hi << ((32 - t) as u32)) | (lo >> t)) as nat == ((hi as nat * base() + lo as nat)
            / pow2(t as nat)) % base(),
{
    let x: u64 = ((hi as u64) * 0x1_0000_0000u64 + (lo as u64)) as u64;
    let y: u64 = x >> (t as u64);
    assert(((hi << ((32 - t) as u32)) | (lo >> t)) == (y as u32)) by (bit_vector)
        requires
            x == (hi as u64) * 0x1_0000_0000u64 + (lo as u64),
            y == x >> (t as u64),
            0 < t < 32,
    ;
    assert((y as u32) as u64 == y % 0x1_0000_0000u64) by (bit_vector);
    lemma_u64_shr_is_div(x, t as u64);
}

/// The window at bit offset 0 is the low word itself.
pub proof fn lemma_window_word_zero(hi: u32, lo: u32)
    ensures
        lo as nat == ((hi as nat * base() + lo as nat) / pow2(0)) % base(),
{
    lemma_base_is_pow2();
    lemma_mod_multiples_vanish(hi as int, lo as int, base() as int);
    lemma_small_mod(lo as nat, base());
    lemma_mul_is_commutative(hi as int, base() as int);
}

/// A sequence whose words are the base-2^32 digits of `n` spells `n` cut to
/// its length.
pub proof fn lemma_val_of_digits(d: Seq<u32>, n: nat)
    requires
        forall|k: int| 0 <= k < d.len() ==> d[k] as nat == #[trigger] ((n / wpow(k as nat)) % base()),
    ensures
        val(d) == n % wpow(d.len()),
    decreases d.len(),
{
    lemma_wpow_succ(0);
    if d.len() == 0 {
        lemma_small_mod(0, 1);
        assert(n % 1 == 0);
    } else {
        let d1 = d.drop_first();
        let n1 = n / base();
        assert forall|k: int| 0 <= k < d1.len() implies d1[k] as nat == #[trigger] ((n1 / wpow(
            k as nat,
        )) % base()) by {
            assert(d1[k] == d[k + 1]);
            lemma_wpow_succ(k as nat);
            lemma_mul_is_commutative(wpow(k as nat) as int, base() as int);
            lemma_div_denominator(n as int, base() as int, wpow(k as nat) as int);
            assert(((k + 1) as nat) == k as nat + 1);
        }
        lemma_val_of_digits(d1, n1);
        assert(d[0] as nat == (n / wpow(0)) % base());
        assert(n / 1 == n);
        lemma_wpow_succ(d1.len());
        lemma_mod_breakdown(n as int, base() as int, wpow(d1.len()) as int);
        lemma_mul_is_commutative(base() as int, wpow(d1.len()) as int);
    }
}

/// Changing one word changes the value by the difference at that weight.
pub proof fn lemma_val_update(s: Seq<u32>, k: nat, x: u32)
    requires
        k < s.len(),
    ensures
        val(s.update(k as int, x)) + s[k as int] as nat * wpow(k) == val(s) + x as nat * wpow(k),
{
    let u = s.update(k as int, x);
    lemma_val_split(s, k);
    lemma_val_split(u, k);
    assert(u.take(k as int) =~= s.take(k as int));
    let hs = s.skip(k as int);
    let hu = u.skip(k as int);
    assert(hs.drop_first() =~= hu.drop_first());
    let rest = val(hs.drop_first());
    let w = wpow(k);
    assert(w * (s[k as int] + base() * rest) + x * w == w * (x + base() * rest) + s[k as int] * w)
        by (nonlinear_arith);
}

} // verus!
