//! Logical shifts of the 256-bit pattern.
use crate::fixed::{from_raw, lemma_moduli, lemma_pattern, lemma_raw_bound, modulus, ArbitraryFixed, SIZE};
use crate::words::{
    base, lemma_base_is_pow2, lemma_extract, lemma_val_bound, lemma_val_split, lemma_val_zeros,
    lemma_window_word, lemma_window_word_zero, val, window, word, wpow, zeros,
};
use vstd::arithmetic::div_mod::*;
use vstd::arithmetic::mul::*;
use vstd::arithmetic::power2::*;
use vstd::bits::*;
use vstd::prelude::*;

verus! {

/// The number whose pattern is that of `a` shifted left by `n` bits, the bits
/// above 2^256 dropped.
pub open spec fn shifted_left(a: ArbitraryFixed, n: nat) -> ArbitraryFixed {
    from_raw((a.raw() * pow2(n)) as int)
}

/// The number whose pattern is that of `a` shifted right by `n` bits, zeros
/// coming in at the top.
pub open spec fn shifted_right(a: ArbitraryFixed, n: nat) -> ArbitraryFixed {
    from_raw((a.raw() / pow2(n)) as int)
}

/// The word at index `i` of the words `d` shifted left by `n` bits.
pub open spec fn shl_word(d: Seq<u32>, i: int, n: nat) -> nat {
    let q = (n / 32) as int;
    let s = n % 32;
    if s == 0 {
        word(d, i - q)
    } else {
        ((word(d, i - q) * base() + word(d, i - q - 1)) / pow2((32 - s) as nat)) % base()
    }
}

/// The word below any sequence is zero, so prepending zero words moves
/// every word up.
proof fn lemma_word_prepend(d: Seq<u32>, k: nat, j: int)
    ensures
        word(zeros(k) + d, j) == word(d, j - k),
{
}

/// Prepending `k` zero words multiplies by 2^(32k).
pub(crate) proof fn lemma_val_prepend(d: Seq<u32>, k: nat)
    ensures
        val(zeros(k) + d) == wpow(k) * val(d),
{
    let e = zeros(k) + d;
    lemma_val_split(e, k);
    assert(e.take(k as int) =~= zeros(k));
    assert(e.skip(k as int) =~= d);
    lemma_val_zeros(k);
}

/// A pattern shifted right is the number `shifted_right` names.
proof fn lemma_shr_pattern(x: ArbitraryFixed, r: ArbitraryFixed, n: nat)
    requires
        r.raw() == x.raw() / pow2(n),
    ensures
        r == shifted_right(x, n),
{
    lemma_raw_bound(x);
    lemma_pow2_pos(n);
    lemma_div_is_ordered_by_denominator(x.raw() as int, 1, pow2(n) as int);
    assert(x.raw() / 1 == x.raw());
    lemma_small_mod(x.raw() / pow2(n), modulus());
    lemma_pattern(r, (x.raw() / pow2(n)) as int);
}

/// Words built by `shl_word` spell the value shifted left, cut to their
/// length.
pub proof fn lemma_shl_words(d: Seq<u32>, n: nat, r: Seq<u32>)
    requires
        forall|i: int| 0 <= i < r.len() ==> r[i] as nat == #[trigger] shl_word(d, i, n),
    ensures
        val(r) == (val(d) * pow2(n)) % wpow(r.len()),
{
    let q = n / 32;
    let s = n % 32;
    lemma_base_is_pow2();
    if s == 0 {
        let e = zeros(q) + d;
        assert forall|i: int| 0 <= i < r.len() implies r[i] as nat == #[trigger] window(
            e,
            0 + i,
            0,
        ) by {
            assert(r[i] as nat == shl_word(d, i, n));
            lemma_word_prepend(d, q, i);
            lemma_word_prepend(d, q, i + 1);
            let hi = word(e, i + 1);
            let lo = word(e, i);
            lemma_mod_multiples_vanish(hi as int, lo as int, base() as int);
            lemma_small_mod(lo, base());
            lemma_mul_is_commutative(hi as int, base() as int);
        }
        lemma_extract(e, 0, 0, r);
        lemma_val_prepend(d, q);
        assert(32 * q == n);
        lemma_mul_is_commutative(wpow(q) as int, val(d) as int);
        assert(val(e) / 1 == val(e));
        assert(pow2(32 * 0 + 0) == 1);
        assert(val(r) == val(e) % wpow(r.len()));
    } else {
        let e = zeros(q + 1) + d;
        let t = (32 - s) as nat;
        assert forall|i: int| 0 <= i < r.len() implies r[i] as nat == #[trigger] window(
            e,
            0 + i,
            t,
        ) by {
            assert(r[i] as nat == shl_word(d, i, n));
            lemma_word_prepend(d, q + 1, i);
            lemma_word_prepend(d, q + 1, i + 1);
        }
        lemma_extract(e, 0, t, r);
        lemma_val_prepend(d, q + 1);
        // 2^(32(q+1)) == 2^n * 2^t
        lemma_pow2_adds(n, t);
        assert(32 * (q + 1) == n + t);
        lemma_pow2_pos(t);
        let pn = pow2(n);
        let pt = pow2(t);
        let v = val(d);
        assert(wpow(q + 1) == pn * pt);
        assert(val(e) == pt * (v * pn)) by (nonlinear_arith)
            requires
                val(e) == wpow(q + 1) * v,
                wpow(q + 1) == pn * pt,
        ;
        lemma_div_multiples_vanish((v * pn) as int, pt as int);
        assert(pow2(32 * 0 + t) == pt);
        assert(val(r) == (val(e) / pt) % wpow(r.len()));
    }
}

/// Words built by `window` from offset `n` spell the value shifted right.
pub proof fn lemma_shr_words(d: Seq<u32>, n: nat, r: Seq<u32>)
    requires
        r.len() == d.len(),
        forall|i: int| 0 <= i < r.len() ==> r[i] as nat == #[trigger] window(
            d,
            (n / 32) + i,
            n % 32,
        ),
    ensures
        val(r) == val(d) / pow2(n),
{
    let q = n / 32;
    let s = n % 32;
    assert forall|i: int| 0 <= i < r.len() implies r[i] as nat == #[trigger] window(
        d,
        q + i,
        s,
    ) by {
        assert(r[i] as nat == window(d, (n / 32) + i, n % 32));
    }
    lemma_extract(d, q, s, r);
    assert(32 * q + s == n);
    lemma_pow2_pos(n);
    lemma_val_bound(d);
    lemma_div_is_ordered(val(d) as int, wpow(d.len()) as int, pow2(n) as int);
    lemma_div_basics_2(wpow(d.len()) as int);
    lemma_div_is_ordered_by_denominator(wpow(d.len()) as int, 1, pow2(n) as int);
    lemma_small_mod(val(d) / pow2(n), wpow(r.len()));
}

/// Shifted-in zero bits change nothing.
pub(crate) proof fn lemma_zero_fill(x: u32, s: u32)
    requires
        s < 32,
    ensures
        s == 0 ==> (x << s) == x && (x >> s) == x,
        (x << s) == (x << s) | (0u32 >> ((32 - s) as u32)),
        (x >> s) == (0u32 << ((32 - s) as u32)) | (x >> s),
        0u32 == (0u32 << s) | (0u32 >> ((32 - s) as u32)),
        0u32 == (0u32 << ((32 - s) as u32)) | (0u32 >> s),
{
    assert(s == 0 ==> (x << s) == x && (x >> s) == x) by (bit_vector);
    assert((x << s) == (x << s) | (0u32 >> ((32 - s) as u32))) by (bit_vector)
        requires
            s < 32,
    ;
    assert((x >> s) == (0u32 << ((32 - s) as u32)) | (x >> s)) by (bit_vector)
        requires
            s < 32,
    ;
    assert(0u32 == (0u32 << s) | (0u32 >> ((32 - s) as u32))) by (bit_vector)
        requires
            s < 32,
    ;
    assert(0u32 == (0u32 << ((32 - s) as u32)) | (0u32 >> s)) by (bit_vector)
        requires
            s < 32,
    ;
}

/// The exec form of a left-shifted word equals `shl_word`.
pub(crate) proof fn lemma_shl_word_exec(d: Seq<u32>, i: int, n: nat, hi: u32, lo: u32, s: u32, v: u32)
    requires
        s == n % 32,
        hi as nat == word(d, i - (n / 32) as int),
        lo as nat == word(d, i - (n / 32) as int - 1),
        s == 0 ==> v == hi,
        s != 0 ==> v == (hi << s) | (lo >> ((32 - s) as u32)),
    ensures
        v as nat == shl_word(d, i, n),
{
    if s == 0 {
    } else {
        let t = (32 - s) as u32;
        lemma_window_word(hi, lo, t);
        assert((32 - t) as u32 == s);
    }
}

/// The exec form of a right-shifted word equals `window`.
pub(crate) proof fn lemma_shr_word_exec(d: Seq<u32>, k: int, s: u32, hi: u32, lo: u32, v: u32)
    requires
        s < 32,
        hi as nat == word(d, k + 1),
        lo as nat == word(d, k),
        s == 0 ==> v == lo,
        s != 0 ==> v == (hi << ((32 - s) as u32)) | (lo >> s),
    ensures
        v as nat == window(d, k, s as nat),
{
    if s == 0 {
        lemma_window_word_zero(hi, lo);
    } else {
        lemma_window_word(hi, lo, s);
    }
}

impl ArbitraryFixed {
    /// The pattern shifted left by `n` bits, the bits above 2^256 dropped.
    pub fn lshift(&self, n: usize) -> (r: ArbitraryFixed)
        requires
            n < 256,
        ensures
            r.raw() == (self.raw() * pow2(n as nat)) % modulus(),
            r == shifted_left(*self, n as nat),
    {
        if n == 0 {
            proof {
                lemma_base_is_pow2();
                lemma_raw_bound(*self);
                lemma_small_mod(self.raw(), modulus());
                assert(pow2(n as nat) == 1);
                lemma_mul_basics(self.raw() as int);
                assert(self.raw() * pow2(n as nat) == self.raw());
                lemma_pattern(*self, (self.raw() * pow2(n as nat)) as int);
            }
            return *self;
        }
        let mut ret = ArbitraryFixed { data: [0u32; SIZE] };
        let q = n / 32;
        let s = (n % 32) as u32;
        let ghost d = self.data@;
        let mut i: usize = 0;
        while i < q
            invariant
                q == n / 32,
                i <= q < SIZE,
                forall|k: int| 0 <= k < SIZE ==> ret.data[k] == 0,
            decreases q - i,
        {
            ret.data[i] = 0;
            i = i + 1;
        }
        ret.data[q] = self.data[0] << s;
        proof {
            assert forall|k: int| 0 <= k <= q implies ret.data[k] as nat == #[trigger] shl_word(
                d,
                k,
                n as nat,
            ) by {
                lemma_zero_fill(self.data[0], s);
                if k == q {
                    lemma_shl_word_exec(d, k, n as nat, self.data[0], 0, s, ret.data[k]);
                } else {
                    lemma_shl_word_exec(d, k, n as nat, 0, 0, s, 0);
                }
            }
        }
        let mut i: usize = q + 1;
        while i < SIZE
            invariant
                q == n / 32,
                s == n % 32,
                d == self.data@,
                q + 1 <= i <= SIZE,
                forall|k: int| 0 <= k < i ==> ret.data[k] as nat == #[trigger] shl_word(
                    d,
                    k,
                    n as nat,
                ),
            decreases SIZE - i,
        {
            let hi = self.data[i - q];
            let lo = self.data[i - 1 - q];
            let v = if s != 0 {
                (hi << s) | (lo >> (32 - s))
            } else {
                hi
            };
            ret.data[i] = v;
            proof {
                lemma_shl_word_exec(d, i as int, n as nat, hi, lo, s, v);
            }
            i = i + 1;
        }
        proof {
            lemma_shl_words(d, n as nat, ret.data@);
            lemma_pattern(ret, (self.raw() * pow2(n as nat)) as int);
            lemma_moduli();
        }
        ret
    }

    /// The pattern shifted right by `n` bits, zeros coming in at the top.
    pub fn rshift(&self, n: usize) -> (r: ArbitraryFixed)
        requires
            n < 224,
        ensures
            r.raw() == self.raw() / pow2(n as nat),
            r == shifted_right(*self, n as nat),
    {
        if n == 0 {
            proof {
                lemma_base_is_pow2();
                assert(self.raw() / 1 == self.raw());
                lemma_shr_pattern(*self, *self, n as nat);
            }
            return *self;
        }
        let mut ret = ArbitraryFixed { data: [0u32; SIZE] };
        let q = n / 32;
        let s = (n % 32) as u32;
        let ghost d = self.data@;
        let mut i: usize = 0;
        while i < q
            invariant
                q == n / 32,
                i <= q < SIZE - 1,
                forall|k: int| 0 <= k < SIZE ==> ret.data[k] == 0,
            decreases q - i,
        {
            ret.data[SIZE - i - 1] = 0;
            i = i + 1;
        }
        ret.data[SIZE - 1 - q] = self.data[SIZE - 1] >> s;
        proof {
            assert forall|k: int| SIZE - 1 - q <= k < SIZE implies ret.data[k] as nat
                == #[trigger] window(d, q + k, s as nat) by {
                lemma_zero_fill(self.data[7], s);
                if k == SIZE - 1 - q {
                    lemma_shr_word_exec(d, q + k, s, 0, self.data[7], ret.data[k]);
                } else {
                    lemma_shr_word_exec(d, q + k, s, 0, 0, 0);
                }
            }
        }
        let mut i: usize = SIZE - 1 - q;
        while i > 0
            invariant
                q == n / 32,
                s == n % 32,
                d == self.data@,
                q < SIZE - 1,
                i <= SIZE - 1 - q,
                forall|k: int| i <= k < SIZE ==> ret.data[k] as nat == #[trigger] window(
                    d,
                    q + k,
                    s as nat,
                ),
            decreases i,
        {
            i = i - 1;
            let hi = self.data[i + 1 + q];
            let lo = self.data[i + q];
            let v = if s != 0 {
                (hi << (32 - s)) | (lo >> s)
            } else {
                lo
            };
            ret.data[i] = v;
            proof {
                lemma_shr_word_exec(d, q + i, s, hi, lo, v);
            }
        }
        proof {
            lemma_raw_bound(*self);
            lemma_shr_words(d, n as nat, ret.data@);
            lemma_shr_pattern(*self, ret, n as nat);
        }
        ret
    }

    /// The pattern shifted left by one bit.
    pub fn lshift1(&self) -> (r: ArbitraryFixed)
        ensures
            r.raw() == (self.raw() * 2) % modulus(),
            r == shifted_left(*self, 1),
    {
        let ghost d = self.data@;
        let mut ret = ArbitraryFixed { data: [0u32; SIZE] };
        ret.data[0] = self.data[0] << 1u32;
        proof {
            lemma_zero_fill(self.data[0], 1);
            lemma_shl_word_exec(d, 0, 1, self.data[0], 0, 1, ret.data[0]);
        }
        let mut i: usize = 1;
        while i < SIZE
            invariant
                d == self.data@,
                1 <= i <= SIZE,
                forall|k: int| 0 <= k < i ==> ret.data[k] as nat == #[trigger] shl_word(d, k, 1),
            decreases SIZE - i,
        {
            let hi = self.data[i];
            let lo = self.data[i - 1];
            let v = (hi << 1u32) | (lo >> 31u32);
            ret.data[i] = v;
            proof {
                lemma_shl_word_exec(d, i as int, 1, hi, lo, 1, v);
            }
            i = i + 1;
        }
        proof {
            lemma_shl_words(d, 1, ret.data@);
            lemma_pattern(ret, (self.raw() * pow2(1)) as int);
            lemma_moduli();
            lemma2_to64();
        }
        ret
    }

    /// The pattern shifted right by one bit, a zero coming in at the top.
    pub fn rshift1(&self) -> (r: ArbitraryFixed)
        ensures
            r.raw() == self.raw() / 2,
            r == shifted_right(*self, 1),
    {
        let ghost d = self.data@;
        let mut ret = ArbitraryFixed { data: [0u32; SIZE] };
        ret.data[SIZE - 1] = self.data[SIZE - 1] >> 1u32;
        proof {
            lemma_zero_fill(self.data[7], 1);
            lemma_shr_word_exec(d, 7, 1, 0, self.data[7], ret.data[7]);
        }
        let mut i: usize = SIZE - 1;
        while i > 0
            invariant
                d == self.data@,
                i <= SIZE - 1,
                forall|k: int| i <= k < SIZE ==> ret.data[k] as nat == #[trigger] window(
                    d,
                    0 + k,
                    1,
                ),
            decreases i,
        {
            i = i - 1;
            let hi = self.data[i + 1];
            let lo = self.data[i];
            let v = (hi << 31u32) | (lo >> 1u32);
            ret.data[i] = v;
            proof {
                lemma_shr_word_exec(d, 0 + i, 1, hi, lo, v);
            }
        }
        proof {
            lemma_shr_words(d, 1, ret.data@);
            lemma_shr_pattern(*self, ret, 1);
            lemma2_to64();
        }
        ret
    }

    /// The pattern shifted left by `n` bits, `n` less than one word.
    pub fn lshiftword(&self, n: usize) -> (r: ArbitraryFixed)
        requires
            n < 32,
        ensures
            r.raw() == (self.raw() * pow2(n as nat)) % modulus(),
            r == shifted_left(*self, n as nat),
    {
        if n == 0 {
            proof {
                lemma_base_is_pow2();
                lemma_raw_bound(*self);
                lemma_small_mod(self.raw(), modulus());
                assert(pow2(n as nat) == 1);
                lemma_mul_basics(self.raw() as int);
                assert(self.raw() * pow2(n as nat) == self.raw());
                lemma_pattern(*self, (self.raw() * pow2(n as nat)) as int);
            }
            return *self;
        }
        let s = n as u32;
        let ghost d = self.data@;
        let mut ret = ArbitraryFixed { data: [0u32; SIZE] };
        ret.data[0] = self.data[0] << s;
        proof {
            lemma_zero_fill(self.data[0], s);
            lemma_shl_word_exec(d, 0, n as nat, self.data[0], 0, s, ret.data[0]);
        }
        let mut i: usize = 1;
        while i < SIZE
            invariant
                0 < n < 32,
                s == n,
                d == self.data@,
                1 <= i <= SIZE,
                forall|k: int| 0 <= k < i ==> ret.data[k] as nat == #[trigger] shl_word(
                    d,
                    k,
                    n as nat,
                ),
            decreases SIZE - i,
        {
            let hi = self.data[i];
            let lo = self.data[i - 1];
            let v = (hi << s) | (lo >> (32 - s));
            ret.data[i] = v;
            proof {
                lemma_shl_word_exec(d, i as int, n as nat, hi, lo, s, v);
            }
            i = i + 1;
        }
        proof {
            lemma_shl_words(d, n as nat, ret.data@);
            lemma_pattern(ret, (self.raw() * pow2(n as nat)) as int);
            lemma_moduli();
        }
        ret
    }

    /// The pattern shifted right by `n` bits, `n` less than one word.
    pub fn rshiftword(&self, n: usize) -> (r: ArbitraryFixed)
        requires
            n < 32,
        ensures
            r.raw() == self.raw() / pow2(n as nat),
            r == shifted_right(*self, n as nat),
    {
        if n == 0 {
            proof {
                lemma_base_is_pow2();
                assert(self.raw() / 1 == self.raw());
                lemma_shr_pattern(*self, *self, n as nat);
            }
            return *self;
        }
        let s = n as u32;
        let ghost d = self.data@;
        let mut ret = ArbitraryFixed { data: [0u32; SIZE] };
        ret.data[SIZE - 1] = self.data[SIZE - 1] >> s;
        proof {
            lemma_zero_fill(self.data[7], s);
            lemma_shr_word_exec(d, 7, s, 0, self.data[7], ret.data[7]);
        }
        let mut i: usize = SIZE - 1;
        while i > 0
            invariant
                0 < n < 32,
                s == n,
                d == self.data@,
                i <= SIZE - 1,
                forall|k: int| i <= k < SIZE ==> ret.data[k] as nat == #[trigger] window(
                    d,
                    0 + k,
                    s as nat,
                ),
            decreases i,
        {
            i = i - 1;
            let hi = self.data[i + 1];
            let lo = self.data[i];
            let v = (hi << (32 - s)) | (lo >> s);
            ret.data[i] = v;
            proof {
                lemma_shr_word_exec(d, 0 + i, s, hi, lo, v);
            }
        }
        proof {
            lemma_shr_words(d, n as nat, ret.data@);
            lemma_shr_pattern(*self, ret, n as nat);
        }
        ret
    }
}

} // verus!
