//! The fixed-point type, its mathematical reading and its simplest queries.
use crate::words::{
    base, lemma_val_bound, lemma_val_digit, lemma_val_injective, lemma_val_of_digits,
    lemma_val_split, lemma_val_zeros, lemma_wpow_succ, val, wpow, zeros,
};
use vstd::arithmetic::div_mod::*;
use vstd::arithmetic::mul::*;
use vstd::arithmetic::power2::*;
use vstd::prelude::*;

verus! {

/// Number of 32-bit words in a fixed-point number.
pub const SIZE: usize = 8;

/// Number of bits after the binary point.
pub const SCALING_FACTOR: usize = 132;

/// A signed fixed-point number: 256 bits in two's complement, little-endian
/// in 32-bit words, of which the low 132 bits are the fraction.
#[derive(Copy, Clone, Debug, Ord)]
pub struct ArbitraryFixed {
    pub data: [u32; SIZE],
}

/// 2^256, the number of distinct values.
pub open spec fn modulus() -> nat {
    pow2(256)
}

/// 2^255, the first bit pattern that reads as negative.
pub open spec fn half() -> nat {
    pow2(255)
}

/// 2^132, the scale: a view of `one_scaled()` stands for 1.
pub open spec fn one_scaled() -> nat {
    pow2(132)
}

/// The signed reading of a 256-bit pattern.
pub open spec fn signed(r: nat) -> int {
    if r < half() {
        r as int
    } else {
        r - modulus()
    }
}

/// The base-2^32 digit `k` of `n`.
pub open spec fn digit(n: nat, k: nat) -> u32 {
    ((n / wpow(k)) % base()) as u32
}

/// The number whose pattern is `z` taken modulo 2^256.
pub open spec fn from_raw(z: int) -> ArbitraryFixed {
    let n = (z % (modulus() as int)) as nat;
    ArbitraryFixed {
        data: [
            digit(n, 0),
            digit(n, 1),
            digit(n, 2),
            digit(n, 3),
            digit(n, 4),
            digit(n, 5),
            digit(n, 6),
            digit(n, 7),
        ],
    }
}

impl ArbitraryFixed {
    /// The 256-bit pattern read as an unsigned number.
    pub open spec fn raw(&self) -> nat {
        val(self.data@)
    }
}

impl View for ArbitraryFixed {
    /// The scaled value: the number stands for `self@ / 2^132`.
    type V = int;

    open spec fn view(&self) -> int {
        signed(self.raw())
    }
}

pub proof fn lemma_moduli()
    ensures
        modulus() == wpow(8),
        modulus() == 2 * half(),
        half() == wpow(7) * 0x8000_0000,
        one_scaled() == wpow(4) * 16,
        pow2(256) == pow2(132) * pow2(124),
        modulus() > 0,
        half() > 0,
        one_scaled() > 0,
{
    lemma2_to64();
    lemma_pow2_adds(255, 1);
    lemma_pow2_adds(224, 31);
    lemma_pow2_adds(128, 4);
    lemma_pow2_adds(132, 124);
    lemma_pow2_pos(255);
    lemma_pow2_pos(132);
}

pub proof fn lemma_raw_bound(x: ArbitraryFixed)
    ensures
        x.raw() < modulus(),
        x.data@.len() == 8,
{
    lemma_val_bound(x.data@);
    lemma_moduli();
}

/// The pattern of a number is the pattern of its view modulo 2^256.
pub proof fn lemma_view_raw(x: ArbitraryFixed)
    ensures
        x.raw() == x@ % (modulus() as int),
        -(half() as int) <= x@ < half(),
{
    lemma_raw_bound(x);
    lemma_moduli();
    if x.raw() < half() {
        lemma_small_mod(x.raw(), modulus());
    } else {
        lemma_mod_add_multiples_vanish(x@, modulus() as int);
        lemma_small_mod(x.raw(), modulus());
    }
}

/// The signed reading of any integer taken modulo 2^256.
pub open spec fn wrap(z: int) -> int {
    signed((z % (modulus() as int)) as nat)
}

/// `from_raw` gives back the pattern it was built from.
pub proof fn lemma_from_raw(z: int)
    ensures
        from_raw(z).raw() == z % (modulus() as int),
        from_raw(z)@ == wrap(z),
{
    let d = from_raw(z).data@;
    lemma_moduli();
    let n = (z % (modulus() as int)) as nat;
    lemma_mod_bound(z, modulus() as int);
    assert forall|k: int| 0 <= k < d.len() implies d[k] as nat == #[trigger] ((n / wpow(
        k as nat,
    )) % base()) by {
        lemma_wpow_succ(k as nat);
        lemma_mod_bound((n / wpow(k as nat)) as int, base() as int);
    }
    lemma_val_of_digits(d, n);
    lemma_small_mod(n, modulus());
}

/// Two numbers with the same pattern are the same number.
pub proof fn lemma_raw_determines(x: ArbitraryFixed, y: ArbitraryFixed)
    requires
        x.raw() == y.raw(),
    ensures
        x == y,
{
    lemma_val_injective(x.data@, y.data@);
    assert(x.data =~= y.data);
}

/// Every number is `from_raw` of its own pattern.
pub proof fn lemma_from_raw_of_raw(x: ArbitraryFixed)
    ensures
        from_raw(x.raw() as int) == x,
{
    lemma_raw_bound(x);
    lemma_from_raw(x.raw() as int);
    lemma_small_mod(x.raw(), modulus());
    lemma_raw_determines(from_raw(x.raw() as int), x);
}

/// A number whose pattern is `z` modulo 2^256 is `from_raw(z)` and its view
/// is `wrap(z)`.
pub proof fn lemma_pattern(x: ArbitraryFixed, z: int)
    requires
        x.raw() == z % (modulus() as int),
    ensures
        x == from_raw(z),
        x@ == wrap(z),
{
    lemma_from_raw(z);
    lemma_raw_determines(x, from_raw(z));
}

/// The pattern of a view is the pattern of the number.
pub proof fn lemma_wrap_view(x: ArbitraryFixed)
    ensures
        wrap(x@) == x@,
        x@ % (modulus() as int) == x.raw() as int,
{
    lemma_view_raw(x);
}

/// Two numbers are the same exactly when their views are.
pub proof fn lemma_view_determines(x: ArbitraryFixed, y: ArbitraryFixed)
    ensures
        x == y <==> x@ == y@,
{
    lemma_view_raw(x);
    lemma_view_raw(y);
    if x@ == y@ {
        lemma_raw_determines(x, y);
    }
}

impl ArbitraryFixed {
    /// The number whose bits are all zero.
    pub fn zero() -> (r: ArbitraryFixed)
        ensures
            r.raw() == 0,
            r@ == 0,
    {
        let r = ArbitraryFixed { data: [0u32; SIZE] };
        proof {
            assert(r.data@ =~= zeros(8));
            lemma_val_zeros(8);
            lemma_moduli();
        }
        r
    }

    /// The number one, the identity of multiplication: the pattern 2^132.
    pub fn one() -> (r: ArbitraryFixed)
        ensures
            r.raw() == one_scaled(),
            r@ == one_scaled(),
    {
        let mut a = ArbitraryFixed { data: [0u32; SIZE] };
        a.data[SCALING_FACTOR / 32] = 1u32 << ((SCALING_FACTOR % 32) as u32);
        proof {
            assert(1u32 << 4u32 == 16) by (bit_vector);
            let d = a.data@;
            assert(d.take(4) =~= zeros(4));
            assert(d.skip(4).drop_first() =~= zeros(3));
            lemma_val_zeros(4);
            lemma_val_zeros(3);
            lemma_val_split(d, 4);
            lemma_moduli();
            lemma_pow2_strictly_increases(132, 255);
            lemma_pow2_strictly_increases(132, 256);
            lemma_small_mod(one_scaled(), modulus());
        }
        a
    }

    /// Whether every bit is zero.
    pub fn is_zero(&self) -> (r: bool)
        ensures
            r == (self.raw() == 0),
            r == (self@ == 0),
    {
        proof {
            lemma_view_raw(*self);
            lemma_moduli();
            lemma_small_mod(0, modulus());
        }
        let mut i: usize = 0;
        while i < SIZE
            invariant
                i <= SIZE,
                forall|j: int| 0 <= j < i ==> self.data[j] == 0,
            decreases SIZE - i,
        {
            if self.data[i] != 0 {
                proof {
                    lemma_val_digit(self.data@, i as nat);
                    if self.raw() == 0 {
                        lemma_wpow_succ(i as nat);
                        lemma_basic_div(0, wpow(i as nat) as int);
                        lemma_small_mod(0, base());
                    }
                    assert(self.raw() != 0);
                    lemma_view_raw(*self);
                    lemma_moduli();
                    lemma_small_mod(0, modulus());
                }
                return false;
            }
            i = i + 1;
        }
        proof {
            assert(self.data@ =~= zeros(8));
            lemma_val_zeros(8);
        }
        true
    }

    /// Whether the number is one.
    pub fn is_one(&self) -> (r: bool)
        ensures
            r == (self.raw() == one_scaled()),
            r == (self@ == one_scaled()),
    {
        let o = Self::one();
        let r = *self == o;
        proof {
            lemma_view_raw(*self);
            lemma_moduli();
            lemma_pow2_strictly_increases(132, 255);
            lemma_pow2_strictly_increases(132, 256);
            lemma_small_mod(one_scaled(), modulus());
        }
        r
    }

    /// Whether the number is below zero: its top bit is set.
    pub fn is_negative(&self) -> (r: bool)
        ensures
            r == (self.raw() >= half()),
            r == (self@ < 0),
    {
        let top = self.data[SIZE - 1];
        proof {
            lemma_moduli();
            lemma_raw_bound(*self);
            lemma_val_split(self.data@, 7);
            lemma_val_bound(self.data@.take(7));
            let h = self.data@.skip(7);
            assert(h.drop_first() =~= Seq::<u32>::empty());
            assert(val(h.drop_first()) == 0);
            assert(val(h) == top as nat);
            let w = wpow(7);
            let lo = val(self.data@.take(7));
            assert(self.raw() == lo + w * top);
            if top >= 0x8000_0000u32 {
                lemma_mul_inequality(0x8000_0000, top as int, w as int);
                lemma_mul_is_commutative(w as int, top as int);
            } else {
                lemma_mul_inequality(top as int + 1, 0x8000_0000, w as int);
                lemma_mul_is_commutative(w as int, top as int);
                lemma_mul_is_distributive_add(w as int, top as int, 1);
            }
            assert((top & 0x8000_0000u32) > 0 <==> top >= 0x8000_0000u32) by (bit_vector);
        }
        (top & 0x8000_0000u32) > 0
    }
}

impl Default for ArbitraryFixed {
    /// The number zero.
    fn default() -> (r: ArbitraryFixed)
        ensures
            r.raw() == 0,
            r@ == 0,
    {
        ArbitraryFixed::zero()
    }
}

impl PartialEq for ArbitraryFixed {
    fn eq(&self, other: &ArbitraryFixed) -> (r: bool) {
        let mut i: usize = 0;
        while i < SIZE
            invariant
                i <= SIZE,
                forall|j: int| 0 <= j < i ==> self.data[j] == other.data[j],
            decreases SIZE - i,
        {
            if self.data[i] != other.data[i] {
                proof {
                    lemma_view_determines(*self, *other);
                }
                return false;
            }
            i = i + 1;
        }
        proof {
            assert(self.data =~= other.data);
            lemma_view_determines(*self, *other);
        }
        true
    }
}

impl vstd::std_specs::cmp::PartialEqSpecImpl for ArbitraryFixed {
    open spec fn obeys_eq_spec() -> bool {
        true
    }

    /// Two numbers are equal when they stand for the same value.
    open spec fn eq_spec(&self, other: &ArbitraryFixed) -> bool {
        self@ == other@
    }
}

impl Eq for ArbitraryFixed {

}

} // verus!
