//! Comparison by the sign of the difference.
use crate::fixed::{
    half, lemma_moduli, lemma_view_determines, lemma_view_raw, modulus, wrap, ArbitraryFixed,
};
use crate::laws::lemma_wrap_in_range;
use std::cmp::Ordering;
use vstd::arithmetic::div_mod::*;
use vstd::prelude::*;
use vstd::std_specs::cmp::PartialOrdSpec;

verus! {

impl PartialOrd for ArbitraryFixed {
    /// Compares by the sign of `self - other` taken modulo 2^256: less when
    /// the difference reads as negative, equal when it is zero.
    fn partial_cmp(&self, other: &ArbitraryFixed) -> (r: Option<Ordering>) {
        let a = *self - *other;
        if a.is_negative() {
            Some(Ordering::Less)
        } else if a.is_zero() {
            Some(Ordering::Equal)
        } else {
            Some(Ordering::Greater)
        }
    }
}

impl vstd::std_specs::cmp::PartialOrdSpecImpl for ArbitraryFixed {
    open spec fn obeys_partial_cmp_spec() -> bool {
        true
    }

    /// The order of the wrapped difference of the views against zero.
    open spec fn partial_cmp_spec(&self, other: &ArbitraryFixed) -> Option<Ordering> {
        let d = wrap(self@ - other@);
        if d < 0 {
            Some(Ordering::Less)
        } else if d == 0 {
            Some(Ordering::Equal)
        } else {
            Some(Ordering::Greater)
        }
    }
}

/// Two numbers compare equal exactly when they are the same number.
pub proof fn law_compare_equal(a: ArbitraryFixed, b: ArbitraryFixed)
    ensures
        a.partial_cmp_spec(&b) == Some(Ordering::Equal) <==> a == b,
{
    lemma_view_raw(a);
    lemma_view_raw(b);
    lemma_view_determines(a, b);
    lemma_moduli();
    lemma_wrap_in_range(a@ - b@);
}

/// When the difference of two numbers is itself a number (it does not
/// overflow), comparison orders them by their values.
pub proof fn law_compare_orders(a: ArbitraryFixed, b: ArbitraryFixed)
    requires
        a@ - b@ + half() >= 0,
        a@ - b@ < half(),
    ensures
        a.partial_cmp_spec(&b) == Some(Ordering::Less) <==> a@ < b@,
        a.partial_cmp_spec(&b) == Some(Ordering::Greater) <==> a@ > b@,
        a.partial_cmp_spec(&b) == Some(Ordering::Equal) <==> a@ == b@,
{
    lemma_moduli();
    lemma_wrap_in_range(a@ - b@);
}

/// Wrapping commutes with negation, but for the one pattern, 2^255, that is
/// its own negation.
proof fn lemma_wrap_neg(d: int)
    requires
        wrap(d) != -(half() as int),
    ensures
        wrap(-d) == -wrap(d),
{
    lemma_moduli();
    let m = modulus() as int;
    let r = d % m;
    let q = d / m;
    lemma_fundamental_div_mod(d, m);
    lemma_mod_bound(d, m);
    if r == 0 {
        assert(-d == (-q) * m + 0) by (nonlinear_arith)
            requires
                d == m * q + r,
                r == 0,
        ;
        lemma_fundamental_div_mod_converse(-d, m, -q, 0);
    } else {
        assert(-d == (-q - 1) * m + (m - r)) by (nonlinear_arith)
            requires
                d == m * q + r,
        ;
        lemma_fundamental_div_mod_converse(-d, m, -q - 1, m - r);
    }
}

/// Comparing the other way round gives the opposite answer, but for two
/// numbers whose difference wraps to the most negative number, which is its
/// own negation.
pub proof fn law_compare_reverses(a: ArbitraryFixed, b: ArbitraryFixed)
    requires
        wrap(a@ - b@) + half() != 0,
    ensures
        a.partial_cmp_spec(&b) == Some(Ordering::Less) <==> b.partial_cmp_spec(&a) == Some(
            Ordering::Greater,
        ),
        a.partial_cmp_spec(&b) == Some(Ordering::Greater) <==> b.partial_cmp_spec(&a) == Some(
            Ordering::Less,
        ),
        a.partial_cmp_spec(&b) == Some(Ordering::Equal) <==> b.partial_cmp_spec(&a) == Some(
            Ordering::Equal,
        ),
{
    lemma_wrap_neg(a@ - b@);
    assert(b@ - a@ == -(a@ - b@));
}

} // verus!
