//! The compound assignments, each the matching operator stored back.
use crate::basic_ops::mul_value;
use crate::division::{div_value, floor_scaled};
use crate::fixed::{wrap, ArbitraryFixed};
use std::ops::{AddAssign, DivAssign, MulAssign, RemAssign, SubAssign};
use vstd::prelude::*;
use vstd::std_specs::ops::{AddSpec, DivSpec, MulSpec, RemSpec, SubSpec};

verus! {

impl AddAssign for ArbitraryFixed {
    fn add_assign(&mut self, other: ArbitraryFixed)
        ensures
            *final(self) == old(self).add_spec(other),
            final(self)@ == wrap(old(self)@ + other@),
    {
        *self = *self + other;
    }
}

impl SubAssign for ArbitraryFixed {
    fn sub_assign(&mut self, rhs: ArbitraryFixed)
        ensures
            *final(self) == old(self).sub_spec(rhs),
            final(self)@ == wrap(old(self)@ - rhs@),
    {
        *self = *self - rhs;
    }
}

impl MulAssign for ArbitraryFixed {
    fn mul_assign(&mut self, other: ArbitraryFixed)
        ensures
            *final(self) == old(self).mul_spec(other),
            final(self)@ == wrap(mul_value(old(self)@, other@)),
    {
        *self = *self * other;
    }
}

impl DivAssign for ArbitraryFixed {
    fn div_assign(&mut self, rhs: ArbitraryFixed)
        ensures
            *final(self) == old(self).div_spec(rhs),
            final(self)@ == wrap(div_value(old(self)@, rhs@)),
    {
        *self = *self / rhs;
    }
}

impl RemAssign for ArbitraryFixed {
    fn rem_assign(&mut self, rhs: ArbitraryFixed)
        ensures
            *final(self) == old(self).rem_spec(rhs),
            final(self)@ == wrap(
                old(self)@ - mul_value(floor_scaled(wrap(div_value(old(self)@, rhs@))), rhs@),
            ),
    {
        *self = *self % rhs;
    }
}

} // verus!
