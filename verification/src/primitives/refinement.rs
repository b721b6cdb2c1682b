//! Integers refined by their sign.
use crate::bigint::{from_u64, less_than, BigInt};
use vstd::prelude::*;

verus! {

/// Why an integer does not have the sign that a refinement asks for.
#[derive(Debug)]
pub enum Error {
    /// The value is zero.
    Zero,
    /// The value is negative.
    Negative(BigInt),
}

/// A type whose values are integers other than zero.
pub trait NonZero {
    /// The integer.
    fn as_nonzero(&self) -> (r: &BigInt)
        ensures
            r@ != 0,
    ;
}

/// A type whose values are integers that are not negative.
pub trait NonNegative {
    /// The integer.
    fn as_nonnegative(&self) -> (r: &BigInt)
        ensures
            r@ >= 0,
    ;
}

/// A type whose values are integers above zero.
pub trait Positive: NonNegative + NonZero {

}

/// An integer other than zero.
#[derive(Debug, PartialEq, Eq)]
pub struct NonZeroInteger(BigInt);

impl Clone for NonZeroInteger {
    fn clone(&self) -> (r: Self)
        ensures
            r.value() == self.value(),
    {
        proof {
            use_type_invariant(self);
        }
        NonZeroInteger(self.0.clone())
    }
}

impl NonZeroInteger {
    #[verifier::type_invariant]
    closed spec fn nonzero(&self) -> bool {
        self.0@ != 0
    }

    /// The integer.
    pub closed spec fn value(&self) -> int {
        self.0@
    }

    /// `value`, unless it is zero.
    pub fn try_from(value: BigInt) -> (r: Result<Self, Error>)
        ensures
            value@ != 0 <==> r is Ok,
            r matches Ok(n) ==> n.value() == value@,
            r matches Err(e) ==> e is Zero,
    {
        if value.is_zero() {
            return Err(Error::Zero);
        }
        Ok(NonZeroInteger(value))
    }

    /// The integer.
    pub fn inner(&self) -> (r: &BigInt)
        ensures
            r@ == self.value(),
            r@ != 0,
    {
        proof {
            use_type_invariant(self);
        }
        &self.0
    }

    /// The integer, taken out.
    pub fn into_inner(self) -> (r: BigInt)
        ensures
            r@ == self.value(),
            r@ != 0,
    {
        proof {
            use_type_invariant(&self);
        }
        self.0
    }
}

impl NonZero for NonZeroInteger {
    fn as_nonzero(&self) -> (r: &BigInt) {
        self.inner()
    }
}

/// An integer that is not negative.
#[derive(Debug, PartialEq, Eq)]
pub struct NonNegativeInteger(BigInt);

impl Clone for NonNegativeInteger {
    fn clone(&self) -> (r: Self)
        ensures
            r.value() == self.value(),
    {
        proof {
            use_type_invariant(self);
        }
        NonNegativeInteger(self.0.clone())
    }
}

impl NonNegativeInteger {
    #[verifier::type_invariant]
    closed spec fn nonnegative(&self) -> bool {
        self.0@ >= 0
    }

    /// The integer.
    pub closed spec fn value(&self) -> int {
        self.0@
    }

    /// `value`, unless it is negative.
    pub fn try_from(value: BigInt) -> (r: Result<Self, Error>)
        ensures
            value@ >= 0 <==> r is Ok,
            r matches Ok(n) ==> n.value() == value@,
            r matches Err(e) ==> (e matches Error::Negative(v) && v@ == value@),
    {
        if value.is_negative() {
            return Err(Error::Negative(value));
        }
        Ok(NonNegativeInteger(value))
    }

    /// The integer.
    pub fn inner(&self) -> (r: &BigInt)
        ensures
            r@ == self.value(),
            r@ >= 0,
    {
        proof {
            use_type_invariant(self);
        }
        &self.0
    }

    /// The integer, taken out.
    pub fn into_inner(self) -> (r: BigInt)
        ensures
            r@ == self.value(),
            r@ >= 0,
    {
        proof {
            use_type_invariant(&self);
        }
        self.0
    }
}

impl NonNegative for NonNegativeInteger {
    fn as_nonnegative(&self) -> (r: &BigInt) {
        self.inner()
    }
}

/// An integer above zero.
#[derive(Debug, PartialEq, Eq)]
pub struct PositiveInteger(BigInt);

impl Clone for PositiveInteger {
    fn clone(&self) -> (r: Self)
        ensures
            r.value() == self.value(),
    {
        proof {
            use_type_invariant(self);
        }
        PositiveInteger(self.0.clone())
    }
}

impl PositiveInteger {
    #[verifier::type_invariant]
    closed spec fn positive(&self) -> bool {
        self.0@ > 0
    }

    /// The integer.
    pub closed spec fn value(&self) -> int {
        self.0@
    }

    /// `value`, if it is above zero; otherwise why not.
    pub fn try_from(value: BigInt) -> (r: Result<Self, Error>)
        ensures
            value@ > 0 <==> r is Ok,
            r matches Ok(n) ==> n.value() == value@,
            r matches Err(e) ==> (value@ == 0 ==> e is Zero) && (value@ < 0 ==> (e matches Error::Negative(
                v,
            ) && v@ == value@)),
    {
        if value.is_negative() {
            return Err(Error::Negative(value));
        }
        if value.is_zero() {
            return Err(Error::Zero);
        }
        Ok(PositiveInteger(value))
    }

    /// The integer.
    pub fn inner(&self) -> (r: &BigInt)
        ensures
            r@ == self.value(),
            r@ > 0,
    {
        proof {
            use_type_invariant(self);
        }
        &self.0
    }

    /// The integer, taken out.
    pub fn into_inner(self) -> (r: BigInt)
        ensures
            r@ == self.value(),
            r@ > 0,
    {
        proof {
            use_type_invariant(&self);
        }
        self.0
    }
}

impl NonNegative for PositiveInteger {
    fn as_nonnegative(&self) -> (r: &BigInt) {
        self.inner()
    }
}

impl NonZero for PositiveInteger {
    fn as_nonzero(&self) -> (r: &BigInt) {
        self.inner()
    }
}

impl Positive for PositiveInteger {

}

} // verus!
