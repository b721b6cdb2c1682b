//! Prime numbers, as far as a probabilistic test can tell.
use crate::bigint::{less_than, probably_prime, from_u64, passes_prime_test, BigInt};
use crate::primitives::refinement::{NonNegative, NonZero, Positive};
use crate::util::{append_bytes, DataSized, Information};
use crate::bigint::decimal_int;
use vstd::string::StringSliceAdditionalSpecFns;
use vstd::prelude::*;

verus! {

/// A value that the primality test rejected.
#[derive(Debug)]
pub struct CompositeError {
    pub value: BigInt,
}

/// A positive integer that passed the primality test, or a product of such
/// integers (such as a prime power).
#[derive(Debug, PartialEq, Eq, Hash)]
pub struct Prime(BigInt);

impl Prime {
    #[verifier::type_invariant]
    closed spec fn positive(&self) -> bool {
        self.0@ > 0
    }

    /// The integer.
    pub closed spec fn value(&self) -> int {
        self.0@
    }

    /// Wraps `value` without testing it, e.g. for a prime power.
    pub fn new_unchecked(value: BigInt) -> (r: Self)
        requires
            value@ > 0,
        ensures
            r.value() == value@,
    {
        Prime(value)
    }

    /// `value` if it is positive and passes the primality test.
    pub fn try_from(value: BigInt) -> (r: Result<Self, CompositeError>)
        ensures
            r is Ok <==> (value@ > 0 && passes_prime_test(value@)),
            r matches Ok(p) ==> p.value() == value@,
            r matches Err(e) ==> e.value@ == value@,
    {
        let zero = from_u64(0);
        if !less_than(&zero, &value) || !probably_prime(&value) {
            return Err(CompositeError { value });
        }
        Ok(Prime(value))
    }

    /// The integer.
    pub fn inner(&self) -> (r: &BigInt)
        ensures
            r@ == self.value(),
            r@ > 0,
    {
        proof {
            use_type_invariant(self);
        }
        &self.0
    }

    /// The integer, taken out.
    pub fn into_inner(self) -> (r: BigInt)
        ensures
            r@ == self.value(),
            r@ > 0,
    {
        proof {
            use_type_invariant(&self);
        }
        self.0
    }

    /// The debugging text of the prime `v`, as bytes.
    pub open spec fn spec_debug(v: int) -> Seq<u8> {
        "Prime(".spec_bytes() + decimal_int(v) + ")".spec_bytes()
    }

    /// Appends the debugging text of this prime to `out`.
    pub fn write_debug(&self, out: &mut Vec<u8>)
        ensures
            final(out)@ == old(out)@ + Self::spec_debug(self.value()),
    {
        append_bytes(out, "Prime(".as_bytes());
        let digits = self.0.to_decimal();
        append_bytes(out, digits.as_slice());
        append_bytes(out, ")".as_bytes());
    }

    /// Whether the two are the same integer.
    pub fn same(&self, other: &Self) -> (r: bool)
        ensures
            r == (self.value() == other.value()),
    {
        crate::bigint::equals(&self.0, &other.0)
    }
}

impl Clone for Prime {
    fn clone(&self) -> (r: Self)
        ensures
            r.value() == self.value(),
    {
        proof {
            use_type_invariant(self);
        }
        Prime(self.0.clone())
    }
}

impl NonNegative for Prime {
    fn as_nonnegative(&self) -> (r: &BigInt) {
        self.inner()
    }
}

impl NonZero for Prime {
    fn as_nonzero(&self) -> (r: &BigInt) {
        self.inner()
    }
}

impl Positive for Prime {

}

impl DataSized for Prime {
    open spec fn spec_size(&self) -> nat {
        self.size_of_value()
    }

    fn size(&self) -> (r: Information) {
        self.0.size()
    }
}

impl Prime {
    /// The number of bytes of the integer.
    pub closed spec fn size_of_value(&self) -> nat {
        self.0.spec_size()
    }
}

} // verus!
