//! Commutative groups, written additively, with exponentiation by integers
//! written as multiplication.
use crate::bigint::BigInt;
use vstd::prelude::*;

verus! {

/// A commutative group whose elements are denoted by integers.
///
/// `add` is the group operation, `mul` raises an element to an integer
/// power, `zero` is the identity and `one` the generator.
pub trait Group: Sized + std::fmt::Debug {
    /// The integer that denotes this element.
    spec fn value(&self) -> int;

    /// The integers that denote elements.
    spec fn is_element(v: int) -> bool;

    /// The group operation on denotations.
    spec fn spec_add(a: int, b: int) -> int;

    /// `a` raised to the power `e`.
    spec fn spec_mul(a: int, e: int) -> int;

    /// The identity.
    spec fn spec_zero() -> int;

    /// The generator.
    spec fn spec_one() -> int;

    /// The largest element.
    spec fn spec_max_value() -> int;

    /// The number of bytes an element takes.
    spec fn spec_byte_len() -> nat;

    /// The debugging text of the element denoted by `v`, as bytes.
    spec fn spec_debug(v: int) -> Seq<u8>;

    /// The operation is commutative.
    proof fn lemma_add_commutative(a: int, b: int)
        requires
            Self::is_element(a),
            Self::is_element(b),
        ensures
            Self::spec_add(a, b) == Self::spec_add(b, a),
    ;

    /// The operation is associative.
    proof fn lemma_add_associative(a: int, b: int, c: int)
        requires
            Self::is_element(a),
            Self::is_element(b),
            Self::is_element(c),
        ensures
            Self::spec_add(Self::spec_add(a, b), c) == Self::spec_add(a, Self::spec_add(b, c)),
    ;

    /// `zero` is the identity.
    proof fn lemma_zero_identity(a: int)
        requires
            Self::is_element(a),
        ensures
            Self::spec_add(a, Self::spec_zero()) == a,
            Self::spec_add(Self::spec_zero(), a) == a,
    ;

    /// Elements are closed under the operations.
    proof fn lemma_closed(a: int, b: int, e: int)
        requires
            Self::is_element(a),
            Self::is_element(b),
        ensures
            Self::is_element(Self::spec_add(a, b)),
            Self::is_element(Self::spec_mul(a, e)),
    ;

    /// The named elements are elements.
    proof fn lemma_constants()
        ensures
            Self::is_element(Self::spec_zero()),
            Self::is_element(Self::spec_one()),
            Self::is_element(Self::spec_max_value()),
    ;

    /// The powers 0 and 1.
    proof fn lemma_mul_basics(a: int)
        requires
            Self::is_element(a),
        ensures
            Self::spec_mul(a, 0) == Self::spec_zero(),
            Self::spec_mul(a, 1) == a,
    ;

    /// Powers of a power multiply.
    proof fn lemma_mul_mul(a: int, x: int, y: int)
        requires
            Self::is_element(a),
        ensures
            Self::spec_mul(Self::spec_mul(a, x), y) == Self::spec_mul(a, x * y),
    ;

    /// Powers of one element add.
    proof fn lemma_mul_add(a: int, x: int, y: int)
        requires
            Self::is_element(a),
        ensures
            Self::spec_add(Self::spec_mul(a, x), Self::spec_mul(a, y)) == Self::spec_mul(a, x + y),
    ;

    /// A power of a product is the product of the powers.
    proof fn lemma_mul_distributes(a: int, b: int, e: int)
        requires
            Self::is_element(a),
            Self::is_element(b),
        ensures
            Self::spec_mul(Self::spec_add(a, b), e) == Self::spec_add(
                Self::spec_mul(a, e),
                Self::spec_mul(b, e),
            ),
    ;

    /// Elements take a bounded number of bytes.
    proof fn lemma_byte_len_bound()
        ensures
            0 < Self::spec_byte_len() <= 65536,
    ;

    /// The identity.
    fn zero() -> (r: Self)
        ensures
            r.value() == Self::spec_zero(),
            Self::is_element(r.value()),
    ;

    /// The generator.
    fn one() -> (r: Self)
        ensures
            r.value() == Self::spec_one(),
            Self::is_element(r.value()),
    ;

    /// The largest element.
    fn max_value() -> (r: Self)
        ensures
            r.value() == Self::spec_max_value(),
            Self::is_element(r.value()),
    ;

    /// The number of bytes an element takes.
    fn bytes() -> (r: usize)
        ensures
            r == Self::spec_byte_len(),
    ;

    /// `self + rhs`.
    fn add(&self, rhs: &Self) -> (r: Self)
        ensures
            r.value() == Self::spec_add(self.value(), rhs.value()),
            Self::is_element(r.value()),
    ;

    /// `self` raised to the power `e`.
    fn mul(&self, e: &BigInt) -> (r: Self)
        ensures
            r.value() == Self::spec_mul(self.value(), e@),
            Self::is_element(r.value()),
    ;

    /// Whether the two are the same element.
    fn equals(&self, other: &Self) -> (r: bool)
        ensures
            r == (self.value() == other.value()),
    ;

    /// The element denoted by `v`, if `v` denotes one.
    fn from_integer(v: BigInt) -> (r: Option<Self>)
        ensures
            r is Some <==> Self::is_element(v@),
            r matches Some(g) ==> g.value() == v@,
    ;

    /// Appends the debugging text of this element to `out`.
    fn write_debug(&self, out: &mut Vec<u8>)
        ensures
            final(out)@ == old(out)@ + Self::spec_debug(self.value()),
    ;

    /// A copy of this element.
    fn duplicate(&self) -> (r: Self)
        ensures
            r.value() == self.value(),
            Self::is_element(r.value()),
    ;
}

} // verus!
