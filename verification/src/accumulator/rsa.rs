//! An accumulator in a group of hidden order (such as an RSA group).
//!
//! The digest of a multiset of primes is the generator raised to the
//! product of the members, each as often as it occurs. Membership of `p` with
//! count `c` is shown by the digest without those occurrences; that `p` does
//! not occur further is shown by a non-membership witness against it.
use crate::bigint::{
    abs, coprime, div_rem, equals, extended_gcd, from_u64, gcd_ext, lemma_coprime_gcd, lemma_coprime_one,
    lemma_coprime_product, lemma_coprime_symmetric, multiply, plus,
    power, trunc_div, trunc_rem, BigInt,
};
use crate::accumulator::{Accumulator as AccumulatorTrait, BatchAccumulator};
use crate::keyed_map::{
    assume_data_size_for_map,
    assumed_map_size, entries_size, ids_distinct, lemma_entries_map_dom, lemma_entries_map_index, KeyedMap,
};
use crate::multiset::{
    count_of, counts, entries_product, lemma_counts_dom, lemma_counts_index,
    lemma_occurrences_bound, occurrences, well_formed, Member, MultiSet,
};
use crate::poke;
use crate::primitives::{Collector, Group, Prime, SkipList};
use crate::primitives::skip_list::read_spec;
use crate::util::{DataSized, Information};
use vstd::arithmetic::power::pow;
use vstd::prelude::*;

verus! {

/// The digest of an accumulator: an element of the group.
#[derive(Debug)]
pub struct Digest<G>(G);

impl<G: Group> Digest<G> {
    /// The element.
    pub closed spec fn value(&self) -> int {
        self.0.value()
    }

    /// The digest that is the element `g`.
    pub fn new(g: G) -> (r: Self)
        ensures
            r.value() == g.value(),
    {
        Digest(g)
    }

    /// The element.
    pub fn inner(&self) -> (r: &G)
        ensures
            r.value() == self.value(),
    {
        &self.0
    }

    /// A copy of this digest.
    pub fn duplicate(&self) -> (r: Self)
        ensures
            r.value() == self.value(),
            G::is_element(r.value()),
    {
        Digest(self.0.duplicate())
    }

    /// Whether the two digests are the same element.
    pub fn same(&self, other: &Self) -> (r: bool)
        ensures
            r == (self.value() == other.value()),
    {
        self.0.equals(&other.0)
    }
}

impl<G: Group> Default for Digest<G> {
    /// The generator.
    fn default() -> (r: Self)
        ensures
            r.value() == G::spec_one(),
    {
        Digest(G::one())
    }
}

impl<G: Group> View for Digest<G> {
    type V = int;

    open spec fn view(&self) -> int {
        self.value()
    }
}

impl<G: Group> Member for Digest<G> {
    open spec fn id(&self) -> int {
        self.value()
    }

    fn same(&self, other: &Self) -> (r: bool) {
        Digest::same(self, other)
    }

    fn duplicate(&self) -> (r: Self) {
        Digest::duplicate(self)
    }
}

impl<G: Group + DataSized> DataSized for Digest<G> {
    open spec fn spec_size(&self) -> nat {
        self.element_size()
    }

    fn size(&self) -> (r: Information) {
        self.0.size()
    }
}

impl<G: Group + DataSized> Digest<G> {
    /// The size of the element.
    pub closed spec fn element_size(&self) -> nat {
        self.0.spec_size()
    }
}

/// `member^count` is in the multiset whose digest this witness is raised to
/// that power.
#[derive(Debug)]
pub struct MembershipWitness<G>(G);

impl<G: Group> MembershipWitness<G> {
    /// The element.
    pub closed spec fn value(&self) -> int {
        self.0.value()
    }

    /// Raises the witness to `value`, for `value` added to the multiset.
    fn update(&mut self, value: &BigInt)
        ensures
            final(self).value() == G::spec_mul(old(self).value(), value@),
            G::is_element(final(self).value()),
    {
        let g = self.0.mul(value);
        self.0 = g;
    }

    /// A copy of this witness.
    pub fn duplicate(&self) -> (r: Self)
        ensures
            r.value() == self.value(),
            G::is_element(r.value()),
    {
        MembershipWitness(self.0.duplicate())
    }
}

impl<G: Group + DataSized> DataSized for MembershipWitness<G> {
    open spec fn spec_size(&self) -> nat {
        self.element_size()
    }

    fn size(&self) -> (r: Information) {
        self.0.size()
    }
}

impl<G: Group + DataSized> MembershipWitness<G> {
    /// The size of the element.
    pub closed spec fn element_size(&self) -> nat {
        self.0.spec_size()
    }
}

/// A value does not divide the exponent of the multiset whose digest `d`
/// satisfies `d^exp * base^value == generator`.
#[derive(Debug)]
pub struct NonMembershipWitness<G> {
    exp: BigInt,
    base: G,
}

/// `d^exp * base^value` is the generator: the check of a non-membership
/// witness.
pub open spec fn nonmember_equation<G: Group>(d: int, exp: int, base: int, value: int) -> bool {
    G::spec_add(G::spec_mul(d, exp), G::spec_mul(base, value)) == G::spec_one()
}

/// The witness `(exp, base)` for `value` against digest `d` carried over to
/// the digest with `new_element` added: with `value * s + new_element * t`
/// the gcd, and `exp * t == q * value + r`, it is
/// `(r, base * d^(q * new_element + exp * s))`.
pub open spec fn updated_witness<G: Group>(exp: int, base: int, value: int, new_element: int, d: int) -> (
    int,
    int,
) {
    let (_g, s, t) = gcd_ext(value, new_element);
    let q = trunc_div(exp * t, value);
    (trunc_rem(exp * t, value), G::spec_add(base, G::spec_mul(d, q * new_element + exp * s)))
}

/// Carrying a non-membership witness for `p` over to the digest raised to
/// `x` keeps it valid, where `p * s + x * t == 1`.
pub proof fn lemma_updated_witness_sound<G: Group>(d: int, a: int, b: int, p: int, x: int, s: int, t: int)
    requires
        G::is_element(d),
        G::is_element(b),
        p * s + x * t == 1,
        nonmember_equation::<G>(d, a, b, p),
    ensures
        nonmember_equation::<G>(
            G::spec_mul(d, x),
            trunc_rem(a * t, p),
            G::spec_add(b, G::spec_mul(d, trunc_div(a * t, p) * x + a * s)),
            p,
        ),
{
    let q = trunc_div(a * t, p);
    let r = trunc_rem(a * t, p);
    let k = q * x + a * s;
    let dk = G::spec_mul(d, k);
    G::lemma_closed(d, d, k);
    G::lemma_mul_mul(d, x, r);
    G::lemma_mul_distributes(b, dk, p);
    G::lemma_mul_mul(d, k, p);
    let u = G::spec_mul(d, x * r);
    let v = G::spec_mul(d, k * p);
    let w = G::spec_mul(b, p);
    G::lemma_closed(d, d, x * r);
    G::lemma_closed(d, d, k * p);
    G::lemma_closed(b, b, p);
    G::lemma_add_commutative(w, v);
    G::lemma_add_associative(u, v, w);
    G::lemma_mul_add(d, x * r, k * p);
    assert(x * r + k * p == a) by (nonlinear_arith)
        requires
            r == a * t - p * q,
            k == q * x + a * s,
            p * s + x * t == 1,
    ;
}

/// Splitting a non-membership witness for `e_l * e_r` gives one for `e_l`
/// against the digest raised to `members`, where `e_l * s + members * t == 1`.
pub proof fn lemma_split_witness_sound<G: Group>(
    d: int,
    exp: int,
    b: int,
    e_l: int,
    e_r: int,
    members: int,
    s: int,
    t: int,
)
    requires
        G::is_element(d),
        G::is_element(b),
        e_l * s + members * t == 1,
        nonmember_equation::<G>(d, exp, b, e_l * e_r),
    ensures
        nonmember_equation::<G>(
            G::spec_mul(d, members),
            trunc_rem(exp * t, e_l),
            G::spec_add(
                G::spec_add(G::spec_mul(G::spec_mul(d, exp), s), G::spec_mul(b, e_r)),
                G::spec_mul(d, trunc_div(exp * t, e_l) * members),
            ),
            e_l,
        ),
{
    let q = trunc_div(exp * t, e_l);
    let r = trunc_rem(exp * t, e_l);
    let x = G::spec_mul(G::spec_mul(d, exp), s);
    let y = G::spec_mul(b, e_r);
    let c = G::spec_mul(d, q * members);
    G::lemma_closed(d, d, exp);
    G::lemma_closed(G::spec_mul(d, exp), d, s);
    G::lemma_closed(b, b, e_r);
    G::lemma_closed(d, d, q * members);
    G::lemma_closed(x, y, 0);
    G::lemma_mul_mul(d, members, r);
    G::lemma_mul_distributes(G::spec_add(x, y), c, e_l);
    G::lemma_mul_distributes(x, y, e_l);
    G::lemma_mul_mul(d, exp, s);
    G::lemma_mul_mul(d, exp * s, e_l);
    G::lemma_mul_mul(b, e_r, e_l);
    G::lemma_mul_mul(d, q * members, e_l);
    let aa = G::spec_mul(d, members * r);
    let pp = G::spec_mul(d, exp * s * e_l);
    let qq = G::spec_mul(b, e_r * e_l);
    let cc = G::spec_mul(d, q * members * e_l);
    G::lemma_closed(d, d, members * r);
    G::lemma_closed(d, d, exp * s * e_l);
    G::lemma_closed(b, b, e_r * e_l);
    G::lemma_closed(d, d, q * members * e_l);
    G::lemma_add_associative(pp, qq, cc);
    G::lemma_add_commutative(qq, cc);
    G::lemma_add_associative(pp, cc, qq);
    G::lemma_closed(pp, cc, 0);
    G::lemma_add_associative(aa, G::spec_add(pp, cc), qq);
    G::lemma_add_associative(aa, pp, cc);
    G::lemma_mul_add(d, members * r, exp * s * e_l);
    G::lemma_mul_add(d, members * r + exp * s * e_l, q * members * e_l);
    assert(members * r + exp * s * e_l + q * members * e_l == exp) by (nonlinear_arith)
        requires
            r == exp * t - e_l * q,
            e_l * s + members * t == 1,
    ;
    assert(e_r * e_l == e_l * e_r) by (nonlinear_arith);
}

/// The witness `(s, generator^t)` for `v` against the digest
/// `generator^e` holds when `e * s + v * t == 1`.
pub proof fn lemma_fresh_witness_sound<G: Group>(e: int, v: int, s: int, t: int)
    requires
        e * s + v * t == 1,
    ensures
        nonmember_equation::<G>(G::spec_mul(G::spec_one(), e), s, G::spec_mul(G::spec_one(), t), v),
{
    let g = G::spec_one();
    G::lemma_constants();
    G::lemma_mul_mul(g, e, s);
    G::lemma_mul_mul(g, t, v);
    G::lemma_mul_add(g, e * s, t * v);
    G::lemma_mul_basics(g);
    assert(e * s + t * v == 1) by (nonlinear_arith)
        requires
            e * s + v * t == 1,
    ;
}

/// The witness `(1, generator^0)` holds for any value against the
/// generator.
pub proof fn lemma_trivial_witness_sound<G: Group>(v: int)
    ensures
        nonmember_equation::<G>(G::spec_mul(G::spec_one(), 1), 1, G::spec_mul(G::spec_one(), 0), v),
{
    let g = G::spec_one();
    G::lemma_constants();
    G::lemma_mul_basics(g);
    G::lemma_mul_mul(g, 0, v);
    G::lemma_mul_basics(G::spec_mul(g, 1));
    G::lemma_zero_identity(g);
    assert(0 * v == 0);
}

impl<G: Group> NonMembershipWitness<G> {
    /// The exponent of the digest.
    pub closed spec fn exp(&self) -> int {
        self.exp@
    }

    /// The element raised to the value.
    pub closed spec fn base(&self) -> int {
        self.base.value()
    }

    fn new(exp: BigInt, base: G) -> (r: Self)
        ensures
            r.exp() == exp@,
            r.base() == base.value(),
    {
        NonMembershipWitness { exp, base }
    }

    /// A copy of this witness.
    pub fn duplicate(&self) -> (r: Self)
        ensures
            r.exp() == self.exp(),
            r.base() == self.base(),
            G::is_element(r.base()),
    {
        NonMembershipWitness { exp: self.exp.clone(), base: self.base.duplicate() }
    }

    /// Update this nonmembership witness for `value` with respect to `digest`.
    ///
    /// The result will be a valid nonmembership witness for `value` with
    /// respect to a new digest that has `new_element` added in.
    ///
    /// From [LLX07].
    fn update(&mut self, value: &Prime, new_element: &Prime, digest: &Digest<G>)
        ensures
            value.value() == new_element.value() ==> *final(self) == *old(self),
            value.value() != new_element.value() ==> (final(self).exp(), final(self).base())
                == updated_witness::<G>(
                old(self).exp(),
                old(self).base(),
                value.value(),
                new_element.value(),
                digest.value(),
            ),
            value.value() != new_element.value() ==> G::is_element(final(self).base()),
            value.value() != new_element.value() && coprime(value.value(), new_element.value())
                && nonmember_equation::<G>(digest.value(), old(self).exp(), old(self).base(), value.value())
                && G::is_element(digest.value()) && G::is_element(old(self).base()) ==> nonmember_equation::<G>(
                G::spec_mul(digest.value(), new_element.value()),
                final(self).exp(),
                final(self).base(),
                value.value(),
            ),
    {
        // If we're adding another copy of *this* value to the accumulator, no
        // update is necessary (the proof is still against the same digest as
        // before!).
        if value.same(new_element) {
            return;
        }

        // new_exp * member + _ * value = 1
        let (gcd, s, t) = extended_gcd(value.inner(), new_element.inner());
        proof {
            if coprime(value.value(), new_element.value()) {
                lemma_coprime_gcd(value.value(), new_element.value(), gcd@, s@, t@);
                if nonmember_equation::<G>(digest.value(), self.exp(), self.base(), value.value())
                    && G::is_element(digest.value()) && G::is_element(self.base()) {
                    lemma_updated_witness_sound::<G>(
                        digest.value(),
                        self.exp(),
                        self.base(),
                        value.value(),
                        new_element.value(),
                        s@,
                        t@,
                    );
                }
            }
        }

        let (q, r) = div_rem(&multiply(&self.exp, &t), value.inner());
        let new_exp = r;

        let shift = digest.0.mul(&plus(&multiply(&q, new_element.inner()), &multiply(&self.exp, &s)));
        let new_base = self.base.add(&shift);

        self.exp = new_exp;
        self.base = new_base;
    }

    /// The witness for a value against the digest of nothing.
    fn for_one() -> (r: Self)
        ensures
            r.exp() == 1,
            r.base() == G::spec_zero(),
    {
        NonMembershipWitness { exp: from_u64(1), base: G::zero() }
    }

    /// The witness for `nonmember` against the digest `generator^exponent`:
    /// with `exponent * s + nonmember * t` the gcd, it is
    /// `(s, generator^t)`.
    fn prove(exponent: &BigInt, nonmember: &BigInt) -> (r: Self)
        ensures
            r.exp() == gcd_ext(exponent@, nonmember@).1,
            r.base() == G::spec_mul(G::spec_one(), gcd_ext(exponent@, nonmember@).2),
            G::is_element(r.base()),
            coprime(exponent@, nonmember@) ==> nonmember_equation::<G>(
                G::spec_mul(G::spec_one(), exponent@),
                r.exp(),
                r.base(),
                nonmember@,
            ),
            exponent@ == 1 && nonmember@ >= 2 ==> r.exp() == 1 && r.base() == G::spec_mul(G::spec_one(), 0),
    {
        let (gcd, s, t) = extended_gcd(exponent, nonmember);
        proof {
            if coprime(exponent@, nonmember@) {
                lemma_coprime_gcd(exponent@, nonmember@, gcd@, s@, t@);
                lemma_fresh_witness_sound::<G>(exponent@, nonmember@, s@, t@);
            }
            if exponent@ == 1 && nonmember@ >= 2 {
                if gcd@ != 1 {
                    assert(gcd@ >= 2);
                    vstd::arithmetic::div_mod::lemma_small_mod(1, gcd@ as nat);
                }
                assert(s@ + nonmember@ * t@ == 1);
                if nonmember@ == 2 {
                    assert(t@ == 0);
                } else {
                    assert(2 * abs(t@) < 1);
                    assert(t@ == 0);
                }
                assert(nonmember@ * 0 == 0);
            }
        }
        let d = G::one().mul(&t);
        NonMembershipWitness { exp: s, base: d }
    }

    /// Split this nonmembership proof for `e_l * e_r` with respect to `digest`.
    ///
    /// Result will be a nonmembership proof for `e_l` with respect to a new
    /// digest: `digest` with `members` added.
    ///
    /// If `members == e_r`, this is [TXN20, §3.2]: "Computing all
    /// Non-membership Witnesses Across Different, Related Accumulators."
    fn split(&self, digest: &Digest<G>, e_l: &BigInt, e_r: &BigInt, members: &BigInt) -> (r: (
        Digest<G>,
        Self,
    ))
        requires
            e_l@ != 0,
        ensures
            r.0.value() == G::spec_mul(digest.value(), members@),
            (r.1.exp(), r.1.base()) == split_witness::<G>(
                self.exp(),
                self.base(),
                digest.value(),
                e_l@,
                e_r@,
                members@,
            ),
            G::is_element(r.0.value()),
            G::is_element(r.1.base()),
            coprime(e_l@, members@) && nonmember_equation::<G>(digest.value(), self.exp(), self.base(), e_l@ * e_r@)
                && G::is_element(digest.value()) && G::is_element(self.base()) ==> nonmember_equation::<G>(
                r.0.value(),
                r.1.exp(),
                r.1.base(),
                e_l@,
            ),
    {
        // s * e_l + t * members = 1
        let (gcd, s, t) = extended_gcd(e_l, members);
        proof {
            if coprime(e_l@, members@) {
                lemma_coprime_gcd(e_l@, members@, gcd@, s@, t@);
                if nonmember_equation::<G>(digest.value(), self.exp(), self.base(), e_l@ * e_r@)
                    && G::is_element(digest.value()) && G::is_element(self.base()) {
                    lemma_split_witness_sound::<G>(
                        digest.value(),
                        self.exp(),
                        self.base(),
                        e_l@,
                        e_r@,
                        members@,
                        s@,
                        t@,
                    );
                }
            }
        }

        let new_digest = Digest(digest.0.mul(members));

        // => a = a * s * e_l + a * t * e_r
        let at = multiply(&self.exp, &t);
        let b = digest.0.mul(&self.exp).mul(&s).add(&self.base.mul(e_r));

        // reduce a * t mod e_l
        let (q, r) = div_rem(&at, e_l);
        let b = b.add(&digest.0.mul(&multiply(&q, members)));
        (new_digest, NonMembershipWitness { exp: r, base: b })
    }
}

/// The witness `(exp, base)` for `e_l * e_r` against digest `d`, split into
/// one for `e_l` against `d^members`.
pub open spec fn split_witness<G: Group>(
    exp: int,
    base: int,
    d: int,
    e_l: int,
    e_r: int,
    members: int,
) -> (int, int) {
    let (_g, s, t) = gcd_ext(e_l, members);
    let at = exp * t;
    let b = G::spec_add(G::spec_mul(G::spec_mul(d, exp), s), G::spec_mul(base, e_r));
    (trunc_rem(at, e_l), G::spec_add(b, G::spec_mul(d, trunc_div(at, e_l) * members)))
}

impl<G: Group + DataSized> DataSized for NonMembershipWitness<G> {
    open spec fn spec_size(&self) -> nat {
        self.parts_size()
    }

    fn size(&self) -> (r: Information) {
        self.exp.size().plus(self.base.size())
    }
}

impl<G: Group + DataSized> NonMembershipWitness<G> {
    /// The sizes of the exponent and the base.
    pub closed spec fn parts_size(&self) -> nat {
        self.exp.spec_size() + self.base.spec_size()
    }
}

/// A member together with its count and `index^count`.
#[derive(Debug)]
struct MemberCount {
    index: BigInt,
    count: u32,
    /// index^count
    value: BigInt,
}

impl MemberCount {
    fn new(index: BigInt, count: u32) -> (r: Self)
        ensures
            r.index@ == index@,
            r.count == count,
            r.value@ == pow(index@, count as nat),
    {
        let value = power(&index, count);
        MemberCount { index, count, value }
    }
}

/// The product of the members' indexes, and that of their values.
pub open spec fn index_product(indexes: Seq<int>) -> int
    decreases indexes.len(),
{
    if indexes.len() == 0 {
        1
    } else {
        index_product(indexes.drop_last()) * indexes.last()
    }
}

spec fn member_indexes(members: Seq<MemberCount>) -> Seq<int> {
    members.map_values(|m: MemberCount| m.index@)
}

spec fn member_values(members: Seq<MemberCount>) -> Seq<int> {
    members.map_values(|m: MemberCount| m.value@)
}

/// Batch computation on accumulators often requires collecting the product of a
/// bunch of indexes and exponents.
#[derive(Debug)]
struct Intermediate {
    index: BigInt,
    exponent: BigInt,
}

impl Intermediate {
    fn from_members(members: &[MemberCount]) -> (r: Self)
        ensures
            r.index@ == index_product(member_indexes(members@)),
            r.exponent@ == index_product(member_values(members@)),
    {
        let r = Self::from_range(members, 0, members.len());
        assert(members@.subrange(0, members@.len() as int) =~= members@);
        r
    }

    /// The products for the members `lo..hi`.
    fn from_range(members: &[MemberCount], lo: usize, hi: usize) -> (r: Self)
        requires
            lo <= hi <= members@.len(),
        ensures
            r.index@ == index_product(member_indexes(members@.subrange(lo as int, hi as int))),
            r.exponent@ == index_product(member_values(members@.subrange(lo as int, hi as int))),
    {
        let mut index = from_u64(1);
        let mut exponent = from_u64(1);
        let mut i: usize = lo;
        proof {
            assert(member_indexes(members@.subrange(lo as int, lo as int)) =~= Seq::<int>::empty());
            assert(member_values(members@.subrange(lo as int, lo as int)) =~= Seq::<int>::empty());
        }
        while i < hi
            invariant
                lo <= i <= hi <= members@.len(),
                index@ == index_product(member_indexes(members@.subrange(lo as int, i as int))),
                exponent@ == index_product(member_values(members@.subrange(lo as int, i as int))),
            decreases hi - i,
        {
            proof {
                let p = members@.subrange(lo as int, i + 1);
                assert(p.drop_last() =~= members@.subrange(lo as int, i as int));
                assert(member_indexes(p).drop_last() =~= member_indexes(p.drop_last()));
                assert(member_values(p).drop_last() =~= member_values(p.drop_last()));
            }
            index = multiply(&index, &members[i].index);
            exponent = multiply(&exponent, &members[i].value);
            i += 1;
        }
        Intermediate { index, exponent }
    }
}

/// A proof that `member` occurs exactly as often as claimed: a membership
/// witness (absent for the count zero) and a non-membership witness against
/// the digest without those occurrences.
#[derive(Debug)]
pub struct Witness<G> {
    member: Option<MembershipWitness<G>>,
    nonmember: NonMembershipWitness<G>,
}

impl<G: Group> View for Witness<G> {
    type V = (Option<int>, int, int);

    closed spec fn view(&self) -> (Option<int>, int, int) {
        (
            match self.member {
                Some(m) => Some(m.value()),
                None => None,
            },
            self.nonmember.exp(),
            self.nonmember.base(),
        )
    }
}

impl<G: Group> Witness<G> {
    fn new(member: MembershipWitness<G>, nonmember: NonMembershipWitness<G>) -> (r: Self)
        ensures
            r@ == (Some(member.value()), nonmember.exp(), nonmember.base()),
    {
        Witness { member: Some(member), nonmember }
    }

    fn for_zero(nonmember: NonMembershipWitness<G>) -> (r: Self)
        ensures
            r@ == (None::<int>, nonmember.exp(), nonmember.base()),
    {
        Witness { member: None, nonmember }
    }

    /// A copy of this witness.
    pub fn duplicate(&self) -> (r: Self)
        ensures
            r@ == self@,
    {
        let member = match &self.member {
            Some(m) => Some(m.duplicate()),
            None => None,
        };
        Witness { member, nonmember: self.nonmember.duplicate() }
    }
}

impl<G: Group + DataSized> DataSized for Witness<G> {
    open spec fn spec_size(&self) -> nat {
        self.parts_size()
    }

    fn size(&self) -> (r: Information) {
        self.member.size().plus(self.nonmember.size())
    }
}

impl<G: Group + DataSized> Witness<G> {
    /// The sizes of the two witnesses.
    pub closed spec fn parts_size(&self) -> nat {
        self.member.spec_size() + self.nonmember.spec_size()
    }
}

/// `g` raised to each of `es` in turn.
pub open spec fn raise_all<G: Group>(g: int, es: Seq<int>) -> int
    decreases es.len(),
{
    if es.len() == 0 {
        g
    } else {
        G::spec_mul(raise_all::<G>(g, es.drop_last()), es.last())
    }
}

/// Whether the witness `w` (as its view) shows that `index` occurs `count`
/// times in the multiset whose digest is `d`.
pub open spec fn witness_verdict<G: Group>(d: int, index: int, count: nat, w: (Option<int>, int, int)) -> bool {
    match w.0 {
        Some(m) => G::spec_mul(m, pow(index, count)) == d && nonmember_equation::<G>(m, w.1, w.2, index),
        None => count == 0 && nonmember_equation::<G>(d, w.1, w.2, index),
    }
}

impl<G: Group> Digest<G> {
    fn for_members(members: &[MemberCount]) -> (r: Self)
        ensures
            r.value() == raise_all::<G>(G::spec_one(), member_values(members@)),
            G::is_element(r.value()),
    {
        let mut g = G::one();
        let mut i: usize = 0;
        while i < members.len()
            invariant
                i <= members@.len(),
                g.value() == raise_all::<G>(G::spec_one(), member_values(members@.subrange(0, i as int))),
                G::is_element(g.value()),
            decreases members@.len() - i,
        {
            proof {
                let p = members@.subrange(0, i + 1);
                assert(p.drop_last() =~= members@.subrange(0, i as int));
                assert(member_values(p).drop_last() =~= member_values(p.drop_last()));
            }
            g = g.mul(&members[i].value);
            i += 1;
        }
        assert(members@.subrange(0, members@.len() as int) =~= members@);
        Digest(g)
    }

    fn for_exponent(exponent: &BigInt) -> (r: Self)
        ensures
            r.value() == G::spec_mul(G::spec_one(), exponent@),
    {
        Digest(G::one().mul(exponent))
    }

    fn accumulate(&mut self, member: &MemberCount)
        ensures
            final(self).value() == G::spec_mul(old(self).value(), member.value@),
    {
        let g = self.0.mul(&member.value);
        self.0 = g;
    }

    fn accumulate_many(&mut self, members: &[MemberCount])
        ensures
            final(self).value() == raise_all::<G>(old(self).value(), member_values(members@)),
    {
        let ghost start = self.value();
        let mut i: usize = 0;
        while i < members.len()
            invariant
                i <= members@.len(),
                self.value() == raise_all::<G>(start, member_values(members@.subrange(0, i as int))),
            decreases members@.len() - i,
        {
            proof {
                let p = members@.subrange(0, i + 1);
                assert(p.drop_last() =~= members@.subrange(0, i as int));
                assert(member_values(p).drop_last() =~= member_values(p.drop_last()));
            }
            self.accumulate(&members[i]);
            i += 1;
        }
        assert(members@.subrange(0, members@.len() as int) =~= members@);
    }

    /// Whether `witness` raised to `index^count` is this digest.
    fn verify_member(&self, index: &BigInt, count: u32, witness: &MembershipWitness<G>) -> (r: bool)
        ensures
            r == (G::spec_mul(witness.value(), pow(index@, count as nat)) == self.value()),
    {
        let member = power(index, count);
        witness.0.mul(&member).equals(&self.0)
    }

    fn verify_member_option(&self, member: &MemberCount, witness: &Option<MembershipWitness<G>>) -> (r:
        bool)
        ensures
            r == match witness {
                Some(inner) => G::spec_mul(inner.value(), pow(member.index@, member.count as nat))
                    == self.value(),
                None => member.count == 0,
            },
    {
        match witness {
            Some(inner) => self.verify_member(&member.index, member.count, inner),
            None => member.count == 0,
        }
    }

    /// Whether `witness` shows that `member` does not divide this digest's
    /// exponent.
    fn verify_nonmember(&self, member: &BigInt, witness: &NonMembershipWitness<G>) -> (r: bool)
        ensures
            r == nonmember_equation::<G>(self.value(), witness.exp(), witness.base(), member@),
    {
        // https://link.springer.com/content/pdf/10.1007/978-3-540-72738-5_17.pdf
        let l = self.0.mul(&witness.exp);
        let r = witness.base.mul(member);
        l.add(&r).equals(&G::one())
    }

    /// Whether `witness` shows that `index` occurs exactly `count` times.
    fn verify_counted(&self, index: &BigInt, count: u32, witness: &Witness<G>) -> (r: bool)
        ensures
            r == witness_verdict::<G>(self.value(), index@, count as nat, witness@),
    {
        match &witness.member {
            Some(mem_pf) => {
                self.verify_member(index, count, mem_pf) && Digest(mem_pf.0.duplicate()).verify_nonmember(
                    index,
                    &witness.nonmember,
                )
            },
            None => {
                // Special-case: revision = 0 has no membership proof.
                count == 0 && self.verify_nonmember(index, &witness.nonmember)
            },
        }
    }

    fn verify(&self, member: &MemberCount, witness: &Witness<G>) -> (r: bool)
        ensures
            r == witness_verdict::<G>(self.value(), member.index@, member.count as nat, witness@),
    {
        self.verify_counted(&member.index, member.count, witness)
    }
}

/// A record of one step of the accumulator: what was added, and the digest
/// after it.
#[derive(Debug)]
pub struct HistoryEntry<G> {
    exponent: BigInt,
    end_digest: Digest<G>,
}

impl<G: Group> View for HistoryEntry<G> {
    type V = (int, int);

    closed spec fn view(&self) -> (int, int) {
        (self.exponent@, self.end_digest.value())
    }
}

impl<G: Group> HistoryEntry<G> {
    fn new(exponent: BigInt, end_digest: Digest<G>) -> (r: Self)
        ensures
            r@ == (exponent@, end_digest.value()),
    {
        HistoryEntry { exponent, end_digest }
    }
}

/// A proof of knowledge of the exponent from one history entry to a later
/// one, where it could be made.
#[derive(Debug)]
pub struct StepProof<G>(Option<poke::Proof<G>>);

impl<G: Group> View for StepProof<G> {
    type V = Option<(int, int, int)>;

    closed spec fn view(&self) -> Option<(int, int, int)> {
        match self.0 {
            Some(p) => Some(p@),
            None => None,
        }
    }
}

impl<G: Group> StepProof<G> {
    /// The proof, if there is one.
    pub fn inner(&self) -> (r: &Option<poke::Proof<G>>)
        ensures
            r is Some <==> self@ is Some,
            r matches Some(p) ==> self@ == Some(p@),
    {
        &self.0
    }
}

impl<G: Group + DataSized> DataSized for StepProof<G> {
    open spec fn spec_size(&self) -> nat {
        self.proof_size()
    }

    fn size(&self) -> (r: Information) {
        self.0.size()
    }
}

impl<G: Group + DataSized> StepProof<G> {
    /// The size of the proof, zero where there is none.
    pub closed spec fn proof_size(&self) -> nat {
        self.0.spec_size()
    }
}

impl<G: Group> Collector for HistoryEntry<G> {
    type Item = HistoryEntry<G>;

    type Proof = StepProof<G>;

    open spec fn spec_init(item: (int, int)) -> (int, int) {
        item
    }

    open spec fn spec_collect(c: (int, int), item: (int, int)) -> (int, int) {
        (c.0 * item.0, c.1)
    }

    open spec fn spec_to_proof(c: (int, int), item: (int, int)) -> Option<(int, int, int)> {
        if G::spec_mul(item.1, c.0) == c.1 {
            poke::spec_prove::<G>(c.1, item.1, c.0)
        } else {
            None
        }
    }

    fn init(item: &HistoryEntry<G>) -> (r: Self) {
        HistoryEntry { exponent: item.exponent.clone(), end_digest: item.end_digest.duplicate() }
    }

    fn collect(&mut self, item: &HistoryEntry<G>) {
        self.exponent = multiply(&self.exponent, &item.exponent);
    }

    fn to_proof(&self, item: &HistoryEntry<G>) -> (r: StepProof<G>) {
        let u = item.end_digest.0.duplicate();
        if !u.mul(&self.exponent).equals(&self.end_digest.0) {
            return StepProof(None);
        }
        let instance = poke::Instance { w: self.end_digest.0.duplicate(), u };
        let zku = poke::ZKUniverse::<G>::default();
        StepProof(zku.prove(instance, poke::Witness { x: self.exponent.clone() }))
    }

    fn clone_item(item: &HistoryEntry<G>) -> (r: HistoryEntry<G>) {
        HistoryEntry { exponent: item.exponent.clone(), end_digest: item.end_digest.duplicate() }
    }

    fn clone_proof(given: &StepProof<G>) -> (r: StepProof<G>) {
        match &given.0 {
            Some(p) => StepProof(Some(p.duplicate())),
            None => StepProof(None),
        }
    }
}

impl<G: Group + DataSized> DataSized for HistoryEntry<G> {
    open spec fn spec_size(&self) -> nat {
        self.parts_size()
    }

    fn size(&self) -> (r: Information) {
        self.exponent.size().plus(self.end_digest.size())
    }
}

impl<G: Group + DataSized> HistoryEntry<G> {
    /// The sizes of the exponent and the digest.
    pub closed spec fn parts_size(&self) -> nat {
        self.exponent.spec_size() + self.end_digest.spec_size()
    }
}

/// The digest raised to the product of the members: `generator^e`.
pub open spec fn digest_of<G: Group>(e: int) -> int {
    G::spec_mul(G::spec_one(), e)
}

/// The membership witness for a member `p` with count `c` in a multiset with
/// product `e`: the digest without those occurrences.
pub open spec fn member_witness_ok<G: Group>(e: int, p: int, c: nat, m: int) -> bool {
    &&& pow(p, c) > 0
    &&& e % pow(p, c) == 0
    &&& m == digest_of::<G>(e / pow(p, c))
}

/// A cached witness for `p` with count `c` against the multiset with product
/// `e`.
pub open spec fn cached_witness_ok<G: Group>(e: int, p: int, c: nat, w: (Option<int>, int, int)) -> bool {
    &&& w.0 is Some
    &&& member_witness_ok::<G>(e, p, c, w.0.unwrap())
    &&& G::is_element(w.0.unwrap())
    &&& G::is_element(w.2)
}

/// The non-membership witness that `prove_nonmember` computes for `value`
/// against the multiset with product `e`: `(s, generator^t)` for the Bézout
/// coefficients of `e * s + value * t`.
pub open spec fn fresh_nonmember<G: Group>(e: int, value: int) -> (int, int) {
    (gcd_ext(e, value).1, G::spec_mul(G::spec_one(), gcd_ext(e, value).2))
}

/// An accumulator over the group `G`, with caches of the witnesses for its
/// members, and the history of its digests.
#[derive(Debug)]
pub struct Accumulator<G: Group> {
    digest: Digest<G>,
    multiset: MultiSet<Prime>,
    proof_cache: KeyedMap<Prime, Witness<G>>,
    nonmember_proof_cache: KeyedMap<Prime, NonMembershipWitness<G>>,
    history: SkipList<HistoryEntry<G>>,
    digests_to_indexes: KeyedMap<Digest<G>, usize>,
    exponent: BigInt,
}

impl<G: Group> Accumulator<G> {

    /// The product of the members, each as often as it occurs.
    pub closed spec fn exponent(&self) -> int {
        self.exponent@
    }

    /// The digest.
    pub closed spec fn digest_value(&self) -> int {
        self.digest.value()
    }

    /// The digests so far, oldest first, with the exponent added at each step.
    pub closed spec fn history(&self) -> Seq<(int, int)> {
        self.history.items()
    }

    /// The index in the history of each digest recorded.
    pub closed spec fn digest_indexes(&self) -> Map<int, usize> {
        self.digests_to_indexes@
    }

    /// The cached witnesses, by member.
    pub closed spec fn cached_witnesses(&self) -> Map<int, (Option<int>, int, int)> {
        self.proof_cache@.map_values(|w: Witness<G>| w@)
    }

    /// The members are pairwise coprime integers above one, as distinct
    /// primes are.
    pub open spec fn coprime_members(&self) -> bool {
        coprime_keys(self.members())
    }

    /// The non-membership part of every cached witness checks out.
    pub open spec fn witnesses_sound(&self) -> bool {
        forall|p: int| #[trigger]
            self.cached_witnesses().contains_key(p) ==> witness_view_sound::<G>(self.cached_witnesses()[p], p)
    }

    /// The cached non-membership witnesses, by value.
    pub closed spec fn cached_nonmember_witnesses(&self) -> Map<int, (int, int)> {
        self.nonmember_proof_cache@.map_values(|w: NonMembershipWitness<G>| (w.exp(), w.base()))
    }

    /// The non-membership witness for `value`, computed afresh; none if
    /// `value` is a member.
    fn prove_nonmember_uncached(&self, value: &Prime) -> (r: Option<NonMembershipWitness<G>>)
        ensures
            r is Some <==> count_of(self.members(), value.value()) == 0 && gcd_ext(
                self.exponent(),
                value.value(),
            ).0 == 1,
            r matches Some(w) ==> (w.exp(), w.base()) == fresh_nonmember::<G>(
                self.exponent(),
                value.value(),
            ) && G::is_element(w.base()),
            r is Some ==> !self.members().contains_key(value.value()),
            r is Some ==> bezout_one(self.exponent(), value.value()),
    {
        // https://link.springer.com/content/pdf/10.1007/978-3-540-72738-5_17.pdf
        if self.multiset.get(value) != 0 {
            return None;  // value is a member!
        }
        // Bezout coefficients:
        // gcd: exp * s + value * t = 1
        let (gcd, _, _) = extended_gcd(&self.exponent, value.inner());
        if !equals(&gcd, &from_u64(1)) {
            // the value should be coprime with the exponent of the accumulator
            return None;
        }
        Some(NonMembershipWitness::prove(&self.exponent, value.inner()))
    }
}

/// The keys of `m` are pairwise coprime integers above one.
pub open spec fn coprime_keys(m: Map<int, nat>) -> bool {
    &&& forall|p: int| #[trigger] m.contains_key(p) ==> p >= 2
    &&& forall|p: int, q: int| #[trigger] m.contains_key(p) && #[trigger] m.contains_key(q) && p != q ==> coprime(p, q)
}

/// Keys that stay pairwise coprime with one more were so before.
proof fn lemma_coprime_keys_insert(m: Map<int, nat>, k: int, v: nat)
    requires
        coprime_keys(m.insert(k, v)),
    ensures
        coprime_keys(m),
{
    assert forall|p: int| #[trigger] m.contains_key(p) implies p >= 2 by {
        assert(m.insert(k, v).contains_key(p));
    }
    assert forall|p: int, q: int| #[trigger] m.contains_key(p) && #[trigger] m.contains_key(q) && p != q implies coprime(
        p,
        q,
    ) by {
        assert(m.insert(k, v).contains_key(p));
        assert(m.insert(k, v).contains_key(q));
    }
}

/// GMP's Bezout coefficients for `a` and `b` combine them to one.
pub open spec fn bezout_one(a: int, b: int) -> bool {
    a * gcd_ext(a, b).1 + b * gcd_ext(a, b).2 == 1
}

/// The witness of a cached entry after `member` is added: the non-membership
/// witness carried over, and the membership witness raised to `member`
/// unless the entry is `member` itself.
pub open spec fn incremented_witness<G: Group>(
    value: int,
    w: (Option<int>, int, int),
    member: int,
) -> (Option<int>, int, int) {
    let (exp, base) = if value == member {
        (w.1, w.2)
    } else {
        updated_witness::<G>(w.1, w.2, value, member, w.0.unwrap())
    };
    (Some(if value == member { w.0.unwrap() } else { G::spec_mul(w.0.unwrap(), member) }), exp, base)
}

impl<G: Group> Accumulator<G> {

    /// Carries the cached witness of entry `i` over to the multiset with
    /// `member` added.
    fn update_cached(&mut self, i: usize, member: &Prime)
        requires
            i < old(self).proof_cache.entries().len(),
            old(self).proof_cache.entries()[i as int].1.member is Some,
        ensures
            final(self).proof_cache.entries() == old(self).proof_cache.entries().update(
                i as int,
                (old(self).proof_cache.entries()[i as int].0, final(self).proof_cache.entries()[i as int].1),
            ),
            final(self).proof_cache.entries()[i as int].1@ == incremented_witness::<G>(
                old(self).proof_cache.entries()[i as int].0.value(),
                old(self).proof_cache.entries()[i as int].1@,
                member.value(),
            ),
            final(self).proof_cache@ == old(self).proof_cache@.insert(
                old(self).proof_cache.entries()[i as int].0.value(),
                final(self).proof_cache.entries()[i as int].1,
            ),
            G::is_element(final(self).proof_cache.entries()[i as int].1@.2) || (
            old(self).proof_cache.entries()[i as int].0.value() == member.value()),
            final(self).proof_cache.entries()[i as int].1.member matches Some(m) && (
            old(self).proof_cache.entries()[i as int].0.value() != member.value() ==> G::is_element(
                m.value(),
            )),
            final(self).digest == old(self).digest,
            final(self).multiset == old(self).multiset,
            final(self).exponent == old(self).exponent,
            final(self).history == old(self).history,
            final(self).digests_to_indexes == old(self).digests_to_indexes,
            final(self).nonmember_proof_cache == old(self).nonmember_proof_cache,
            ({
                let v = old(self).proof_cache.entries()[i as int].0.value();
                let w = old(self).proof_cache.entries()[i as int].1@;
                (v == member.value() || coprime(v, member.value())) && witness_view_sound::<G>(w, v)
                    && G::is_element(w.0.unwrap()) && G::is_element(w.2) ==> witness_view_sound::<G>(
                    final(self).proof_cache.entries()[i as int].1@,
                    v,
                )
            }),
    {
        let value = self.proof_cache.key_at(i).clone();
        let old_witness = self.proof_cache.value_at(i);
        let member_witness = match &old_witness.member {
            Some(m) => m.duplicate(),
            None => {
                proof {
                    assert(false);
                }
                return;
            },
        };
        let mut nonmember = old_witness.nonmember.duplicate();
        let digest = Digest(member_witness.0.duplicate());
        nonmember.update(&value, member, &digest);
        let mut new_member = member_witness;
        if !value.same(member) {
            new_member.update(member.inner());
        }
        let _ = self.proof_cache.replace_at(i, Witness { member: Some(new_member), nonmember });
    }
}

/// The membership witness that a cached witness holds raises to the digest.
proof fn lemma_member_witness_verifies<G: Group>(e: int, p: int, c: nat, m: int)
    requires
        member_witness_ok::<G>(e, p, c, m),
        e > 0,
    ensures
        G::spec_mul(m, pow(p, c)) == digest_of::<G>(e),
{
    G::lemma_constants();
    let q = pow(p, c);
    lemma_cofactor_nonneg(e, q);
    G::lemma_mul_mul(G::spec_one(), e / q, q);
    vstd::arithmetic::div_mod::lemma_fundamental_div_mod(e, q);
    assert((e / q) * q == e) by (nonlinear_arith)
        requires
            e == q * (e / q) + e % q,
            e % q == 0,
    ;
}

/// A list of proofs of knowledge of exponents, each with the digest where it
/// starts, from an older digest up to a newer one.
#[derive(Debug)]
pub struct AppendOnlyWitness<G> {
    inner: Vec<(StepProof<G>, G)>,
}

/// The views of the steps of an append-only witness.
pub open spec fn step_views<G: Group>(steps: Seq<(StepProof<G>, G)>) -> Seq<(Option<(int, int, int)>, int)> {
    steps.map_values(|s: (StepProof<G>, G)| (s.0@, s.1.value()))
}

impl<G: Group> View for AppendOnlyWitness<G> {
    type V = Seq<(Option<(int, int, int)>, int)>;

    closed spec fn view(&self) -> Seq<(Option<(int, int, int)>, int)> {
        step_views(self.inner@)
    }
}

impl<G: Group> Default for AppendOnlyWitness<G> {
    fn default() -> (r: Self)
        ensures
            r@ == Seq::<(Option<(int, int, int)>, int)>::empty(),
    {
        let r = AppendOnlyWitness { inner: Vec::new() };
        assert(r@ =~= Seq::<(Option<(int, int, int)>, int)>::empty());
        r
    }
}

impl<G: Group> AppendOnlyWitness<G> {
    /// A copy of this witness.
    pub fn duplicate(&self) -> (r: Self)
        ensures
            r@ == self@,
    {
        let mut inner: Vec<(StepProof<G>, G)> = Vec::new();
        let mut i: usize = 0;
        while i < self.inner.len()
            invariant
                i <= self.inner@.len(),
                step_views(inner@) == step_views(self.inner@.subrange(0, i as int)),
            decreases self.inner@.len() - i,
        {
            let step = HistoryEntry::<G>::clone_proof(&self.inner[i].0);
            let g = self.inner[i].1.duplicate();
            let ghost before = inner@;
            let ghost sv = (step@, g.value());
            inner.push((step, g));
            proof {
                assert(step_views(inner@) =~= step_views(before).push(sv));
                assert(self.inner@.subrange(0, i + 1) =~= self.inner@.subrange(0, i as int).push(
                    self.inner@[i as int],
                ));
                assert(step_views(self.inner@.subrange(0, i + 1)) =~= step_views(
                    self.inner@.subrange(0, i as int),
                ).push(sv));
            }
            i += 1;
        }
        assert(self.inner@.subrange(0, self.inner@.len() as int) =~= self.inner@);
        AppendOnlyWitness { inner }
    }
}

/// Whether the steps (as views), checked from the newest back, lead from
/// `top` down to `bottom`: each proves that the digest above it is a power of
/// the digest where it starts.
pub open spec fn chain_ok<G: Group>(steps: Seq<(Option<(int, int, int)>, int)>, top: int, bottom: int) -> bool
    decreases steps.len(),
{
    if steps.len() == 0 {
        top == bottom
    } else {
        let (p, u) = steps.last();
        &&& p is Some
        &&& poke::spec_verify::<G>(top, u, p.unwrap().0, p.unwrap().1, p.unwrap().2)
        &&& chain_ok::<G>(steps.drop_last(), u, bottom)
    }
}

/// The steps of a history read, each with the digest where it starts.
pub open spec fn read_steps<G: Group>(reads: Seq<(Option<(int, int, int)>, (int, int))>) -> Seq<
    (Option<(int, int, int)>, int),
> {
    reads.map_values(|r: (Option<(int, int, int)>, (int, int))| (r.0, r.1.1))
}

/// The product of `vals` without the `i`-th.
pub open spec fn product_except(vals: Seq<int>, i: int) -> int {
    index_product(vals.remove(i))
}

proof fn lemma_index_product_concat(a: Seq<int>, b: Seq<int>)
    ensures
        index_product(a + b) == index_product(a) * index_product(b),
    decreases b.len(),
{
    if b.len() == 0 {
        assert(a + b =~= a);
    } else {
        lemma_index_product_concat(a, b.drop_last());
        assert((a + b).drop_last() =~= a + b.drop_last());
        let x = index_product(a);
        let y = index_product(b.drop_last());
        assert((x * y) * b.last() == x * (y * b.last())) by (nonlinear_arith);
    }
}

proof fn lemma_index_product_nonneg(vals: Seq<int>)
    requires
        forall|i: int| 0 <= i < vals.len() ==> #[trigger] vals[i] > 0,
    ensures
        index_product(vals) > 0,
    decreases vals.len(),
{
    if vals.len() > 0 {
        lemma_index_product_nonneg(vals.drop_last());
        let x = index_product(vals.drop_last());
        assert(x * vals.last() > 0) by (nonlinear_arith)
            requires
                x > 0,
                vals.last() > 0,
        ;
    }
}

/// The witness (viewed) holds a membership witness whose non-membership
/// part for `index` checks out.
pub open spec fn witness_view_sound<G: Group>(w: (Option<int>, int, int), index: int) -> bool {
    &&& w.0 is Some
    &&& nonmember_equation::<G>(w.0.unwrap(), w.1, w.2, index)
}

/// The indexes of `members` are pairwise coprime integers above one, each
/// counted at least once, and each value is the index raised to its count.
spec fn coprime_members_seq(members: Seq<MemberCount>) -> bool {
    &&& forall|i: int|
        0 <= i < members.len() ==> #[trigger] members[i].index@ >= 2 && members[i].count >= 1
            && members[i].value@ == pow(members[i].index@, members[i].count as nat)
    &&& forall|i: int, j: int|
        0 <= i < members.len() && 0 <= j < members.len() && i != j ==> coprime(
            #[trigger] members[i].index@,
            #[trigger] members[j].index@,
        )
}

/// A value coprime to `p` is coprime to its powers.
proof fn lemma_coprime_pow(a: int, p: int, c: nat)
    requires
        coprime(a, p),
    ensures
        coprime(a, pow(p, c)),
    decreases c,
{
    if c == 0 {
        lemma_coprime_one(a);
        assert(pow(p, 0) == 1) by {
            reveal(pow);
        }
    } else {
        lemma_coprime_pow(a, p, (c - 1) as nat);
        assert(pow(p, c) == p * pow(p, (c - 1) as nat)) by {
            reveal(pow);
        }
        lemma_coprime_symmetric(a, p);
        lemma_coprime_symmetric(a, pow(p, (c - 1) as nat));
        lemma_coprime_product(p, pow(p, (c - 1) as nat), a);
        lemma_coprime_symmetric(p * pow(p, (c - 1) as nat), a);
    }
}

/// A product of values each coprime to `c` is coprime to `c`.
proof fn lemma_coprime_index_product(xs: Seq<int>, c: int)
    requires
        forall|i: int| 0 <= i < xs.len() ==> coprime(#[trigger] xs[i], c),
    ensures
        coprime(index_product(xs), c),
    decreases xs.len(),
{
    if xs.len() == 0 {
        lemma_coprime_one(c);
        lemma_coprime_symmetric(c, 1);
    } else {
        lemma_coprime_index_product(xs.drop_last(), c);
        assert(coprime(xs[xs.len() - 1], c));
        lemma_coprime_product(index_product(xs.drop_last()), xs.last(), c);
    }
}

/// The indexes of one part of pairwise coprime members are coprime to the
/// values of the other part.
proof fn lemma_parts_coprime(members: Seq<MemberCount>, lo: int, mid: int, hi: int)
    requires
        0 <= lo < mid < hi <= members.len(),
        coprime_members_seq(members),
    ensures
        coprime(
            index_product(member_indexes(members.subrange(lo, mid))),
            index_product(member_values(members.subrange(mid, hi))),
        ),
        coprime(
            index_product(member_indexes(members.subrange(mid, hi))),
            index_product(member_values(members.subrange(lo, mid))),
        ),
{
    lemma_indexes_values_coprime(members, lo, mid, mid, hi);
    lemma_indexes_values_coprime(members, mid, hi, lo, mid);
}

/// The product of the indexes of `members[a..b]` is coprime to that of the
/// values of `members[c..d]`, two ranges apart.
proof fn lemma_indexes_values_coprime(members: Seq<MemberCount>, a: int, b: int, c: int, d: int)
    requires
        0 <= a <= b <= members.len(),
        0 <= c <= d <= members.len(),
        b <= c || d <= a,
        coprime_members_seq(members),
    ensures
        coprime(
            index_product(member_indexes(members.subrange(a, b))),
            index_product(member_values(members.subrange(c, d))),
        ),
{
    let xs = member_indexes(members.subrange(a, b));
    let ys = member_values(members.subrange(c, d));
    assert forall|j: int| 0 <= j < ys.len() implies coprime(#[trigger] ys[j], index_product(xs)) by {
        let q = members[c + j];
        assert(q == members.subrange(c, d)[j]);
        assert forall|i: int| 0 <= i < xs.len() implies coprime(#[trigger] xs[i], ys[j]) by {
            assert(members.subrange(a, b)[i] == members[a + i]);
            assert(coprime(members[a + i].index@, members[c + j].index@));
            assert(members[c + j].index@ >= 2);
            lemma_coprime_pow(members[a + i].index@, q.index@, q.count as nat);
        }
        lemma_coprime_index_product(xs, ys[j]);
        lemma_coprime_symmetric(index_product(xs), ys[j]);
    }
    lemma_coprime_index_product(ys, index_product(xs));
    lemma_coprime_symmetric(index_product(ys), index_product(xs));
}

/// A product of at least one integer, each at least two, is at least two.
proof fn lemma_index_product_at_least_two(vals: Seq<int>)
    requires
        vals.len() >= 1,
        forall|i: int| 0 <= i < vals.len() ==> #[trigger] vals[i] >= 2,
    ensures
        index_product(vals) >= 2,
    decreases vals.len(),
{
    let x = index_product(vals.drop_last());
    if vals.len() == 1 {
        assert(vals.drop_last() =~= Seq::<int>::empty());
        assert(x == 1);
    } else {
        lemma_index_product_at_least_two(vals.drop_last());
    }
    assert(vals[vals.len() - 1] >= 2);
    assert(x * vals.last() >= 2) by (nonlinear_arith)
        requires
            x >= 1,
            vals.last() >= 2,
    ;
}

/// The product without one element, for an element of the left part.
proof fn lemma_product_except_left(a: Seq<int>, b: Seq<int>, i: int)
    requires
        0 <= i < a.len(),
    ensures
        product_except(a + b, i) == product_except(a, i) * index_product(b),
{
    assert((a + b).remove(i) =~= a.remove(i) + b);
    lemma_index_product_concat(a.remove(i), b);
}

/// The product without one element, for an element of the right part.
proof fn lemma_product_except_right(a: Seq<int>, b: Seq<int>, i: int)
    requires
        0 <= i < b.len(),
    ensures
        product_except(a + b, a.len() + i) == index_product(a) * product_except(b, i),
{
    assert((a + b).remove(a.len() + i) =~= a + b.remove(i));
    lemma_index_product_concat(a, b.remove(i));
}

/// Removing one element divides it out of the product.
proof fn lemma_product_except(vals: Seq<int>, i: int)
    requires
        0 <= i < vals.len(),
    ensures
        index_product(vals) == product_except(vals, i) * vals[i],
    decreases vals.len(),
{
    if i == vals.len() - 1 {
        assert(vals.remove(i) =~= vals.drop_last());
    } else {
        lemma_product_except(vals.drop_last(), i);
        assert(vals.remove(i).drop_last() =~= vals.drop_last().remove(i));
        assert(vals.remove(i).last() == vals.last());
        let x = index_product(vals.drop_last().remove(i));
        assert((x * vals[i]) * vals.last() == (x * vals.last()) * vals[i]) by (nonlinear_arith);
    }
}

/// A precomputed witness has a membership witness `target`, and elements.
spec fn precomputed_ok<G: Group>(w: Witness<G>, target: int) -> bool {
    &&& w.member is Some
    &&& G::is_element(w.member.unwrap().value())
    &&& w.member.unwrap().value() == target
    &&& G::is_element(w.nonmember.base())
}

/// The witnesses for the members `lo..hi`, given a non-membership witness
/// `proof` for the product of their indexes against `digest`.
fn precompute_helper<G: Group>(
    members: &[MemberCount],
    lo: usize,
    hi: usize,
    foo: &Intermediate,
    proof: NonMembershipWitness<G>,
    digest: Digest<G>,
) -> (r: Vec<Witness<G>>)
    requires
        lo < hi <= members@.len(),
        foo.index@ == index_product(member_indexes(members@.subrange(lo as int, hi as int))),
        foo.exponent@ == index_product(member_values(members@.subrange(lo as int, hi as int))),
        forall|i: int| 0 <= i < members@.len() ==> #[trigger] members@[i].index@ > 0,
        forall|i: int| 0 <= i < members@.len() ==> #[trigger] members@[i].value@ > 0,
        G::is_element(digest.value()),
        G::is_element(proof.base()),
    ensures
        r@.len() == hi - lo,
        forall|i: int|
            0 <= i < hi - lo ==> precomputed_ok::<G>(
                #[trigger] r@[i],
                G::spec_mul(digest.value(), product_except(member_values(members@.subrange(lo as int, hi as int)), i)),
            ),
        coprime_members_seq(members@) && nonmember_equation::<G>(digest.value(), proof.exp(), proof.base(), foo.index@) ==> forall|i: int| 0 <= i < hi - lo ==> witness_view_sound::<G>((#[trigger] r@[i])@, members@[lo + i].index@),
    decreases hi - lo,
{
    let ghost vals = member_values(members@.subrange(lo as int, hi as int));
    if hi - lo == 1 {
        let mut r: Vec<Witness<G>> = Vec::new();
        proof {
            assert(vals.remove(0) =~= Seq::<int>::empty());
            G::lemma_mul_basics(digest.value());
            let ids = member_indexes(members@.subrange(lo as int, hi as int));
            assert(ids.len() == 1);
            assert(ids.drop_last() =~= Seq::<int>::empty());
            assert(index_product(ids.drop_last()) == 1);
            assert(ids.last() == members@[lo as int].index@);
            assert(index_product(ids) == index_product(ids.drop_last()) * ids.last());
            assert(foo.index@ == members@[lo as int].index@);
        }
        r.push(Witness::new(MembershipWitness(digest.0), proof));
        return r;
    }
    let mid = lo + (hi - lo) / 2;
    let foo_l = Intermediate::from_range(members, lo, mid);
    let foo_r = Intermediate::from_range(members, mid, hi);
    proof {
        G::lemma_constants();
        assert(index_product(member_indexes(members@.subrange(lo as int, mid as int))) != 0) by {
            let ids = member_indexes(members@.subrange(lo as int, mid as int));
            assert forall|i: int| 0 <= i < ids.len() implies #[trigger] ids[i] > 0 by {
                assert(ids[i] == members@[lo + i].index@);
            }
            lemma_index_product_nonneg(ids);
        }
        let all_ids = member_indexes(members@.subrange(lo as int, hi as int));
        assert(all_ids =~= member_indexes(members@.subrange(lo as int, mid as int)) + member_indexes(
            members@.subrange(mid as int, hi as int),
        ));
        lemma_index_product_concat(
            member_indexes(members@.subrange(lo as int, mid as int)),
            member_indexes(members@.subrange(mid as int, hi as int)),
        );
        assert(foo.index@ == foo_l.index@ * foo_r.index@);
        if coprime_members_seq(members@) {
            lemma_parts_coprime(members@, lo as int, mid as int, hi as int);
        }
        let vl = member_values(members@.subrange(lo as int, mid as int));
        let vr = member_values(members@.subrange(mid as int, hi as int));
        assert forall|i: int| 0 <= i < vl.len() implies #[trigger] vl[i] > 0 by {
            assert(vl[i] == members@[lo + i].value@);
        }
        assert forall|i: int| 0 <= i < vr.len() implies #[trigger] vr[i] > 0 by {
            assert(vr[i] == members@[mid + i].value@);
        }
        lemma_index_product_nonneg(vl);
        lemma_index_product_nonneg(vr);
        lemma_index_product_nonneg(member_indexes(members@.subrange(mid as int, hi as int)));
    }
    let (digest_r, proof_l) = proof.split(&digest, &foo_l.index, &foo_r.index, &foo_r.exponent);
    let (digest_l, proof_r) = proof.split(&digest, &foo_r.index, &foo_l.index, &foo_l.exponent);
    let ghost pl = foo_l.exponent@;
    let ghost pr = foo_r.exponent@;
    let mut ret = precompute_helper(members, lo, mid, &foo_l, proof_l, digest_r);
    let mut rest = precompute_helper(members, mid, hi, &foo_r, proof_r, digest_l);
    let ghost left = ret@;
    let ghost right = rest@;
    ret.append(&mut rest);
    proof {
        if coprime_members_seq(members@) && nonmember_equation::<G>(digest.value(), proof.exp(), proof.base(), foo.index@) {
            assert(foo.index@ == foo_r.index@ * foo_l.index@) by (nonlinear_arith)
                requires
                    foo.index@ == foo_l.index@ * foo_r.index@,
            ;
            assert forall|i: int| 0 <= i < hi - lo implies witness_view_sound::<G>(
                (#[trigger] ret@[i])@,
                members@[lo + i].index@,
            ) by {
                if i < mid - lo {
                    assert(ret@[i] == left[i]);
                } else {
                    let j = i - (mid - lo);
                    assert(ret@[i] == right[j]);
                    assert(mid + j == lo + i);
                }
            }
        }
    }
    proof {
        let a = member_values(members@.subrange(lo as int, mid as int));
        let b = member_values(members@.subrange(mid as int, hi as int));
        assert(vals =~= a + b);
        assert forall|i: int| 0 <= i < hi - lo implies precomputed_ok::<G>(
            #[trigger] ret@[i],
            G::spec_mul(digest.value(), product_except(vals, i)),
        ) by {
            if i < mid - lo {
                assert(ret@[i] == left[i]);
                lemma_product_except_left(a, b, i);
                let e = product_except(a, i);
                G::lemma_mul_mul(digest.value(), pr, e);
                assert(pr * e == e * pr) by (nonlinear_arith);
            } else {
                let j = i - (mid - lo);
                assert(ret@[i] == right[j]);
                lemma_product_except_right(a, b, j);
                let e = product_except(b, j);
                G::lemma_mul_mul(digest.value(), pl, e);
            }
        }
    }
    ret
}

/// Raising the generator to each value in turn raises it to their product.
proof fn lemma_raise_all<G: Group>(vals: Seq<int>)
    requires
        forall|i: int| 0 <= i < vals.len() ==> #[trigger] vals[i] > 0,
    ensures
        raise_all::<G>(G::spec_one(), vals) == digest_of::<G>(index_product(vals)),
    decreases vals.len(),
{
    G::lemma_constants();
    if vals.len() == 0 {
        G::lemma_mul_basics(G::spec_one());
    } else {
        lemma_raise_all::<G>(vals.drop_last());
        lemma_index_product_nonneg(vals.drop_last());
        G::lemma_mul_mul(G::spec_one(), index_product(vals.drop_last()), vals.last());
    }
}

/// Returns the witnesses of the members, the digest, and the products of
/// their indexes and values.
fn precompute<G: Group>(members: &[MemberCount]) -> (r: (Vec<Witness<G>>, Digest<G>, Intermediate))
    requires
        forall|i: int| 0 <= i < members@.len() ==> #[trigger] members@[i].index@ > 0,
        forall|i: int| 0 <= i < members@.len() ==> #[trigger] members@[i].value@ > 0,
    ensures
        r.2.index@ == index_product(member_indexes(members@)),
        r.2.exponent@ == index_product(member_values(members@)),
        r.1.value() == digest_of::<G>(r.2.exponent@),
        G::is_element(r.1.value()),
        r.0@.len() == members@.len(),
        forall|i: int|
            0 <= i < members@.len() ==> precomputed_ok::<G>(
                #[trigger] r.0@[i],
                digest_of::<G>(product_except(member_values(members@), i)),
            ),
        coprime_members_seq(members@) ==> forall|i: int| 0 <= i < members@.len() ==> witness_view_sound::<G>((#[trigger] r.0@[i])@, members@[i].index@),
{
    let foo = Intermediate::from_members(members);
    proof {
        G::lemma_constants();
        G::lemma_mul_basics(G::spec_one());
    }
    if members.len() == 0 {
        assert(member_values(members@) =~= Seq::<int>::empty());
        return (Vec::new(), Digest(G::one()), foo);
    }
    let exponent = from_u64(1);
    let digest = Digest::for_exponent(&exponent);
    let proof = NonMembershipWitness::prove(&exponent, &foo.exponent);
    assert(members@.subrange(0, members@.len() as int) =~= members@);
    proof {
        if coprime_members_seq(members@) {
            let vals = member_values(members@);
            assert forall|i: int| 0 <= i < vals.len() implies #[trigger] vals[i] >= 2 by {
                let m = members@[i];
                assert(vals[i] == m.value@);
                vstd::arithmetic::power::lemma_pow1(m.index@);
                vstd::arithmetic::power::lemma_pow_increases(m.index@ as nat, 1, m.count as nat);
            }
            lemma_index_product_at_least_two(vals);
            lemma_trivial_witness_sound::<G>(foo.index@);
        }
    }
    let ghost d0 = digest.value();
    let witnesses = precompute_helper(members, 0, members.len(), &foo, proof, digest);
    let digest = Digest::for_members(members);
    proof {
        lemma_raise_all::<G>(member_values(members@));
        lemma_index_product_nonneg(member_values(members@));
        assert forall|i: int| 0 <= i < members@.len() implies precomputed_ok::<G>(
            #[trigger] witnesses@[i],
            digest_of::<G>(product_except(member_values(members@), i)),
        ) by {
            G::lemma_mul_mul(G::spec_one(), 1, product_except(member_values(members@), i));
            assert(1 * product_except(member_values(members@), i) == product_except(member_values(members@), i));
        }
    }
    (witnesses, digest, foo)
}

/// The product of the members' values is that of the multiset's entries.
proof fn lemma_values_product(members: Seq<MemberCount>, entries: Seq<(Prime, u32)>)
    requires
        members.len() == entries.len(),
        forall|i: int|
            0 <= i < members.len() ==> #[trigger] members[i].value@ == pow(
                entries[i].0.value(),
                entries[i].1 as nat,
            ),
    ensures
        index_product(member_values(members)) == entries_product(entries),
    decreases members.len(),
{
    if members.len() > 0 {
        lemma_values_product(members.drop_last(), entries.drop_last());
        assert(member_values(members).drop_last() =~= member_values(members.drop_last()));
    }
}

/// Witnesses for many members, by member.
#[derive(Debug)]
pub struct BatchWitness<W> {
    inner: KeyedMap<Prime, W>,
}

impl<W: View> View for BatchWitness<W> {
    type V = Map<int, W::V>;

    closed spec fn view(&self) -> Map<int, W::V> {
        self.inner@.map_values(|w: W| w@)
    }
}

/// The product of the values of `s`.
pub open spec fn prime_product(s: Seq<Prime>) -> int
    decreases s.len(),
{
    if s.len() == 0 {
        1
    } else {
        prime_product(s.drop_last()) * s.last().value()
    }
}

/// The multiset of a batch, and the product of its members.
fn batch_of(members: &Vec<Prime>) -> (r: (MultiSet<Prime>, BigInt))
    requires
        members@.len() < u32::MAX,
    ensures
        forall|id: int| #[trigger] count_of(r.0@, id) == occurrences(members@, id),
        r.1@ == r.0.product(),
        r.1@ == prime_product(members@),
        r.1@ > 0,
        forall|j: int| 0 <= j < members@.len() ==> #[trigger] members@[j].value() > 0,
{
    let mut batch: MultiSet<Prime> = MultiSet::default();
    let mut exponent = from_u64(1);
    let mut i: usize = 0;
    while i < members.len()
        invariant
            i <= members@.len() < u32::MAX,
            forall|id: int| #[trigger] count_of(batch@, id) == occurrences(members@.subrange(0, i as int), id),
            exponent@ == batch.product(),
            exponent@ == prime_product(members@.subrange(0, i as int)),
            exponent@ > 0,
            forall|j: int| 0 <= j < i ==> #[trigger] members@[j].value() > 0,
        decreases members@.len() - i,
    {
        let ghost prefix = members@.subrange(0, i as int);
        let ghost before = batch@;
        proof {
            lemma_occurrences_bound(prefix, members@[i as int].value());
            assert(members@.subrange(0, i + 1).drop_last() =~= prefix);
        }
        let v = members[i].inner();
        exponent = multiply(&exponent, v);
        batch.insert(members[i].clone());
        proof {
            assert forall|id: int| #[trigger] count_of(batch@, id) == occurrences(members@.subrange(0, i + 1), id) by {
                assert(count_of(before, id) == occurrences(prefix, id));
            }
            assert(exponent@ > 0) by (nonlinear_arith)
                requires
                    exponent@ == prime_product(prefix) * v@,
                    prime_product(prefix) > 0,
                    v@ > 0,
            ;
        }
        i += 1;
    }
    assert(members@.subrange(0, members@.len() as int) =~= members@);
    (batch, exponent)
}

/// The cofactors of two divisors multiply to the cofactor of their product.
proof fn lemma_cofactor_combine(e: int, x: int, p: int, c: nat, cb: nat)
    requires
        pow(p, c) > 0,
        pow(p, cb) > 0,
        e % pow(p, c) == 0,
        x % pow(p, cb) == 0,
    ensures
        pow(p, c + cb) > 0,
        (e * x) % pow(p, c + cb) == 0,
        (e * x) / pow(p, c + cb) == (e / pow(p, c)) * (x / pow(p, cb)),
{
    vstd::arithmetic::power::lemma_pow_adds(p, c, cb);
    let a = pow(p, c);
    let b = pow(p, cb);
    vstd::arithmetic::div_mod::lemma_fundamental_div_mod(e, a);
    vstd::arithmetic::div_mod::lemma_fundamental_div_mod(x, b);
    let k = e / a;
    let u = x / b;
    assert(a * b > 0) by (nonlinear_arith)
        requires
            a > 0,
            b > 0,
    ;
    assert(e * x == (a * b) * (k * u)) by (nonlinear_arith)
        requires
            e == a * k,
            x == b * u,
    ;
    vstd::arithmetic::div_mod::lemma_mod_multiples_basic(k * u, a * b);
    vstd::arithmetic::div_mod::lemma_div_multiples_vanish(k * u, a * b);
    assert((a * b) * (k * u) == (k * u) * (a * b)) by (nonlinear_arith);
}

/// The cached witness of an entry after a batch with product `x`, in which
/// the entry occurs `cb` times: the non-membership witness carried over to
/// `x`, and the membership witness raised to the part of `x` without the
/// entry's own occurrences.
pub open spec fn batch_incremented_witness<G: Group>(
    value: int,
    w: (Option<int>, int, int),
    x: int,
    cb: nat,
) -> (Option<int>, int, int) {
    let (exp, base) = if value == x {
        (w.1, w.2)
    } else {
        updated_witness::<G>(w.1, w.2, value, x, w.0.unwrap())
    };
    let ux = if cb > 0 {
        x / pow(value, cb)
    } else {
        x
    };
    (Some(G::spec_mul(w.0.unwrap(), ux)), exp, base)
}

impl<G: Group> Accumulator<G> {
    /// Carries the cached witness of entry `i` over to the multiset with the
    /// batch `batch`, whose product is `x`, added.
    fn update_cached_batch(&mut self, i: usize, x: &Prime, batch: &MultiSet<Prime>)
        requires
            i < old(self).proof_cache.entries().len(),
            old(self).proof_cache.entries()[i as int].1.member is Some,
            old(self).proof_cache.entries()[i as int].0.value() > 0,
            x.value() == batch.product(),
        ensures
            final(self).proof_cache.entries() == old(self).proof_cache.entries().update(
                i as int,
                (old(self).proof_cache.entries()[i as int].0, final(self).proof_cache.entries()[i as int].1),
            ),
            final(self).proof_cache.entries()[i as int].1@ == batch_incremented_witness::<G>(
                old(self).proof_cache.entries()[i as int].0.value(),
                old(self).proof_cache.entries()[i as int].1@,
                x.value(),
                count_of(batch@, old(self).proof_cache.entries()[i as int].0.value()),
            ),
            final(self).proof_cache.entries()[i as int].1.member matches Some(m) && G::is_element(
                m.value(),
            ),
            G::is_element(final(self).proof_cache.entries()[i as int].1@.2) || (
            old(self).proof_cache.entries()[i as int].0.value() == x.value()),
            count_of(batch@, old(self).proof_cache.entries()[i as int].0.value()) > 0 ==> pow(
                old(self).proof_cache.entries()[i as int].0.value(),
                count_of(batch@, old(self).proof_cache.entries()[i as int].0.value()),
            ) > 0 && x.value() % pow(
                old(self).proof_cache.entries()[i as int].0.value(),
                count_of(batch@, old(self).proof_cache.entries()[i as int].0.value()),
            ) == 0,
            count_of(batch@, old(self).proof_cache.entries()[i as int].0.value()) == 0
                && old(self).proof_cache.entries()[i as int].0.value() != x.value() && coprime(
                old(self).proof_cache.entries()[i as int].0.value(),
                x.value(),
            ) && witness_view_sound::<G>(
                old(self).proof_cache.entries()[i as int].1@,
                old(self).proof_cache.entries()[i as int].0.value(),
            ) && G::is_element(old(self).proof_cache.entries()[i as int].1@.2) ==> witness_view_sound::<G>(
                final(self).proof_cache.entries()[i as int].1@,
                old(self).proof_cache.entries()[i as int].0.value(),
            ),
            final(self).digest == old(self).digest,
            final(self).multiset == old(self).multiset,
            final(self).exponent == old(self).exponent,
            final(self).history == old(self).history,
            final(self).digests_to_indexes == old(self).digests_to_indexes,
            final(self).nonmember_proof_cache == old(self).nonmember_proof_cache,
    {
        let value = self.proof_cache.key_at(i).clone();
        let old_witness = self.proof_cache.value_at(i);
        let member_witness = match &old_witness.member {
            Some(m) => m.duplicate(),
            None => {
                proof {
                    assert(false);
                }
                return;
            },
        };
        let mut nonmember = old_witness.nonmember.duplicate();
        let digest = Digest(member_witness.0.duplicate());
        nonmember.update(&value, x, &digest);

        // for all members that equal value: divide by member
        let count = batch.get(&value);
        let update_val = if count > 0 {
            let (q, _) = div_rem(x.inner(), &power(value.inner(), count));
            proof {
                vstd::arithmetic::div_mod::lemma_fundamental_div_mod(x.value(), pow(value.value(), count as nat));
                lemma_cofactor_nonneg(x.value(), pow(value.value(), count as nat));
            }
            q
        } else {
            x.inner().clone()
        };
        let mut new_member = member_witness;
        new_member.update(&update_val);
        let _ = self.proof_cache.replace_at(i, Witness { member: Some(new_member), nonmember });
    }
}

/// The counts of `a` with each value of `batch` added as often as it occurs.
pub open spec fn add_occurrences(a: Map<int, nat>, batch: Seq<Prime>) -> Map<int, nat> {
    Map::new(
        |k: int| a.contains_key(k) || occurrences(batch, k) > 0,
        |k: int| count_of(a, k) + occurrences(batch, k),
    )
}

/// Occurrences in a prefix one longer.
proof fn lemma_occurrences_prefix(s: Seq<Prime>, k: int, id: int)
    requires
        0 <= k < s.len(),
    ensures
        occurrences(s.subrange(0, k + 1), id) == occurrences(s.subrange(0, k), id) + (if s[k].value() == id {
            1nat
        } else {
            0nat
        }),
        occurrences(s.subrange(0, k + 1), id) <= occurrences(s, id),
{
    assert(s.subrange(0, k + 1).drop_last() =~= s.subrange(0, k));
    lemma_occurrences_mono(s, k + 1, id);
}

proof fn lemma_occurrences_mono(s: Seq<Prime>, k: int, id: int)
    requires
        0 <= k <= s.len(),
    ensures
        occurrences(s.subrange(0, k), id) <= occurrences(s, id),
    decreases s.len() - k,
{
    if k < s.len() {
        lemma_occurrences_mono(s, k + 1, id);
        assert(s.subrange(0, k + 1).drop_last() =~= s.subrange(0, k));
    } else {
        assert(s.subrange(0, k) =~= s);
    }
}

/// A value that occurs is one of the sequence's values.
proof fn lemma_occurrences_positive(s: Seq<Prime>, id: int)
    requires
        occurrences(s, id) > 0,
    ensures
        exists|j: int| 0 <= j < s.len() && #[trigger] s[j].value() == id,
    decreases s.len(),
{
    if s.last().value() != id {
        lemma_occurrences_positive(s.drop_last(), id);
        let j = choose|j: int| 0 <= j < s.drop_last().len() && #[trigger] s.drop_last()[j].value() == id;
        assert(s[j].value() == id);
    } else {
        assert(s[s.len() - 1].value() == id);
    }
}

/// Scaling the product by `m` scales the cofactor of a divisor by `m`.
proof fn lemma_cofactor_scale(e: int, d: int, m: int)
    requires
        d > 0,
        e % d == 0,
        m >= 0,
    ensures
        (e * m) % d == 0,
        (e * m) / d == (e / d) * m,
        e / d >= 0 || e < 0,
{
    vstd::arithmetic::div_mod::lemma_fundamental_div_mod(e, d);
    let k = e / d;
    assert(e * m == (k * m) * d) by (nonlinear_arith)
        requires
            e == d * k,
    ;
    vstd::arithmetic::div_mod::lemma_mod_multiples_basic(k * m, d);
    vstd::arithmetic::div_mod::lemma_div_multiples_vanish(k * m, d);
}

/// Adding one more occurrence of `p` keeps the cofactor of `p`'s power.
proof fn lemma_cofactor_step(e: int, p: int, c: nat)
    requires
        p > 0,
        pow(p, c) > 0,
        e % pow(p, c) == 0,
    ensures
        pow(p, c + 1) == pow(p, c) * p,
        pow(p, c + 1) > 0,
        (e * p) % pow(p, c + 1) == 0,
        (e * p) / pow(p, c + 1) == e / pow(p, c),
{
    vstd::arithmetic::power::lemma_pow_adds(p, c, 1);
    vstd::arithmetic::power::lemma_pow1(p);
    let q = pow(p, c);
    vstd::arithmetic::div_mod::lemma_fundamental_div_mod(e, q);
    let k = e / q;
    assert(e * p == k * (q * p)) by (nonlinear_arith)
        requires
            e == q * k,
    ;
    assert(q * p > 0) by (nonlinear_arith)
        requires
            q > 0,
            p > 0,
    ;
    vstd::arithmetic::div_mod::lemma_mod_multiples_basic(k, q * p);
    vstd::arithmetic::div_mod::lemma_div_multiples_vanish(k, q * p);
}

/// A positive number divided by a positive divisor of it is positive.
proof fn lemma_cofactor_nonneg(e: int, d: int)
    requires
        e > 0,
        d > 0,
    ensures
        e / d >= 0,
{
    vstd::arithmetic::div_mod::lemma_div_pos_is_pos(e, d);
}

/// The product of the values of `s` other than `m`.
pub open spec fn product_without(s: Seq<Prime>, m: int) -> int
    decreases s.len(),
{
    if s.len() == 0 {
        1
    } else if s.last().value() == m {
        product_without(s.drop_last(), m)
    } else {
        product_without(s.drop_last(), m) * s.last().value()
    }
}

/// The product of a batch splits into the occurrences of `m` and the rest.
proof fn lemma_product_split(s: Seq<Prime>, m: int)
    ensures
        prime_product(s) == pow(m, occurrences(s, m)) * product_without(s, m),
    decreases s.len(),
{
    if s.len() == 0 {
        vstd::arithmetic::power::lemma_pow0(m);
    } else {
        let d = s.drop_last();
        lemma_product_split(d, m);
        let a = pow(m, occurrences(d, m));
        let b = product_without(d, m);
        let v = s.last().value();
        if v == m {
            vstd::arithmetic::power::lemma_pow_adds(m, occurrences(d, m), 1);
            vstd::arithmetic::power::lemma_pow1(m);
            assert((a * b) * v == (a * v) * b) by (nonlinear_arith);
        } else {
            assert((a * b) * v == a * (b * v)) by (nonlinear_arith);
        }
    }
}

/// The values of `s` other than `m`, each coprime to `m`, have a product
/// coprime to `m`.
proof fn lemma_product_without_coprime(s: Seq<Prime>, m: int)
    requires
        forall|j: int| 0 <= j < s.len() && #[trigger] s[j].value() != m ==> coprime(s[j].value(), m),
    ensures
        coprime(product_without(s, m), m),
    decreases s.len(),
{
    if s.len() == 0 {
        crate::bigint::lemma_coprime_one(m);
        crate::bigint::lemma_coprime_symmetric(m, 1);
    } else {
        let d = s.drop_last();
        assert forall|j: int| 0 <= j < d.len() && #[trigger] d[j].value() != m implies coprime(d[j].value(), m) by {
            assert(d[j] == s[j]);
        }
        lemma_product_without_coprime(d, m);
        if s.last().value() != m {
            assert(s[s.len() - 1].value() != m);
            crate::bigint::lemma_coprime_product(product_without(d, m), s.last().value(), m);
        }
    }
}

/// A value at least two is not coprime to itself.
proof fn lemma_not_coprime_self(p: int)
    requires
        p >= 2,
    ensures
        !coprime(p, p),
{
    if coprime(p, p) {
        let (s, t) = choose|s: int, t: int| #[trigger] crate::bigint::combines_to_one(p, p, s, t);
        assert(p * (s + t) == 1) by (nonlinear_arith)
            requires
                p * s + p * t == 1,
        ;
        assert(false) by (nonlinear_arith)
            requires
                p >= 2,
                p * (s + t) == 1,
        ;
    }
}

/// A value at some index occurs.
proof fn lemma_occurs_at(s: Seq<Prime>, j: int)
    requires
        0 <= j < s.len(),
    ensures
        occurrences(s, s[j].value()) > 0,
    decreases s.len(),
{
    if j < s.len() - 1 {
        lemma_occurs_at(s.drop_last(), j);
        assert(s.drop_last()[j] == s[j]);
    }
}

/// Keys that are pairwise coprime after a batch was added were so before.
pub proof fn lemma_coprime_keys_add(a: Map<int, nat>, batch: Seq<Prime>)
    requires
        coprime_keys(add_occurrences(a, batch)),
    ensures
        coprime_keys(a),
        forall|j: int| 0 <= j < batch.len() ==> add_occurrences(a, batch).contains_key(#[trigger] batch[j].value()),
{
    let b = add_occurrences(a, batch);
    assert forall|p: int| #[trigger] a.contains_key(p) implies p >= 2 by {
        assert(b.contains_key(p));
    }
    assert forall|p: int, q: int| #[trigger] a.contains_key(p) && #[trigger] a.contains_key(q) && p != q implies coprime(
        p,
        q,
    ) by {
        assert(b.contains_key(p));
        assert(b.contains_key(q));
    }
    assert forall|j: int| 0 <= j < batch.len() implies b.contains_key(#[trigger] batch[j].value()) by {
        lemma_occurs_at(batch, j);
    }
}

/// For a value `m` whose fellow keys after the batch are coprime to it, the
/// batch's product without `m`'s occurrences is coprime to `m`, and is not
/// `m`.
proof fn lemma_batch_cofactor(a: Map<int, nat>, batch: Seq<Prime>, m: int)
    requires
        coprime_keys(add_occurrences(a, batch)),
        add_occurrences(a, batch).contains_key(m),
    ensures
        pow(m, occurrences(batch, m)) > 0,
        prime_product(batch) == pow(m, occurrences(batch, m)) * product_without(batch, m),
        coprime(product_without(batch, m), m),
        product_without(batch, m) != m,
        m >= 2,
{
    let b = add_occurrences(a, batch);
    lemma_coprime_keys_add(a, batch);
    lemma_product_split(batch, m);
    vstd::arithmetic::power::lemma_pow_positive(m, occurrences(batch, m));
    assert forall|j: int| 0 <= j < batch.len() && #[trigger] batch[j].value() != m implies coprime(
        batch[j].value(),
        m,
    ) by {
        assert(b.contains_key(batch[j].value()));
    }
    lemma_product_without_coprime(batch, m);
    lemma_not_coprime_self(m);
}

/// A cached witness of a member that a batch leaves out, or that is the
/// batch's only element, stays sound when carried over the batch.
proof fn lemma_batch_step_sound<G: Group>(
    a: Map<int, nat>,
    batch: Seq<Prime>,
    p: int,
    w: (Option<int>, int, int),
    nw: (Option<int>, int, int),
    xv: int,
    cb: nat,
)
    requires
        coprime_keys(add_occurrences(a, batch)),
        batch.len() == 1 || (forall|j: int| 0 <= j < batch.len() ==> !a.contains_key(#[trigger] batch[j].value())),
        a.contains_key(p),
        xv == prime_product(batch),
        cb == occurrences(batch, p),
        witness_view_sound::<G>(w, p),
        G::is_element(w.0.unwrap()),
        G::is_element(w.2),
        nw == batch_incremented_witness::<G>(p, w, xv, cb),
        cb == 0 && p != xv && coprime(p, xv) && witness_view_sound::<G>(w, p) && G::is_element(w.2)
            ==> witness_view_sound::<G>(nw, p),
    ensures
        witness_view_sound::<G>(nw, p),
{
    assert(add_occurrences(a, batch).contains_key(p));
    lemma_batch_cofactor(a, batch, p);
    if cb == 0 {
        vstd::arithmetic::power::lemma_pow0(p);
        assert(xv == product_without(batch, p));
        crate::bigint::lemma_coprime_symmetric(product_without(batch, p), p);
    } else {
        lemma_occurrences_positive(batch, p);
        let j = choose|j: int| 0 <= j < batch.len() && #[trigger] batch[j].value() == p;
        assert(batch.len() == 1);
        assert(j == 0);
        assert(prime_product(batch.drop_last()) == 1);
        assert(occurrences(batch.drop_last(), p) == 0);
        assert(xv == p);
        assert(cb == 1);
        vstd::arithmetic::power::lemma_pow1(p);
        vstd::arithmetic::div_mod::lemma_div_by_self(p);
        G::lemma_mul_basics(w.0.unwrap());
    }
}

/// What a new member of a batch needs for its non-membership witness to
/// carry over: the rest of the batch is coprime to it, and its cached
/// witness holds against the old digest.
proof fn lemma_new_member_premises<G: Group>(
    a: Map<int, nat>,
    batch: Seq<Prime>,
    m: int,
    e: int,
    xv: int,
    em: int,
    d: int,
    fw: (int, int),
)
    requires
        coprime_keys(add_occurrences(a, batch)),
        occurrences(batch, m) > 0,
        xv == prime_product(batch),
        em == xv / pow(m, occurrences(batch, m)),
        d == digest_of::<G>(e),
        fw == fresh_nonmember::<G>(e, m),
        bezout_one(e, m),
    ensures
        em != m,
        coprime(m, em),
        nonmember_equation::<G>(d, fw.0, fw.1, m),
{
    assert(add_occurrences(a, batch).contains_key(m));
    lemma_batch_cofactor(a, batch, m);
    let pm = pow(m, occurrences(batch, m));
    let pw = product_without(batch, m);
    assert(xv == pw * pm) by (nonlinear_arith)
        requires
            xv == pm * pw,
    ;
    vstd::arithmetic::div_mod::lemma_div_multiples_vanish(pw, pm);
    assert(em == pw);
    crate::bigint::lemma_coprime_symmetric(pw, m);
    lemma_fresh_witness_sound::<G>(e, m, gcd_ext(e, m).1, gcd_ext(e, m).2);
}

impl<G: Group> AccumulatorTrait for Accumulator<G> {
    type Digest = Digest<G>;

    type Witness = Witness<G>;

    type AppendOnlyWitness = AppendOnlyWitness<G>;

    type NonMembershipWitness = NonMembershipWitness<G>;

    closed spec fn digest_view(&self) -> int {
        self.digest.value()
    }

    open spec fn spec_verify(digest: int, member: int, revision: u32, witness: (Option<int>, int, int)) -> bool {
        witness_verdict::<G>(digest, member, revision as nat, witness)
    }

    open spec fn spec_verify_append_only(
        digest: int,
        proof: Seq<(Option<(int, int, int)>, int)>,
        new_state: int,
    ) -> bool {
        chain_ok::<G>(proof, new_state, digest)
    }

    /// The state is consistent: the digest is the generator raised to the
    /// exponent, which is the product of the members; every member has a
    /// cached witness; the history ends at the digest; every recorded digest
    /// points into the history.
    closed spec fn wf(&self) -> bool {
        let e = self.exponent@;
        &&& G::is_element(self.digest.value())
        &&& self.digest.value() == digest_of::<G>(e)
        &&& e == self.multiset.product()
        &&& e > 0
        &&& forall|p: int| #[trigger] self.multiset@.contains_key(p) ==> p > 0
        &&& forall|p: int| #[trigger] self.multiset@.contains_key(p) ==> self.multiset@[p] > 0
        &&& forall|p: int| #[trigger]
            self.proof_cache@.contains_key(p) <==> self.multiset@.contains_key(p)
        &&& forall|p: int| #[trigger]
            self.proof_cache@.contains_key(p) ==> cached_witness_ok::<G>(
                e,
                p,
                self.multiset@[p],
                self.proof_cache@[p]@,
            )
        &&& forall|p: int| #[trigger]
            self.nonmember_proof_cache@.contains_key(p) ==> !self.multiset@.contains_key(p) && gcd_ext(
            e,
            p,
        ).0 == 1 && bezout_one(e, p) && (
            self.nonmember_proof_cache@[p].exp(),
            self.nonmember_proof_cache@[p].base(),
        ) == fresh_nonmember::<G>(e, p) && G::is_element(self.nonmember_proof_cache@[p].base())
        &&& self.history.wf()
        &&& self.history.items().len() >= 1
        &&& self.history.items().last().1 == self.digest.value()
        &&& self.digests_to_indexes@.contains_key(self.digest.value())
        &&& self.digests_to_indexes@[self.digest.value()] == self.history.items().len() - 1
        &&& forall|d: int| #[trigger]
            self.digests_to_indexes@.contains_key(d) ==> self.digests_to_indexes@[d]
                < self.history.items().len() && self.history.items()[self.digests_to_indexes@[d] as int].1
                == d
    }

    /// How often each prime occurs, by value.
    closed spec fn members(&self) -> Map<int, nat> {
        self.multiset@
    }

    /// `increment` can add `member`: it occurs already or is coprime to the
    /// exponent, and neither its count nor the history is full.
    open spec fn can_increment(&self, member: int) -> bool {
        &&& self.wf()
        &&& count_of(self.members(), member) < u32::MAX
        &&& self.history().len() < usize::MAX
        &&& (count_of(self.members(), member) > 0 || gcd_ext(self.exponent(), member).0 == 1)
    }

    /// `prove_append_only` can answer for `prefix`: it is an older digest
    /// recorded in the history, and the skip list holds a path from it.
    open spec fn can_prove_append_only(&self, prefix: int) -> bool {
        &&& self.wf()
        &&& prefix != self.digest_value()
        &&& self.digest_indexes().contains_key(prefix)
        &&& self.history().len() <= isize::MAX
        &&& crate::primitives::skip_list::read_path_ok(
            self.digest_indexes()[prefix] as nat,
            (self.history().len() - 1) as nat,
            self.history().len(),
        )
    }

    /// The digest.
    fn digest(&self) -> (r: &Digest<G>)
        ensures
            r.value() == self.digest_value(),
            r@ == self.digest_value(),
    {
        &self.digest
    }

    /// O(N)
    fn increment(&mut self, member: Prime)
        ensures
            final(self).wf(),
            final(self).members() == old(self).members().insert(
                member.value(),
                count_of(old(self).members(), member.value()) + 1,
            ),
            final(self).exponent() == old(self).exponent() * member.value(),
            final(self).digest_value() == G::spec_mul(old(self).digest_value(), member.value()),
            final(self).history() == old(self).history().push(
                (member.value(), final(self).digest_value()),
            ),
            (old(self).coprime_members() ==> old(self).witnesses_sound()) ==> (final(self).coprime_members()
                ==> final(self).witnesses_sound()),
            forall|p: int| #[trigger]
                final(self).cached_witnesses().contains_key(p) ==> final(self).members().contains_key(p)
                    && final(self).cached_witnesses()[p].0 is Some && G::spec_mul(
                    final(self).cached_witnesses()[p].0.unwrap(),
                    pow(p, count_of(final(self).members(), p)),
                ) == final(self).digest_value(),
    {
        let ghost e = self.exponent@;
        let ghost m = member.value();
        let ghost members0 = self.multiset@;
        let ghost sound0 = self.coprime_members() ==> self.witnesses_sound();
        let ghost cop = coprime_keys(members0.insert(m, count_of(members0, m) + 1));
        proof {
            if cop {
                lemma_coprime_keys_insert(members0, m, count_of(members0, m) + 1);
            }
        }
        let m_ref = member.inner();
        proof {
            G::lemma_constants();
            assert(m > 0);
        }

        // If this is the first time this value is added, it needs a
        // non-membership witness against the current digest.
        let fresh = if self.proof_cache.contains_key(&member) {
            None
        } else {
            match self.prove_nonmember(&member) {
                Some(w) => Some(w),
                None => {
                    proof {
                        assert(false);
                    }
                    None
                },
            }
        };

        // We need to update every membership proof, *except* our own!
        let n = self.proof_cache.len();
        let ghost cache0 = self.proof_cache@;
        let ghost entries0 = self.proof_cache.entries();
        let ghost history0 = self.history;
        let ghost indexes0 = self.digests_to_indexes;
        proof {
            if cop && sound0 {
                assert forall|j: int| 0 <= j < n implies witness_view_sound::<G>(
                    #[trigger] entries0[j].1@,
                    entries0[j].0.value(),
                ) by {
                    lemma_entries_map_index(entries0, j);
                    assert(self.cached_witnesses().contains_key(entries0[j].0.value()));
                }
            }
            assert forall|j: int| 0 <= j < n implies cached_witness_ok::<G>(
                e,
                #[trigger] entries0[j].0.value(),
                members0[entries0[j].0.value()],
                entries0[j].1@,
            ) && members0.contains_key(entries0[j].0.value()) by {
                lemma_entries_map_index(entries0, j);
            }
        }
        let mut i: usize = 0;
        while i < n
            invariant
                self.history == history0,
                self.digests_to_indexes == indexes0,
                history0.wf(),
                history0.items().len() >= 1,
                history0.items().len() < usize::MAX,
                forall|d: int| #[trigger]
                    indexes0@.contains_key(d) ==> indexes0@[d] < history0.items().len()
                        && history0.items()[indexes0@[d] as int].1 == d,
                forall|p: int| #[trigger] members0.contains_key(p) ==> p > 0,
                members0 == self.multiset@,
                e == self.multiset.product(),
                n == self.proof_cache.entries().len() == entries0.len(),
                ids_distinct(entries0),
                i <= n,
                m == member.value(),
                m > 0,
                e > 0,
                self.exponent@ == e,
                self.multiset@ == members0,
                self.digest.value() == digest_of::<G>(e),
                G::is_element(G::spec_one()),
                forall|j: int| 0 <= j < n ==> #[trigger] self.proof_cache.entries()[j].0 == entries0[j].0,
                forall|j: int| i <= j < n ==> #[trigger] self.proof_cache.entries()[j].1 == entries0[j].1,
                forall|j: int|
                    0 <= j < n ==> cached_witness_ok::<G>(
                        e,
                        #[trigger] entries0[j].0.value(),
                        members0[entries0[j].0.value()],
                        entries0[j].1@,
                    ) && members0.contains_key(entries0[j].0.value()),
                forall|j: int|
                    0 <= j < i ==> cached_witness_ok::<G>(
                        e * m,
                        #[trigger] self.proof_cache.entries()[j].0.value(),
                        members0.insert(m, count_of(members0, m) + 1)[self.proof_cache.entries()[j].0.value()],
                        self.proof_cache.entries()[j].1@,
                    ),
                cop == coprime_keys(members0.insert(m, count_of(members0, m) + 1)),
                cop ==> coprime_keys(members0),
                sound0 && cop ==> forall|j: int|
                    0 <= j < n ==> witness_view_sound::<G>(#[trigger] entries0[j].1@, entries0[j].0.value()),
                sound0 && cop ==> forall|j: int|
                    0 <= j < i ==> witness_view_sound::<G>(
                        #[trigger] self.proof_cache.entries()[j].1@,
                        entries0[j].0.value(),
                    ),
            decreases n - i,
        {
            let ghost p = entries0[i as int].0.value();
            let ghost c = members0[p];
            let ghost w = entries0[i as int].1@;
            proof {
                assert(cached_witness_ok::<G>(e, p, c, w));
                assert(self.proof_cache.entries()[i as int].1 == entries0[i as int].1);
                assert(self.proof_cache.entries()[i as int].0 == entries0[i as int].0);
            }
            self.update_cached(i, &member);
            proof {
                if sound0 && cop {
                    assert(members0.contains_key(p));
                    if p != m {
                        assert(members0.insert(m, count_of(members0, m) + 1).contains_key(p));
                        assert(members0.insert(m, count_of(members0, m) + 1).contains_key(m));
                    }
                    assert(witness_view_sound::<G>(w, p));
                }
                let k = e / pow(p, c);
                lemma_cofactor_nonneg(e, pow(p, c));
                if p == m {
                    lemma_cofactor_step(e, p, c);
                    assert(count_of(members0, m) == c);
                } else {
                    lemma_cofactor_scale(e, pow(p, c), m);
                    G::lemma_mul_mul(G::spec_one(), k, m);
                }
                let nw = self.proof_cache.entries()[i as int].1@;
                assert(nw == incremented_witness::<G>(p, w, m));
                if p == m {
                    assert(nw.0.unwrap() == w.0.unwrap());
                    assert(w.0.unwrap() == digest_of::<G>(k));
                    assert((e * p) / pow(p, c + 1) == k);
                } else {
                    assert(nw.0.unwrap() == G::spec_mul(w.0.unwrap(), m));
                    assert(w.0.unwrap() == digest_of::<G>(k));
                    assert((e * m) / pow(p, c) == k * m);
                    assert(nw.0.unwrap() == digest_of::<G>(k * m));
                }
                assert(cached_witness_ok::<G>(
                    e * m,
                    p,
                    members0.insert(m, count_of(members0, m) + 1)[p],
                    nw,
                ));
            }
            i += 1;
        }
        let ghost cache1 = self.proof_cache@;
        let ghost entries1 = self.proof_cache.entries();
        proof {
            assert forall|p: int| #[trigger] cache1.contains_key(p) implies cache0.contains_key(p)
                && cached_witness_ok::<G>(
                e * m,
                p,
                members0.insert(m, count_of(members0, m) + 1)[p],
                cache1[p]@,
            ) by {
                lemma_entries_map_dom(self.proof_cache.entries(), p);
                let j = choose|j: int| 0 <= j < n && #[trigger] self.proof_cache.entries()[j].0.id() == p;
                lemma_entries_map_index(self.proof_cache.entries(), j);
                lemma_entries_map_dom(entries0, p);
                assert(entries0[j].0.id() == p);
            }
            assert forall|p: int| #[trigger] cache0.contains_key(p) implies cache1.contains_key(p) by {
                lemma_entries_map_dom(entries0, p);
                let j = choose|j: int| 0 <= j < n && #[trigger] entries0[j].0.id() == p;
                lemma_entries_map_dom(self.proof_cache.entries(), p);
                assert(self.proof_cache.entries()[j].0.id() == p);
            }
        }

        // Because the membership proof is just the digest *without* the member
        // added, this is just the digest *before* we add the member!
        match fresh {
            Some(nonmember) => {
                let membership_proof = MembershipWitness(self.digest.0.duplicate());
                proof {
                    vstd::arithmetic::power::lemma_pow1(m);
                    vstd::arithmetic::div_mod::lemma_mod_multiples_basic(e, m);
                    vstd::arithmetic::div_mod::lemma_div_multiples_vanish(e, m);
                    assert(e * m == m * e) by (nonlinear_arith);
                    assert(count_of(members0, m) == 0);
                }
                self.proof_cache.insert(member.clone(), Witness { member: Some(membership_proof), nonmember });
                proof {
                    let f = fresh_nonmember::<G>(e, m);
                    lemma_fresh_witness_sound::<G>(e, m, gcd_ext(e, m).1, gcd_ext(e, m).2);
                    assert(witness_view_sound::<G>(self.proof_cache@[m]@, m));
                    assert(cached_witness_ok::<G>(
                        e * m,
                        m,
                        members0.insert(m, count_of(members0, m) + 1)[m],
                        self.proof_cache@[m]@,
                    ));
                }
            },
            None => {
                proof {
                    assert(cache1.contains_key(m));
                }
            },
        }
        let ghost cache2 = self.proof_cache@;
        proof {
            if sound0 && cop {
                assert forall|p: int| #[trigger] cache2.contains_key(p) implies witness_view_sound::<G>(
                    cache2[p]@,
                    p,
                ) by {
                    if p != m || cache1.contains_key(m) {
                        assert(cache1.contains_key(p));
                        assert(cache2[p] == cache1[p]);
                        lemma_entries_map_dom(entries1, p);
                        let j = choose|j: int| 0 <= j < entries1.len() && #[trigger] entries1[j].0.id() == p;
                        lemma_entries_map_index(entries1, j);
                        assert(entries1[j].0 == entries0[j].0);
                    }
                }
            }
        }

        // Update the digest to add the member.
        let new_digest = self.digest.0.mul(m_ref);
        self.digest = Digest(new_digest);
        self.exponent = multiply(&self.exponent, m_ref);
        self.multiset.insert(member.clone());
        proof {
            G::lemma_mul_mul(G::spec_one(), e, m);
            assert(e * m > 0) by (nonlinear_arith)
                requires
                    e > 0,
                    m > 0,
            ;
        }

        self.history.add(HistoryEntry::new(member.into_inner(), self.digest.duplicate()));

        // Update the digest history.
        let last = self.history.len() - 1;
        self.digests_to_indexes.insert(self.digest.duplicate(), last);

        // Invalidate the nonmembership proof cache.
        self.nonmember_proof_cache = KeyedMap::new();
        proof {
            assert forall|d: int| #[trigger]
                self.digests_to_indexes@.contains_key(d) implies self.digests_to_indexes@[d]
                < self.history.items().len() && self.history.items()[self.digests_to_indexes@[d] as int].1
                == d by {
                if d != self.digest.value() {
                    assert(indexes0@.contains_key(d));
                }
            }
            assert forall|p: int| #[trigger] self.multiset@.contains_key(p) implies p > 0 by {
                if p != m {
                    assert(members0.contains_key(p));
                }
            }
            assert forall|p: int| #[trigger]
                self.proof_cache@.contains_key(p) <==> self.multiset@.contains_key(p) by {
                if p != m {
                    assert(cache1.contains_key(p) <==> cache0.contains_key(p));
                }
            }
            assert forall|p: int| #[trigger] self.proof_cache@.contains_key(p) implies cached_witness_ok::<G>(
                e * m,
                p,
                self.multiset@[p],
                self.proof_cache@[p]@,
            ) by {
                if p != m {
                    assert(cache1.contains_key(p));
                }
            }
            if sound0 && cop {
                assert(self.proof_cache@ == cache2);
                assert forall|p: int| #[trigger] self.cached_witnesses().contains_key(p) implies witness_view_sound::<G>(
                    self.cached_witnesses()[p],
                    p,
                ) by {
                    assert(cache2.contains_key(p));
                }
            }
            assert(self.multiset@ == members0.insert(m, count_of(members0, m) + 1));
        }
        proof {
            lemma_cached_witnesses_verify(&*self);
        }
    }

    /// Proofs from the digest `prefix` to the current one.
    fn prove_append_only(&self, prefix: &Digest<G>) -> (r: AppendOnlyWitness<G>)
        ensures
            r@ == read_steps::<G>(
                crate::primitives::skip_list::read_spec::<HistoryEntry<G>>(
                    self.history(),
                    self.digest_indexes()[prefix.value()] as nat,
                    (self.history().len() - 1) as nat,
                ),
            ),
            chained::<G>(self.history()) && (forall|k: int| 0 <= k < r@.len() ==> (#[trigger] r@[k]).0 is Some) ==> chain_ok::<G>(r@, self.digest_value(), prefix.value()),
    {
        proof {
            lemma_wf_history(self);
        }
        let cur_idx = match self.digests_to_indexes.get(prefix) {
            Some(i) => *i,
            None => {
                proof {
                    assert(false);
                }
                0
            },
        };
        let idx = self.history.len() - 1;
        let proof_value_list = self.history.read(cur_idx, idx);
        let ghost reads = crate::primitives::skip_list::read_views::<HistoryEntry<G>>(proof_value_list@);
        let mut inner: Vec<(StepProof<G>, G)> = Vec::new();
        let mut i: usize = 0;
        while i < proof_value_list.len()
            invariant
                i <= proof_value_list@.len(),
                reads == crate::primitives::skip_list::read_views::<HistoryEntry<G>>(proof_value_list@),
                step_views(inner@) == read_steps::<G>(reads.subrange(0, i as int)),
            decreases proof_value_list@.len() - i,
        {
            let step = HistoryEntry::<G>::clone_proof(&proof_value_list[i].0);
            let g = proof_value_list[i].1.end_digest.0.duplicate();
            let ghost before = inner@;
            let ghost sv = (step@, g.value());
            inner.push((step, g));
            proof {
                assert(step_views(inner@) =~= step_views(before).push(sv));
                assert(reads[i as int] == (proof_value_list@[i as int].0@, proof_value_list@[i as int].1@));
                assert(reads.subrange(0, i + 1) =~= reads.subrange(0, i as int).push(reads[i as int]));
                assert(read_steps::<G>(reads.subrange(0, i + 1)) =~= read_steps::<G>(
                    reads.subrange(0, i as int),
                ).push(sv));
            }
            i += 1;
        }
        assert(reads.subrange(0, reads.len() as int) =~= reads);
        proof {
            let cur = self.digest_indexes()[prefix.value()] as nat;
            let end = (self.history().len() - 1) as nat;
            let steps = read_steps::<G>(read_spec::<HistoryEntry<G>>(self.history(), cur, end));
            if chained::<G>(self.history()) && forall|k: int| 0 <= k < steps.len() ==> (#[trigger] steps[k]).0 is Some {
                lemma_read_chain::<G>(self.history(), cur, end);
            }
        }
        AppendOnlyWitness { inner }
    }

    /// A witness that `member` occurs exactly `revision` times; none if it
    /// does not, or (for a non-member) if no non-membership witness exists.
    fn prove(&mut self, member: &Prime, revision: u32) -> (r: Option<Witness<G>>)
        ensures
            forall|v: int| #[trigger] old(self).cached_nonmember_witnesses().contains_key(v) ==> final(self).cached_nonmember_witnesses().contains_key(v),
            final(self).cached_witnesses() == old(self).cached_witnesses(),
            final(self).wf(),
            final(self).members() == old(self).members(),
            final(self).exponent() == old(self).exponent(),
            final(self).digest_value() == old(self).digest_value(),
            final(self).history() == old(self).history(),
            final(self).digest_indexes() == old(self).digest_indexes(),
            r is Some <==> revision == count_of(old(self).members(), member.value()) && (revision > 0
                || gcd_ext(old(self).exponent(), member.value()).0 == 1),
            revision > 0 && r is Some ==> r.unwrap()@ == old(self).cached_witnesses()[member.value()],
            revision > 0 && r is Some ==> r.unwrap()@.0 is Some,
            revision == 0 && r is Some ==> ({
                let f = fresh_nonmember::<G>(old(self).exponent(), member.value());
                r.unwrap()@ == (None::<int>, f.0, f.1)
            }),
            r matches Some(w) ==> (w@.0 matches Some(m) ==> G::spec_mul(
                m,
                pow(member.value(), revision as nat),
            ) == old(self).digest_value()),
            revision == 0 || old(self).witnesses_sound() ==> (r matches Some(w) ==> witness_verdict::<G>(
                old(self).digest_value(),
                member.value(),
                revision as nat,
                w@,
            )),
    {
        if self.multiset.get(member) != revision {
            return None;
        }
        if revision == 0 {
            let ghost e = self.exponent@;
            let r = match self.prove_nonmember(member) {
                Some(w) => Some(Witness::for_zero(w)),
                None => None,
            };
            proof {
                if r is Some {
                    lemma_fresh_witness_sound::<G>(e, member.value(), gcd_ext(e, member.value()).1, gcd_ext(e, member.value()).2);
                }
            }
            return r;
        }
        let r = match self.proof_cache.get(member) {
            Some(w) => Some(w.duplicate()),
            None => {
                proof {
                    assert(false);
                }
                None
            },
        };
        proof {
            let p = member.value();
            assert(self.proof_cache@.contains_key(p));
            assert(cached_witness_ok::<G>(self.exponent@, p, self.multiset@[p], self.proof_cache@[p]@));
            lemma_member_witness_verifies::<G>(
                self.exponent@,
                p,
                self.multiset@[p],
                self.proof_cache@[p]@.0.unwrap(),
            );
            if self.witnesses_sound() {
                assert(self.cached_witnesses().contains_key(p));
            }
        }
        r
    }

    /// The non-membership witness for `value`, from the cache where it is
    /// there; none if `value` is a member.
    fn prove_nonmember(&mut self, value: &Prime) -> (r: Option<NonMembershipWitness<G>>)
        ensures
            forall|v: int| #[trigger] old(self).cached_nonmember_witnesses().contains_key(v) ==> final(self).cached_nonmember_witnesses().contains_key(v),
            final(self).wf(),
            final(self).members() == old(self).members(),
            final(self).exponent() == old(self).exponent(),
            final(self).digest_value() == old(self).digest_value(),
            final(self).history() == old(self).history(),
            final(self).digest_indexes() == old(self).digest_indexes(),
            final(self).cached_witnesses() == old(self).cached_witnesses(),
            r is Some <==> count_of(old(self).members(), value.value()) == 0 && gcd_ext(
                old(self).exponent(),
                value.value(),
            ).0 == 1,
            r matches Some(w) ==> (w.exp(), w.base()) == fresh_nonmember::<G>(
                old(self).exponent(),
                value.value(),
            ) && G::is_element(w.base()),
            r is Some ==> final(self).cached_nonmember_witnesses().contains_key(value.value()),
            r is Some ==> bezout_one(old(self).exponent(), value.value()),
    {
        match self.nonmember_proof_cache.get(value) {
            Some(proof) => {
                return Some(proof.duplicate());
            },
            None => {},
        }
        let r = self.prove_nonmember_uncached(value);
        match r {
            Some(proof) => {
                let copy = proof.duplicate();
                let key = value.clone();
                let ghost before = self.nonmember_proof_cache@;
                self.nonmember_proof_cache.insert(key, copy);
                proof {
                    assert(self.cached_witnesses() =~= old(self).cached_witnesses());
                    let e = self.exponent@;
                    assert(!self.multiset@.contains_key(value.value()));
                    assert forall|p: int| #[trigger]
                        self.nonmember_proof_cache@.contains_key(p) implies !self.multiset@.contains_key(p)
                        && gcd_ext(e, p).0 == 1 && bezout_one(e, p) && (
                        self.nonmember_proof_cache@[p].exp(),
                        self.nonmember_proof_cache@[p].base(),
                    ) == fresh_nonmember::<G>(e, p) && G::is_element(self.nonmember_proof_cache@[p].base()) by {
                        if p != value.value() {
                            assert(before.contains_key(p));
                        }
                    }
                }
                Some(proof)
            },
            None => None,
        }
    }

    /// How often `member` occurs.
    fn get(&self, member: &Prime) -> (r: u32)
        ensures
            r == count_of(self.members(), member.value()),
    {
        self.multiset.get(member)
    }

    /// An accumulator of `multiset`, with the witnesses of all its members.
    fn import(multiset: MultiSet<Prime>) -> (r: Self)
        ensures
            r.wf(),
            r.members() == multiset@,
            r.exponent() == multiset.product(),
            r.history().len() == 1,
            r.digest_value() == digest_of::<G>(r.exponent()),
            r.coprime_members() ==> r.witnesses_sound(),
            forall|p: int| #[trigger]
                r.cached_witnesses().contains_key(p) ==> r.members().contains_key(p)
                    && r.cached_witnesses()[p].0 is Some && G::spec_mul(
                    r.cached_witnesses()[p].0.unwrap(),
                    pow(p, count_of(r.members(), p)),
                ) == r.digest_value(),
    {
        // Precompute membership proofs:
        let entries = multiset.iter();
        let mut members: Vec<MemberCount> = Vec::new();
        let mut i: usize = 0;
        while i < entries.len()
            invariant
                i <= entries@.len(),
                members@.len() == i,
                forall|j: int|
                    0 <= j < i ==> #[trigger] members@[j].index@ == entries@[j].0.value()
                        && members@[j].index@ > 0 && members@[j].count == entries@[j].1
                        && members@[j].value@ == pow(entries@[j].0.value(), entries@[j].1 as nat)
                        && members@[j].value@ > 0,
            decreases entries@.len() - i,
        {
            let index = entries[i].0.inner().clone();
            proof {
                vstd::arithmetic::power::lemma_pow_positive(index@, entries@[i as int].1 as nat);
            }
            members.push(MemberCount::new(index, entries[i].1));
            i += 1;
        }
        proof {
            assert forall|j: int| 0 <= j < members@.len() implies #[trigger] members@[j].value@ > 0
                && members@[j].value@ == pow(entries@[j].0.value(), entries@[j].1 as nat) by {
                assert(members@[j].index@ == entries@[j].0.value());
            }
        }
        let (mut proofs, digest, foo) = precompute::<G>(members.as_slice());
        proof {
            lemma_values_product(members@, entries@);
        }
        let ghost vals = member_values(members@);
        let ghost all = proofs@;
        let mut proof_cache: KeyedMap<Prime, Witness<G>> = KeyedMap::new();
        let mut k: usize = members.len();
        while k > 0
            invariant
                k <= members@.len() == entries@.len(),
                proofs@ == all.subrange(0, k as int),
                all.len() == members@.len(),
                forall|j: int|
                    0 <= j < members@.len() ==> #[trigger] members@[j].index@ == entries@[j].0.value()
                        && members@[j].index@ > 0 && members@[j].count == entries@[j].1
                        && members@[j].value@ == pow(entries@[j].0.value(), entries@[j].1 as nat)
                        && members@[j].value@ > 0,
                forall|p: int| #[trigger]
                    proof_cache@.contains_key(p) <==> exists|j: int|
                        k <= j < members@.len() && #[trigger] entries@[j].0.value() == p,
                forall|j: int|
                    k <= j < members@.len() ==> #[trigger] proof_cache@[entries@[j].0.value()] == all[j],
                well_formed(entries@),
            decreases k,
        {
            k -= 1;
            let w = proofs.pop().unwrap();
            let key = Prime::new_unchecked(members[k].index.clone());
            let ghost before = proof_cache@;
            proof_cache.insert(key, w);
            proof {
                assert(proofs@ =~= all.subrange(0, k as int));
                assert forall|p: int| #[trigger]
                    proof_cache@.contains_key(p) <==> exists|j: int|
                        k <= j < members@.len() && #[trigger] entries@[j].0.value() == p by {
                    if proof_cache@.contains_key(p) && p != entries@[k as int].0.value() {
                        let j = choose|j: int| k + 1 <= j < members@.len() && #[trigger] entries@[j].0.value() == p;
                    }
                    if exists|j: int| k <= j < members@.len() && #[trigger] entries@[j].0.value() == p {
                        let j = choose|j: int| k <= j < members@.len() && #[trigger] entries@[j].0.value() == p;
                        if j > k {
                            assert(before.contains_key(p));
                        }
                    }
                }
                assert forall|j: int| k <= j < members@.len() implies #[trigger] proof_cache@[entries@[j].0.value()]
                    == all[j] by {
                    if j > k {
                        assert(entries@[j].0.value() != entries@[k as int].0.value());
                    }
                }
            }
        }

        let mut history: SkipList<HistoryEntry<G>> = SkipList::new();
        history.add(HistoryEntry::new(foo.exponent.clone(), digest.duplicate()));
        let mut digests_to_indexes: KeyedMap<Digest<G>, usize> = KeyedMap::new();
        digests_to_indexes.insert(digest.duplicate(), 0);
        let r = Accumulator {
            digest,
            multiset,
            proof_cache,
            nonmember_proof_cache: KeyedMap::new(),
            history,
            digests_to_indexes,
            exponent: foo.exponent,
        };
        proof {
            let e = r.exponent@;
            lemma_index_product_nonneg(vals);
            assert forall|p: int| #[trigger] r.multiset@.contains_key(p) implies p > 0 by {
                lemma_counts_dom(entries@, p);
                let j = choose|j: int| 0 <= j < entries@.len() && #[trigger] entries@[j].0.id() == p;
                assert(members@[j].index@ > 0);
            }
            assert forall|p: int| #[trigger]
                r.proof_cache@.contains_key(p) <==> r.multiset@.contains_key(p) by {
                lemma_counts_dom(entries@, p);
                if r.multiset@.contains_key(p) {
                    let j = choose|j: int| 0 <= j < entries@.len() && #[trigger] entries@[j].0.id() == p;
                    assert(entries@[j].0.value() == p);
                }
            }
            assert forall|p: int| #[trigger] r.proof_cache@.contains_key(p) implies cached_witness_ok::<G>(
                e,
                p,
                r.multiset@[p],
                r.proof_cache@[p]@,
            ) by {
                let j = choose|j: int| 0 <= j < members@.len() && #[trigger] entries@[j].0.value() == p;
                lemma_counts_index(entries@, j);
                assert(precomputed_ok::<G>(all[j], digest_of::<G>(product_except(vals, j))));
                lemma_product_except(vals, j);
                let q = vals[j];
                let pe = product_except(vals, j);
                assert(q == pow(p, r.multiset@[p]));
                assert(members@[j].value@ > 0);
                assert(q > 0);
                vstd::arithmetic::div_mod::lemma_mod_multiples_basic(pe, q);
                vstd::arithmetic::div_mod::lemma_div_multiples_vanish(pe, q);
                assert(e == pe * q);
                assert(pe * q == q * pe) by (nonlinear_arith);
                assert(e % q == 0);
                assert(e / q == pe);
                assert(r.proof_cache@[p] == all[j]);
                let w = all[j];
                assert(w@.0 == Some(w.member.unwrap().value()));
                assert(member_witness_ok::<G>(e, p, r.multiset@[p], w@.0.unwrap()));
            }
            if r.coprime_members() {
                assert forall|i: int| 0 <= i < members@.len() implies #[trigger] members@[i].index@ >= 2
                    && members@[i].count >= 1 && members@[i].value@ == pow(
                    members@[i].index@,
                    members@[i].count as nat,
                ) by {
                    lemma_counts_index(entries@, i);
                    let q = entries@[i].0.value();
                    assert(r.members().contains_key(q));
                    assert(coprime_keys(r.members()));
                    assert(q >= 2);
                    assert(members@[i].index@ == q);
                    assert(members@[i].count == entries@[i].1);
                    assert(entries@[i].1 > 0);
                }
                assert forall|i: int, j: int|
                    0 <= i < members@.len() && 0 <= j < members@.len() && i != j implies coprime(
                    #[trigger] members@[i].index@,
                    #[trigger] members@[j].index@,
                ) by {
                    lemma_counts_index(entries@, i);
                    lemma_counts_index(entries@, j);
                    assert(r.members().contains_key(entries@[i].0.value()));
                    assert(r.members().contains_key(entries@[j].0.value()));
                    if i < j {
                        assert(entries@[i].0.id() != entries@[j].0.id());
                    } else {
                        assert(entries@[j].0.id() != entries@[i].0.id());
                    }
                }
                assert(coprime_members_seq(members@));
                assert forall|p: int| #[trigger] r.cached_witnesses().contains_key(p) implies witness_view_sound::<G>(
                    r.cached_witnesses()[p],
                    p,
                ) by {
                    let j = choose|j: int| 0 <= j < members@.len() && #[trigger] entries@[j].0.value() == p;
                    assert(r.proof_cache@[p] == all[j]);
                    assert(witness_view_sound::<G>(all[j]@, members@[j].index@));
                }
            }
        }
        proof {
            lemma_cached_witnesses_verify(&r);
        }
        r
    }

    /// Whether `witness` shows that `index` occurs `revision` times in the
    /// multiset with digest `digest`.
    fn verify(digest: &Digest<G>, index: &Prime, revision: u32, witness: Witness<G>) -> (r: bool)
        ensures
            r == witness_verdict::<G>(digest.value(), index.value(), revision as nat, witness@),
    {
        // member@revision is valid IF
        // (a) member@revision is in the set and
        // (b) member is NOT in the set corresponding to the membership proof for (a)
        digest.verify_counted(index.inner(), revision, &witness)
    }

    /// Whether `proof` shows that `new_state` was reached from `digest` by
    /// adding members.
    fn verify_append_only(digest: &Digest<G>, proof: &AppendOnlyWitness<G>, new_state: &Digest<G>) -> (r:
        bool)
        ensures
            r == chain_ok::<G>(proof@, new_state.value(), digest.value()),
    {
        let mut cur = new_state.0.duplicate();
        let mut i: usize = proof.inner.len();
        assert(proof@.subrange(0, i as int) =~= proof@);
        while i > 0
            invariant
                i <= proof.inner@.len(),
                chain_ok::<G>(proof@, new_state.value(), digest.value()) == chain_ok::<G>(
                    proof@.subrange(0, i as int),
                    cur.value(),
                    digest.value(),
                ),
            decreases i,
        {
            let (inner_proof, value) = (&proof.inner[i - 1].0, &proof.inner[i - 1].1);
            let ghost steps = proof@.subrange(0, i as int);
            proof {
                assert(steps.drop_last() =~= proof@.subrange(0, i - 1));
                assert(steps.last() == (inner_proof@, value.value()));
            }
            let zku = poke::ZKUniverse::<G>::default();
            let p = match inner_proof.inner() {
                Some(p) => p.duplicate(),
                None => {
                    return false;
                },
            };
            let instance = poke::Instance { w: cur, u: value.duplicate() };
            if !zku.verify(instance, p) {
                return false;
            }
            cur = value.duplicate();
            i -= 1;
        }
        proof {
            assert(proof@.subrange(0, 0) =~= Seq::<(Option<(int, int, int)>, int)>::empty());
            assert(proof@.subrange(0, proof@.len() as int) =~= proof@);
        }
        cur.equals(&digest.0)
    }
}

impl<G: Group> BatchAccumulator for Accumulator<G> {
    type BatchWitness = BatchWitness<Witness<G>>;

    open spec fn can_prove_batch(&self, entries: Seq<Prime>) -> bool {
        &&& self.wf()
        &&& forall|j: int|
            0 <= j < entries.len() ==> count_of(self.members(), #[trigger] entries[j].value()) > 0
                || gcd_ext(self.exponent(), entries[j].value()).0 == 1
    }

    open spec fn spec_verify_batch(
        digest: int,
        members: Map<int, u32>,
        witness: Map<int, (Option<int>, int, int)>,
    ) -> bool {
        forall|p: int| #[trigger]
            members.contains_key(p) ==> witness.contains_key(p) && witness_verdict::<G>(
                digest,
                p,
                members[p] as nat,
                witness[p],
            )
    }

    fn prove_batch(&mut self, entries: Vec<Prime>) -> (r: (KeyedMap<Prime, u32>, BatchWitness<Witness<G>>))
        ensures
            forall|p: int| #[trigger]
                r.0@.contains_key(p) ==> r.1@.contains_key(p) && (r.1@[p].0 matches Some(m)
                    ==> G::spec_mul(m, pow(p, r.0@[p] as nat)) == old(self).digest_value()),
            old(self).witnesses_sound() ==> forall|p: int| #[trigger]
                r.0@.contains_key(p) ==> witness_verdict::<G>(old(self).digest_value(), p, r.0@[p] as nat, r.1@[p]),
            final(self).exponent() == old(self).exponent(),
            final(self).digest_value() == old(self).digest_value(),
            final(self).history() == old(self).history(),
            final(self).digest_indexes() == old(self).digest_indexes(),
            final(self).cached_witnesses() == old(self).cached_witnesses(),
            forall|v: int| #[trigger] old(self).cached_nonmember_witnesses().contains_key(v) ==> final(self).cached_nonmember_witnesses().contains_key(v),
    {
        // One witness per distinct entry; an aggregated proof would only make
        // the batch witness smaller and its check faster.
        let mut counts: KeyedMap<Prime, u32> = KeyedMap::new();
        let mut proofs: KeyedMap<Prime, Witness<G>> = KeyedMap::new();
        let ghost members0 = self.members();
        let ghost digest0 = self.digest_value();
        let mut j: usize = 0;
        while j < entries.len()
            invariant
                j <= entries@.len(),
                self.wf(),
                self.members() == members0,
                self.digest_value() == digest0,
                self.digest_view() == digest0,
                self.exponent() == old(self).exponent(),
                self.history() == old(self).history(),
                self.digest_indexes() == old(self).digest_indexes(),
                self.cached_witnesses() == old(self).cached_witnesses(),
                forall|v: int| #[trigger] old(self).cached_nonmember_witnesses().contains_key(v) ==> self.cached_nonmember_witnesses().contains_key(v),
                self.can_prove_batch(entries@),
                forall|p: int| #[trigger]
                    counts@.contains_key(p) <==> exists|jj: int| 0 <= jj < j && entries@[jj].value() == p,
                forall|p: int| #[trigger] counts@.contains_key(p) ==> counts@[p] == count_of(members0, p),
                forall|p: int| #[trigger]
                    counts@.contains_key(p) ==> proofs@.contains_key(p) && (proofs@[p]@.0 matches Some(
                        m,
                    ) ==> G::spec_mul(m, pow(p, counts@[p] as nat)) == digest0),
                old(self).witnesses_sound() ==> forall|p: int| #[trigger]
                    counts@.contains_key(p) ==> witness_verdict::<G>(digest0, p, counts@[p] as nat, proofs@[p]@),
            decreases entries@.len() - j,
        {
            let member = &entries[j];
            let revision = self.get(member);
            let proof = match self.prove(member, revision) {
                Some(p) => p,
                None => {
                    proof {
                        assert(count_of(self.members(), entries@[j as int].value()) > 0
                            || gcd_ext(self.exponent(), entries@[j as int].value()).0 == 1);
                        assert(false);
                    }
                    return (counts, BatchWitness { inner: proofs });
                },
            };
            let ghost before_counts = counts@;
            let ghost before_proofs = proofs@;
            counts.insert(member.clone(), revision);
            proofs.insert(member.clone(), proof);
            proof {
                if old(self).witnesses_sound() {
                    assert(self.witnesses_sound());
                    assert forall|p: int| #[trigger] counts@.contains_key(p) implies witness_verdict::<G>(
                        digest0,
                        p,
                        counts@[p] as nat,
                        proofs@[p]@,
                    ) by {
                        if p != member.value() {
                            assert(before_counts.contains_key(p));
                        }
                    }
                }
                assert forall|p: int| #[trigger]
                    counts@.contains_key(p) <==> exists|jj: int| 0 <= jj < j + 1 && entries@[jj].value() == p by {
                    if counts@.contains_key(p) && p != member.value() {
                        assert(before_counts.contains_key(p));
                    }
                    if exists|jj: int| 0 <= jj < j + 1 && entries@[jj].value() == p {
                        let jj = choose|jj: int| 0 <= jj < j + 1 && entries@[jj].value() == p;
                        if jj < j {
                            assert(before_counts.contains_key(p));
                        }
                    }
                }
                assert forall|p: int| #[trigger]
                    counts@.contains_key(p) implies proofs@.contains_key(p) && (proofs@[p]@.0 matches Some(
                        m,
                    ) ==> G::spec_mul(m, pow(p, counts@[p] as nat)) == digest0) by {
                    if p != member.value() {
                        assert(before_counts.contains_key(p));
                    }
                }
            }
            j += 1;
        }
        let r = (counts, BatchWitness { inner: proofs });
        proof {
            assert forall|p: int| #[trigger] r.0@.contains_key(p) implies r.1@.contains_key(p) && (r.1@[p].0 matches Some(
                m,
            ) ==> G::spec_mul(m, pow(p, r.0@[p] as nat)) == old(self).digest_value()) by {
                assert(r.1@[p] == r.1.inner@[p]@);
            }
        }
        r
    }

    fn verify_batch(digest: &Digest<G>, members: &KeyedMap<Prime, u32>, witness: BatchWitness<Witness<G>>) -> (r:
        bool) {
        let ghost w0 = witness.inner@;
        let ghost wv = witness@;
        assert(wv == w0.map_values(|w: Witness<G>| w@));
        let mut rest = witness.inner;
        let n = members.len();
        let mut i: usize = 0;
        while i < n
            invariant
                i <= n == members.entries().len(),
                wv == w0.map_values(|w: Witness<G>| w@),
                wv == witness@,
                crate::keyed_map::ids_distinct(members.entries()),
                forall|jj: int|
                    i <= jj < n ==> (rest@.contains_key(#[trigger] members.entries()[jj].0.value())
                        == w0.contains_key(members.entries()[jj].0.value())) && (w0.contains_key(
                        members.entries()[jj].0.value(),
                    ) ==> rest@[members.entries()[jj].0.value()] == w0[members.entries()[jj].0.value()]),
                forall|jj: int|
                    0 <= jj < i ==> w0.contains_key(#[trigger] members.entries()[jj].0.value())
                        && witness_verdict::<G>(
                        digest.value(),
                        members.entries()[jj].0.value(),
                        members.entries()[jj].1 as nat,
                        w0[members.entries()[jj].0.value()]@,
                    ),
            decreases n - i,
        {
            let member = members.key_at(i);
            let revision = *members.value_at(i);
            let ghost before = rest@;
            let proof = match rest.remove(member) {
                Some(proof) => proof,
                None => {
                    proof {
                        let p = member.value();
                        assert(!w0.contains_key(p));
                        assert(members@.contains_key(p));
                        assert(!(w0.map_values(|w: Witness<G>| w@)).contains_key(p));
                        assert(!Self::spec_verify_batch(
                            digest@,
                            members@,
                            w0.map_values(|w: Witness<G>| w@),
                        ));
                    }
                    return false;  // missing proof
                },
            };
            if !Self::verify(digest, member, revision, proof) {
                proof {
                    let p = member.value();
                    assert(members@.contains_key(p));
                    assert(members@[p] == revision);
                    assert((w0.map_values(|w: Witness<G>| w@))[p] == w0[p]@);
                    assert(!Self::spec_verify_batch(
                        digest@,
                        members@,
                        w0.map_values(|w: Witness<G>| w@),
                    ));
                }
                return false;
            }
            proof {
                assert forall|jj: int|
                    i + 1 <= jj < n implies (rest@.contains_key(#[trigger] members.entries()[jj].0.value())
                    == w0.contains_key(members.entries()[jj].0.value())) && (w0.contains_key(
                    members.entries()[jj].0.value(),
                ) ==> rest@[members.entries()[jj].0.value()] == w0[members.entries()[jj].0.value()]) by {
                    assert(members.entries()[jj].0.value() != member.value());
                }
            }
            i += 1;
        }
        proof {
            assert forall|p: int| #[trigger] members@.contains_key(p) implies (w0.map_values(|w: Witness<G>| w@)).contains_key(p)
                && witness_verdict::<G>(
                digest.value(),
                p,
                members@[p] as nat,
                (w0.map_values(|w: Witness<G>| w@))[p],
            ) by {
                lemma_entries_map_dom(members.entries(), p);
                let jj = choose|jj: int| 0 <= jj < n && #[trigger] members.entries()[jj].0.id() == p;
                lemma_entries_map_index(members.entries(), jj);
            }
        }
        true
    }

    /// `increment_batch` can add `members`: every one that is new has a
    /// cached non-membership witness (computed as the members arrived), no
    /// count overflows, and the history has room.
    open spec fn can_increment_batch(&self, members: Seq<Prime>) -> bool {
        &&& self.wf()
        &&& 0 < members.len() < u32::MAX
        &&& self.history().len() + 1 < isize::MAX
        &&& forall|j: int|
            0 <= j < members.len() ==> count_of(self.members(), #[trigger] members[j].value())
                + occurrences(members, members[j].value()) <= u32::MAX
        &&& forall|j: int|
            0 <= j < members.len() ==> (count_of(self.members(), #[trigger] members[j].value()) > 0
                || self.cached_nonmember_witnesses().contains_key(members[j].value()))
    }

    /// Increment batch.
    ///
    /// Throughout, let n be the count of *existing* entries in the accumulator
    /// and let k be the number of unique elements in the batch.
    ///
    /// Answers a proof from the old digest to the new one, if they differ.
    /// Sound cached witnesses stay sound, but for a member that was there
    /// before and comes again in a batch of more than one element: its
    /// non-membership witness is carried over a product that it divides.
    fn increment_batch(&mut self, members: Vec<Prime>) -> (r: Option<AppendOnlyWitness<G>>)
        ensures
            final(self).wf(),
            final(self).members() == add_occurrences(old(self).members(), members@),
            final(self).exponent() == old(self).exponent() * prime_product(members@),
            final(self).digest_value() == G::spec_mul(
                old(self).digest_value(),
                prime_product(members@),
            ),
            final(self).history() == old(self).history().push(
                (prime_product(members@), final(self).digest_value()),
            ),
            r is None <==> final(self).digest_value() == old(self).digest_value(),
            prime_product(members@) > 0,
            r matches Some(w) ==> w@ == read_steps::<G>(
                crate::primitives::skip_list::read_spec::<HistoryEntry<G>>(
                    final(self).history(),
                    (old(self).history().len() - 1) as nat,
                    old(self).history().len(),
                ),
            ),
            r matches Some(w) ==> (chained::<G>(old(self).history()) && (forall|k: int| 0 <= k < w@.len() ==> (#[trigger] w@[k]).0 is Some) ==> chain_ok::<G>(w@, final(self).digest_value(), old(self).digest_value())),
            members@.len() == 1 || (forall|j: int|
                0 <= j < members@.len() ==> !old(self).members().contains_key(#[trigger] members@[j].value()))
                ==> ((old(self).coprime_members() ==> old(self).witnesses_sound()) ==> (
            final(self).coprime_members() ==> final(self).witnesses_sound())),
            forall|p: int| #[trigger]
                final(self).cached_witnesses().contains_key(p) ==> final(self).members().contains_key(p)
                    && final(self).cached_witnesses()[p].0 is Some && G::spec_mul(
                    final(self).cached_witnesses()[p].0.unwrap(),
                    pow(p, count_of(final(self).members(), p)),
                ) == final(self).digest_value(),
    {
        let ghost e = self.exponent@;
        let ghost members0 = self.multiset@;
        let ghost len0 = self.history.items().len();
        let ghost h0 = self.history();
        proof {
            lemma_wf_history(&*self);
        }
        let old_digest = self.digest.duplicate();

        // multiplicity of each member in the batch (size k), and the
        // exponent: product of all members in the batch
        let (batch, x_int) = batch_of(&members);
        let x = Prime::new_unchecked(x_int);
        let ghost xv = x.value();
        proof {
            G::lemma_constants();
        }

        // Update all *existing* proofs for this batch (O(n), fixed-ish amount
        // of work in each iteration).
        let n = self.proof_cache.len();
        let ghost cache0 = self.proof_cache@;
        let ghost entries0 = self.proof_cache.entries();
        let ghost history0 = self.history;
        let ghost indexes0 = self.digests_to_indexes;
        let ghost nonmember0 = self.nonmember_proof_cache@;
        let ghost multiset0 = self.multiset;
        let ghost cop = coprime_keys(add_occurrences(members0, members@));
        let ghost sound0 = self.coprime_members() ==> self.witnesses_sound();
        let ghost guard = members@.len() == 1 || (forall|j: int|
            0 <= j < members@.len() ==> !members0.contains_key(#[trigger] members@[j].value()));
        let ghost good = cop && sound0 && guard;
        proof {
            if good {
                lemma_coprime_keys_add(members0, members@);
                assert forall|j: int| 0 <= j < n implies witness_view_sound::<G>(
                    #[trigger] entries0[j].1@,
                    entries0[j].0.value(),
                ) by {
                    lemma_entries_map_index(entries0, j);
                    assert(self.cached_witnesses().contains_key(entries0[j].0.value()));
                }
            }
            assert forall|j: int| 0 <= j < n implies cached_witness_ok::<G>(
                e,
                #[trigger] entries0[j].0.value(),
                members0[entries0[j].0.value()],
                entries0[j].1@,
            ) && members0.contains_key(entries0[j].0.value()) && entries0[j].0.value() > 0 by {
                lemma_entries_map_index(entries0, j);
            }
        }
        let mut i: usize = 0;
        while i < n
            invariant
                self.history == history0,
                self.digests_to_indexes == indexes0,
                self.nonmember_proof_cache@ == nonmember0,
                self.multiset == multiset0,
                multiset0@ == members0,
                multiset0.product() == e,
                history0.wf(),
                history0.items().len() == len0,
                len0 + 1 < isize::MAX,
                len0 >= 1,
                history0.items().last().1 == old_digest.value(),
                indexes0@.contains_key(old_digest.value()),
                indexes0@[old_digest.value()] == len0 - 1,
                forall|d: int| #[trigger]
                    indexes0@.contains_key(d) ==> indexes0@[d] < history0.items().len()
                        && history0.items()[indexes0@[d] as int].1 == d,
                self.exponent@ == e,
                self.digest.value() == old_digest.value(),
                n == self.proof_cache.entries().len() == entries0.len(),
                ids_distinct(entries0),
                i <= n,
                xv == x.value(),
                xv == batch.product(),
                xv == prime_product(members@),
                forall|id: int| #[trigger] count_of(batch@, id) == occurrences(members@, id),
                xv > 0,
                e > 0,
                G::is_element(G::spec_one()),
                cop == coprime_keys(add_occurrences(members0, members@)),
                guard == (members@.len() == 1 || (forall|j: int|
                    0 <= j < members@.len() ==> !members0.contains_key(#[trigger] members@[j].value()))),
                good ==> cop && guard,
                good ==> forall|j: int|
                    0 <= j < n ==> witness_view_sound::<G>(#[trigger] entries0[j].1@, entries0[j].0.value()),
                good ==> forall|j: int|
                    0 <= j < i ==> witness_view_sound::<G>(
                        #[trigger] self.proof_cache.entries()[j].1@,
                        entries0[j].0.value(),
                    ),
                forall|j: int| 0 <= j < n ==> #[trigger] self.proof_cache.entries()[j].0 == entries0[j].0,
                forall|j: int| i <= j < n ==> #[trigger] self.proof_cache.entries()[j].1 == entries0[j].1,
                forall|j: int|
                    0 <= j < n ==> cached_witness_ok::<G>(
                        e,
                        #[trigger] entries0[j].0.value(),
                        members0[entries0[j].0.value()],
                        entries0[j].1@,
                    ) && members0.contains_key(entries0[j].0.value()) && entries0[j].0.value() > 0,
                forall|j: int|
                    0 <= j < i ==> cached_witness_ok::<G>(
                        e * xv,
                        #[trigger] self.proof_cache.entries()[j].0.value(),
                        members0[self.proof_cache.entries()[j].0.value()] + count_of(
                            batch@,
                            self.proof_cache.entries()[j].0.value(),
                        ),
                        self.proof_cache.entries()[j].1@,
                    ),
            decreases n - i,
        {
            let ghost p = entries0[i as int].0.value();
            let ghost c = members0[p];
            let ghost w = entries0[i as int].1@;
            let ghost cb = count_of(batch@, p);
            proof {
                assert(cached_witness_ok::<G>(e, p, c, w));
                assert(self.proof_cache.entries()[i as int].1 == entries0[i as int].1);
                assert(self.proof_cache.entries()[i as int].0 == entries0[i as int].0);
            }
            self.update_cached_batch(i, &x, &batch);
            proof {
                let k = e / pow(p, c);
                lemma_cofactor_nonneg(e, pow(p, c));
                let nw = self.proof_cache.entries()[i as int].1@;
                assert(nw == batch_incremented_witness::<G>(p, w, xv, cb));
                if cb > 0 {
                    lemma_cofactor_combine(e, xv, p, c, cb);
                    lemma_cofactor_nonneg(xv, pow(p, cb));
                    G::lemma_mul_mul(G::spec_one(), k, xv / pow(p, cb));
                } else {
                    lemma_cofactor_scale(e, pow(p, c), xv);
                    G::lemma_mul_mul(G::spec_one(), k, xv);
                }
                assert(cached_witness_ok::<G>(e * xv, p, c + cb, nw));
                if good {
                    lemma_batch_step_sound::<G>(members0, members@, p, w, nw, xv, cb);
                }
            }
            i += 1;
        }
        let ghost cache1 = self.proof_cache@;
        proof {
            if good {
                assert forall|p: int| #[trigger] cache1.contains_key(p) implies witness_view_sound::<G>(
                    cache1[p]@,
                    p,
                ) by {
                    lemma_entries_map_dom(self.proof_cache.entries(), p);
                    let j = choose|j: int| 0 <= j < n && #[trigger] self.proof_cache.entries()[j].0.id() == p;
                    lemma_entries_map_index(self.proof_cache.entries(), j);
                    assert(entries0[j].0.id() == p);
                }
            }
            assert(old(self).wf());
            assert forall|q: int| #[trigger] nonmember0.contains_key(q) implies (
                nonmember0[q].exp(),
                nonmember0[q].base(),
            ) == fresh_nonmember::<G>(e, q) && bezout_one(e, q) by {
                assert(old(self).nonmember_proof_cache@.contains_key(q));
            }
            assert forall|p: int| #[trigger] cache1.contains_key(p) implies cache0.contains_key(p)
                && cached_witness_ok::<G>(
                e * xv,
                p,
                members0[p] + count_of(batch@, p),
                cache1[p]@,
            ) by {
                lemma_entries_map_dom(self.proof_cache.entries(), p);
                let j = choose|j: int| 0 <= j < n && #[trigger] self.proof_cache.entries()[j].0.id() == p;
                lemma_entries_map_index(self.proof_cache.entries(), j);
                lemma_entries_map_dom(entries0, p);
                assert(entries0[j].0.id() == p);
            }
            assert forall|p: int| #[trigger] cache0.contains_key(p) implies cache1.contains_key(p) by {
                lemma_entries_map_dom(entries0, p);
                let j = choose|j: int| 0 <= j < n && #[trigger] entries0[j].0.id() == p;
                lemma_entries_map_dom(self.proof_cache.entries(), p);
                assert(self.proof_cache.entries()[j].0.id() == p);
            }
        }

        // This is O(k)-ish. Each iteration takes a fixed-ish amount of time for
        // RSA group multiplications. Can't think of any way to batch this.
        let entries = batch.iter();
        proof {
            assert forall|jj: int|
                0 <= jj < entries@.len() && !members0.contains_key(#[trigger] entries@[jj].0.value())
                    implies self.nonmember_proof_cache@.contains_key(entries@[jj].0.value())
                && G::is_element(self.nonmember_proof_cache@[entries@[jj].0.value()].base()) by {
                let q = entries@[jj].0.value();
                lemma_counts_index(entries@, jj);
                assert(count_of(batch@, q) > 0);
                lemma_occurrences_positive(members@, q);
                let t = choose|t: int| 0 <= t < members@.len() && #[trigger] members@[t].value() == q;
                assert(count_of(old(self).members(), members@[t].value()) > 0
                    || old(self).cached_nonmember_witnesses().contains_key(members@[t].value()));
                assert(nonmember0.contains_key(q));
            }
        }
        let mut j: usize = 0;
        while j < entries.len()
            invariant
                j <= entries@.len(),
                counts(entries@) == batch@,
                well_formed(entries@),
                self.history == history0,
                self.digests_to_indexes == indexes0,
                self.multiset == multiset0,
                multiset0@ == members0,
                multiset0.product() == e,
                history0.wf(),
                history0.items().len() == len0,
                len0 + 1 < isize::MAX,
                len0 >= 1,
                history0.items().last().1 == old_digest.value(),
                indexes0@.contains_key(old_digest.value()),
                indexes0@[old_digest.value()] == len0 - 1,
                forall|d: int| #[trigger]
                    indexes0@.contains_key(d) ==> indexes0@[d] < history0.items().len()
                        && history0.items()[indexes0@[d] as int].1 == d,
                forall|q: int| #[trigger] members0.contains_key(q) ==> members0[q] > 0,
                self.exponent@ == e,
                self.digest.value() == old_digest.value(),
                old_digest.value() == digest_of::<G>(e),
                G::is_element(old_digest.value()),
                xv == x.value(),
                xv == batch.product(),
                xv > 0,
                e > 0,
                G::is_element(G::spec_one()),
                forall|id: int| #[trigger] count_of(batch@, id) == occurrences(members@, id),
                forall|q: int| #[trigger] members0.contains_key(q) ==> q > 0,
                forall|q: int| #[trigger] cache0.contains_key(q) <==> members0.contains_key(q),
                xv == prime_product(members@),
                cop == coprime_keys(add_occurrences(members0, members@)),
                good ==> cop,
                good ==> forall|q: int| #[trigger]
                    self.proof_cache@.contains_key(q) ==> witness_view_sound::<G>(self.proof_cache@[q]@, q),
                forall|q: int| #[trigger]
                    self.nonmember_proof_cache@.contains_key(q) ==> nonmember0.contains_key(q)
                        && self.nonmember_proof_cache@[q] == nonmember0[q],
                forall|q: int| #[trigger]
                    nonmember0.contains_key(q) ==> (nonmember0[q].exp(), nonmember0[q].base())
                        == fresh_nonmember::<G>(e, q) && bezout_one(e, q),
                forall|jj: int|
                    j <= jj < entries@.len() && !members0.contains_key(
                        #[trigger] entries@[jj].0.value(),
                    ) ==> self.nonmember_proof_cache@.contains_key(entries@[jj].0.value())
                        && G::is_element(self.nonmember_proof_cache@[entries@[jj].0.value()].base()),
                forall|q: int| #[trigger]
                    self.proof_cache@.contains_key(q) <==> (cache0.contains_key(q) || exists|jj: int|
                        0 <= jj < j && #[trigger] entries@[jj].0.value() == q),
                forall|q: int| #[trigger]
                    self.proof_cache@.contains_key(q) ==> cached_witness_ok::<G>(
                        e * xv,
                        q,
                        count_of(members0, q) + count_of(batch@, q),
                        self.proof_cache@[q]@,
                    ),
            decreases entries@.len() - j,
        {
            let member = &entries[j].0;
            let count = entries[j].1;
            let ghost m = member.value();
            proof {
                lemma_counts_index(entries@, j as int);
            }
            let ghost before = self.proof_cache@;
            let ghost nonmember_before = self.nonmember_proof_cache@;
            if !self.proof_cache.contains_key(member) {
                proof {
                    assert(!cache0.contains_key(m));
                    assert(!members0.contains_key(m));
                    assert(self.nonmember_proof_cache@.contains_key(m));
                }
                let nonmember = match self.nonmember_proof_cache.remove(member) {
                    Some(w) => w,
                    None => {
                        proof {
                            assert(false);
                        }
                        return None;
                    },
                };
                let cnt = batch.get(member);
                let power_m = power(member.inner(), count);
                let (exponent_m, _) = div_rem(x.inner(), &power_m);
                let ghost pm = pow(m, count as nat);
                let ghost em = exponent_m@;
                proof {
                    assert(cnt == count);
                    vstd::arithmetic::div_mod::lemma_fundamental_div_mod(xv, pm);
                    lemma_cofactor_scale(xv, pm, e);
                    assert(em == xv / pm);
                    assert(em > 0) by (nonlinear_arith)
                        requires
                            xv == pm * em + xv % pm,
                            xv % pm == 0,
                            xv > 0,
                            pm > 0,
                    ;
                    G::lemma_mul_mul(G::spec_one(), e, em);
                }
                let membership_proof = MembershipWitness(self.digest.0.mul(&exponent_m));
                let mut nonmember = nonmember;
                proof {
                    if good {
                        assert(count_of(batch@, m) == count);
                        lemma_new_member_premises::<G>(
                            members0,
                            members@,
                            m,
                            e,
                            xv,
                            em,
                            old_digest.value(),
                            (nonmember.exp(), nonmember.base()),
                        );
                    }
                }
                nonmember.update(member, &Prime::new_unchecked(exponent_m), &old_digest);
                let ghost before_insert = self.proof_cache@;
                self.proof_cache.insert(member.clone(), Witness { member: Some(membership_proof), nonmember });
                proof {
                    if good {
                        assert(witness_view_sound::<G>(self.proof_cache@[m]@, m));
                        assert forall|q: int| #[trigger] self.proof_cache@.contains_key(q) implies witness_view_sound::<G>(
                            self.proof_cache@[q]@,
                            q,
                        ) by {
                            if q != m {
                                assert(before_insert.contains_key(q));
                            }
                        }
                    }
                    assert((xv * e) / pm == em * e);
                    assert(xv * e == e * xv) by (nonlinear_arith);
                    assert(em * e == e * em) by (nonlinear_arith);
                    assert(count_of(members0, m) == 0);
                    assert(cached_witness_ok::<G>(
                        e * xv,
                        m,
                        count_of(members0, m) + count_of(batch@, m),
                        self.proof_cache@[m]@,
                    ));
                }
            }
            proof {
                assert forall|jj: int|
                    j + 1 <= jj < entries@.len() && !members0.contains_key(
                        #[trigger] entries@[jj].0.value(),
                    ) implies self.nonmember_proof_cache@.contains_key(entries@[jj].0.value())
                    && G::is_element(self.nonmember_proof_cache@[entries@[jj].0.value()].base()) by {
                    assert(entries@[jj].0.value() != m);
                    assert(nonmember_before.contains_key(entries@[jj].0.value()));
                }
                assert forall|q: int| #[trigger]
                    self.proof_cache@.contains_key(q) <==> (cache0.contains_key(q) || exists|jj: int|
                        0 <= jj < j + 1 && #[trigger] entries@[jj].0.value() == q) by {
                    if self.proof_cache@.contains_key(q) && q != m {
                        assert(before.contains_key(q));
                    }
                    if exists|jj: int| 0 <= jj < j + 1 && #[trigger] entries@[jj].0.value() == q {
                        let jj = choose|jj: int| 0 <= jj < j + 1 && #[trigger] entries@[jj].0.value() == q;
                        if jj < j {
                            assert(before.contains_key(q));
                        }
                    }
                }
                assert forall|q: int| #[trigger] self.proof_cache@.contains_key(q) implies cached_witness_ok::<G>(
                    e * xv,
                    q,
                    count_of(members0, q) + count_of(batch@, q),
                    self.proof_cache@[q]@,
                ) by {
                    if q != m {
                        assert(before.contains_key(q));
                    }
                }
            }
            j += 1;
        }
        let ghost cache2 = self.proof_cache@;

        // Update the digest to add the batch.
        let new_digest = self.digest.0.mul(x.inner());
        self.digest = Digest(new_digest);
        self.exponent = multiply(&self.exponent, x.inner());
        let mut k: usize = 0;
        proof {
            assert forall|id: int| #[trigger] self.multiset@.contains_key(id) <==> count_of(self.multiset@, id) > 0 by {
                if self.multiset@.contains_key(id) {
                    assert(members0[id] > 0);
                }
            }
            assert(members@.subrange(0, 0) =~= Seq::<Prime>::empty());
        }
        let ghost cache_k = self.proof_cache;
        let ghost digest_k = self.digest.value();
        let ghost exponent_k = self.exponent@;
        while k < members.len()
            invariant
                k <= members@.len(),
                self.history == history0,
                self.digests_to_indexes == indexes0,
                self.proof_cache == cache_k,
                forall|q: int| #[trigger] members0.contains_key(q) ==> q > 0,
                forall|j: int| 0 <= j < members@.len() ==> #[trigger] members@[j].value() > 0,
                self.digest.value() == digest_k,
                self.exponent@ == exponent_k,
                history0.wf(),
                history0.items().len() == len0,
                len0 + 1 < isize::MAX,
                len0 >= 1,
                history0.items().last().1 == old_digest.value(),
                indexes0@.contains_key(old_digest.value()),
                indexes0@[old_digest.value()] == len0 - 1,
                forall|d: int| #[trigger]
                    indexes0@.contains_key(d) ==> indexes0@[d] < history0.items().len()
                        && history0.items()[indexes0@[d] as int].1 == d,
                forall|jj: int|
                    0 <= jj < members@.len() ==> count_of(members0, #[trigger] members@[jj].value())
                        + occurrences(members@, members@[jj].value()) <= u32::MAX,
                forall|id: int| #[trigger]
                    count_of(self.multiset@, id) == count_of(members0, id) + occurrences(
                        members@.subrange(0, k as int),
                        id,
                    ),
                forall|id: int| #[trigger] self.multiset@.contains_key(id) <==> count_of(self.multiset@, id) > 0,
                self.multiset.product() == e * prime_product(members@.subrange(0, k as int)),
            decreases members@.len() - k,
        {
            let ghost prefix = members@.subrange(0, k as int);
            let ghost before = self.multiset@;
            proof {
                assert(members@.subrange(0, k + 1).drop_last() =~= prefix);
                lemma_occurrences_prefix(members@, k as int, members@[k as int].value());
            }
            self.multiset.insert(members[k].clone());
            proof {
                assert forall|id: int| #[trigger]
                    count_of(self.multiset@, id) == count_of(members0, id) + occurrences(
                        members@.subrange(0, k + 1),
                        id,
                    ) by {
                    assert(count_of(before, id) == count_of(members0, id) + occurrences(prefix, id));
                }
                let pp = prime_product(prefix);
                assert((e * pp) * members@[k as int].value() == e * (pp * members@[k as int].value()))
                    by (nonlinear_arith);
            }
            k += 1;
        }
        proof {
            assert(members@.subrange(0, members@.len() as int) =~= members@);
            G::lemma_mul_mul(G::spec_one(), e, xv);
            assert(e * xv > 0) by (nonlinear_arith)
                requires
                    e > 0,
                    xv > 0,
            ;
        }

        self.history.add(HistoryEntry::new(x.into_inner(), self.digest.duplicate()));

        // Update the digest history.
        let last = self.history.len() - 1;
        self.digests_to_indexes.insert(self.digest.duplicate(), last);

        // Invalidate the nonmembership proof cache.
        self.nonmember_proof_cache = KeyedMap::new();
        proof {
            assert(self.multiset@ =~= add_occurrences(members0, members@));
            assert forall|d: int| #[trigger]
                self.digests_to_indexes@.contains_key(d) implies self.digests_to_indexes@[d]
                < self.history.items().len() && self.history.items()[self.digests_to_indexes@[d] as int].1
                == d by {
                if d != self.digest.value() {
                    assert(indexes0@.contains_key(d));
                }
            }
            assert forall|q: int| #[trigger] self.multiset@.contains_key(q) implies q > 0 by {
                if !members0.contains_key(q) {
                    assert(occurrences(members@, q) > 0);
                    lemma_occurrences_positive(members@, q);
                    let jj = choose|jj: int| 0 <= jj < members@.len() && #[trigger] members@[jj].value() == q;
                    assert(members@[jj].value() > 0);
                }
            }
            assert forall|q: int| #[trigger]
                self.proof_cache@.contains_key(q) <==> self.multiset@.contains_key(q) by {
                lemma_counts_dom(entries@, q);
                if count_of(batch@, q) > 0 {
                    let jj = choose|jj: int| 0 <= jj < entries@.len() && #[trigger] entries@[jj].0.id() == q;
                    assert(entries@[jj].0.value() == q);
                }
            }
        }
        proof {
            lemma_cached_witnesses_verify(&*self);
        }
        if self.digest.same(&old_digest) {
            return None;
        }
        proof {
            assert(self.digests_to_indexes@[old_digest.value()] == len0 - 1);
            crate::primitives::skip_list::lemma_read_one_step((len0 - 1) as nat, len0 + 1);
        }
        let w = self.prove_append_only(&old_digest);
        proof {
            if chained::<G>(h0) {
                assert(self.history() == h0.push((xv, G::spec_mul(h0.last().1, xv))));
                lemma_chained_push::<G>(h0, xv);
                let steps = read_steps::<G>(read_spec::<HistoryEntry<G>>(self.history(), (len0 - 1) as nat, len0 as nat));
                assert(w@ == steps);
                if forall|k: int| 0 <= k < steps.len() ==> (#[trigger] steps[k]).0 is Some {
                    lemma_read_chain::<G>(self.history(), (len0 - 1) as nat, len0 as nat);
                }
            }
        }
        Some(w)
    }
}

impl<G: Group + DataSized> Accumulator<G> {
    /// What a content-delivery network serves: the cached witnesses for
    /// members and non-members, and the history.
    pub closed spec fn spec_cdn_size(&self) -> nat {
        entries_size(self.nonmember_proof_cache.entries()) + entries_size(self.proof_cache.entries())
            + self.history.spec_size()
    }

    /// The size of what a content-delivery network serves.
    pub fn cdn_size(&self) -> (r: Information)
        requires
            self.spec_cdn_size() <= u64::MAX,
        ensures
            r@ == self.spec_cdn_size(),
    {
        let nonmembers = self.nonmember_proof_cache.total_size();
        let members = self.proof_cache.total_size();
        nonmembers.plus(members).plus(self.history.size())
    }
}

impl<G: Group + DataSized> DataSized for Accumulator<G> {
    /// The digest, the history, the exponent, the multiset, and the caches
    /// and digest index, each map counted as its first entry.
    closed spec fn spec_size(&self) -> nat {
        self.digest.spec_size() + self.history.spec_size() + self.exponent.spec_size()
            + self.multiset.spec_size() + assumed_map_size(self.proof_cache.entries())
            + assumed_map_size(self.nonmember_proof_cache.entries()) + assumed_map_size(
            self.digests_to_indexes.entries(),
        )
    }

    fn size(&self) -> (r: Information) {
        let size = self.digest.size().plus(self.history.size()).plus(self.exponent.size());
        let size = size.plus(self.multiset.size());
        let size = size.plus(assume_data_size_for_map(&self.proof_cache));
        let size = size.plus(assume_data_size_for_map(&self.nonmember_proof_cache));
        size.plus(assume_data_size_for_map(&self.digests_to_indexes))
    }
}

impl<G: Group + DataSized> DataSized for AppendOnlyWitness<G> {
    /// The number of steps times the size of the first.
    closed spec fn spec_size(&self) -> nat {
        if self.inner@.len() == 0 {
            0
        } else {
            self.inner@.len() * (self.inner@[0].0.spec_size() + self.inner@[0].1.spec_size())
        }
    }

    fn size(&self) -> (r: Information) {
        if self.inner.len() == 0 {
            return Information::zero();
        }
        let ghost s = self.inner@;
        proof {
            assert(s[0].0.spec_size() + s[0].1.spec_size() <= self.spec_size()) by (nonlinear_arith)
                requires
                    s.len() >= 1,
                    self.spec_size() == s.len() * (s[0].0.spec_size() + s[0].1.spec_size()),
            ;
        }
        let first = self.inner[0].0.size().plus(self.inner[0].1.size());
        crate::util::repeated_size(self.inner.len(), first)
    }
}

impl<W: View + DataSized> DataSized for BatchWitness<W> {
    /// The number of witnesses times the size of the first with its prime.
    closed spec fn spec_size(&self) -> nat {
        assumed_map_size(self.inner.entries())
    }

    fn size(&self) -> (r: Information) {
        assume_data_size_for_map(&self.inner)
    }
}

impl<G: Group> Default for Accumulator<G> {
    /// The accumulator of nothing.
    fn default() -> (r: Self)
        ensures
            r.wf(),
            r.members() == Map::<int, nat>::empty(),
            r.history().len() == 1,
            r.coprime_members() ==> r.witnesses_sound(),
    {
        Self::import(MultiSet::default())
    }
}

/// What a consistent accumulator keeps of its history: it is never empty and
/// ends at the digest, an element; every recorded digest stands where the
/// index says; the exponent is positive.
pub proof fn lemma_wf_history<G: Group>(acc: &Accumulator<G>)
    requires
        acc.wf(),
    ensures
        acc.history().len() >= 1,
        acc.history().last().1 == acc.digest_value(),
        G::is_element(acc.digest_value()),
        acc.exponent() > 0,
        acc.digest_value() == digest_of::<G>(acc.exponent()),
        acc.digest_indexes().contains_key(acc.digest_value()),
        acc.digest_indexes()[acc.digest_value()] == acc.history().len() - 1,
        forall|d: int| #[trigger]
            acc.digest_indexes().contains_key(d) ==> acc.digest_indexes()[d] < acc.history().len()
                && acc.history()[acc.digest_indexes()[d] as int].1 == d,
        forall|v: int| #[trigger]
            acc.cached_nonmember_witnesses().contains_key(v) ==> count_of(acc.members(), v) == 0
                && gcd_ext(acc.exponent(), v).0 == 1,
{
}

/// Each digest of the history after the first is the one before raised to
/// a positive exponent, and every digest is an element.
pub open spec fn chained<G: Group>(history: Seq<(int, int)>) -> bool {
    &&& forall|i: int| 0 <= i < history.len() ==> G::is_element(#[trigger] history[i].1)
    &&& forall|i: int|
        1 <= i < history.len() ==> #[trigger] history[i].0 > 0 && history[i].1 == G::spec_mul(
            history[i - 1].1,
            history[i].0,
        )
}

/// A history stays chained when it grows by the last digest raised to a
/// positive exponent.
pub proof fn lemma_chained_push<G: Group>(h0: Seq<(int, int)>, e: int)
    requires
        chained::<G>(h0),
        h0.len() >= 1,
        e > 0,
    ensures
        chained::<G>(h0.push((e, G::spec_mul(h0.last().1, e)))),
{
    let h = h0.push((e, G::spec_mul(h0.last().1, e)));
    assert(G::is_element(h0[h0.len() - 1].1));
    G::lemma_closed(h0.last().1, h0.last().1, e);
    assert forall|i: int| 0 <= i < h.len() implies G::is_element(#[trigger] h[i].1) by {
        if i < h0.len() {
            assert(h[i] == h0[i]);
        }
    }
    assert forall|i: int| 1 <= i < h.len() implies #[trigger] h[i].0 > 0 && h[i].1 == G::spec_mul(
        h[i - 1].1,
        h[i].0,
    ) by {
        if i < h0.len() {
            assert(h[i] == h0[i] && h[i - 1] == h0[i - 1]);
        } else {
            assert(h[i - 1] == h0.last());
        }
    }
}

/// Every cached witness of a consistent accumulator holds a membership
/// witness that, raised to the member's count, gives the digest.
pub proof fn lemma_cached_witnesses_verify<G: Group>(acc: &Accumulator<G>)
    requires
        acc.wf(),
    ensures
        forall|p: int| #[trigger]
            acc.cached_witnesses().contains_key(p) ==> acc.members().contains_key(p)
                && acc.cached_witnesses()[p].0 is Some && G::spec_mul(
                acc.cached_witnesses()[p].0.unwrap(),
                pow(p, count_of(acc.members(), p)),
            ) == acc.digest_value(),
        forall|p: int| #[trigger] acc.members().contains_key(p) ==> acc.cached_witnesses().contains_key(p),
{
    assert forall|p: int| #[trigger] acc.members().contains_key(p) implies acc.cached_witnesses().contains_key(
        p,
    ) by {
        assert(acc.proof_cache@.contains_key(p));
    }
    assert forall|p: int| #[trigger] acc.cached_witnesses().contains_key(p) implies acc.members().contains_key(p)
        && acc.cached_witnesses()[p].0 is Some && G::spec_mul(
        acc.cached_witnesses()[p].0.unwrap(),
        pow(p, count_of(acc.members(), p)),
    ) == acc.digest_value() by {
        assert(acc.proof_cache@.contains_key(p));
        lemma_member_witness_verifies::<G>(
            acc.exponent@,
            p,
            acc.multiset@[p],
            acc.proof_cache@[p]@.0.unwrap(),
        );
    }
}

/// The digest at `top - m - 1`, raised to the product of the exponents of the
/// `m + 1` entries above it, is the digest at `top`.
proof fn lemma_window_chain<G: Group>(items: Seq<(int, int)>, top: int, m: nat)
    requires
        chained::<G>(items),
        1 <= top - m,
        top < items.len(),
    ensures
        crate::primitives::skip_list::window::<HistoryEntry<G>>(items, top, m).1 == items[top].1,
        crate::primitives::skip_list::window::<HistoryEntry<G>>(items, top, m).0 > 0,
        G::spec_mul(items[top - m - 1].1, crate::primitives::skip_list::window::<HistoryEntry<G>>(items, top, m).0)
            == items[top].1,
    decreases m,
{
    let w = crate::primitives::skip_list::window::<HistoryEntry<G>>(items, top, m);
    if m == 0 {
        assert(items[top].0 > 0 && items[top].1 == G::spec_mul(items[top - 1].1, items[top].0));
    } else {
        lemma_window_chain::<G>(items, top, (m - 1) as nat);
        let w1 = crate::primitives::skip_list::window::<HistoryEntry<G>>(items, top, (m - 1) as nat);
        let e = items[top - m].0;
        let below = items[top - m - 1].1;
        assert(e > 0 && items[top - m].1 == G::spec_mul(below, e));
        assert(G::is_element(below));
        assert(w.0 == w1.0 * e);
        G::lemma_mul_mul(below, e, w1.0);
        assert(e * w1.0 == w1.0 * e && w1.0 * e > 0) by (nonlinear_arith)
            requires
                e > 0,
                w1.0 > 0,
        ;
    }
}

/// Prepending a step that starts at `bottom` and proves the way up to where
/// the rest starts keeps a chain.
proof fn lemma_chain_prepend<G: Group>(
    x: (Option<(int, int, int)>, int),
    rest: Seq<(Option<(int, int, int)>, int)>,
    top: int,
    bottom: int,
)
    requires
        x.1 == bottom,
        x.0 is Some,
        poke::spec_verify::<G>(
            if rest.len() == 0 {
                top
            } else {
                rest[0].1
            },
            x.1,
            x.0.unwrap().0,
            x.0.unwrap().1,
            x.0.unwrap().2,
        ),
        chain_ok::<G>(
            rest,
            top,
            if rest.len() == 0 {
                top
            } else {
                rest[0].1
            },
        ),
    ensures
        chain_ok::<G>(seq![x] + rest, top, bottom),
    decreases rest.len(),
{
    let all = seq![x] + rest;
    let nxt = if rest.len() == 0 {
        top
    } else {
        rest[0].1
    };
    if rest.len() == 0 {
        assert(all.drop_last() =~= Seq::<(Option<(int, int, int)>, int)>::empty());
        assert(all.last() == x);
        assert(chain_ok::<G>(all.drop_last(), x.1, bottom));
    } else {
        let last = rest.last();
        assert(all.last() == last);
        assert(all.drop_last() =~= seq![x] + rest.drop_last());
        let inner = rest.drop_last();
        assert(last.0 is Some);
        assert(poke::spec_verify::<G>(top, last.1, last.0.unwrap().0, last.0.unwrap().1, last.0.unwrap().2));
        assert(chain_ok::<G>(inner, last.1, nxt));
        if inner.len() > 0 {
            assert(inner[0] == rest[0]);
        } else {
            assert(last == rest[0]);
        }
        lemma_chain_prepend::<G>(x, inner, last.1, bottom);
        assert(chain_ok::<G>(all.drop_last(), last.1, bottom));
    }
}

/// Completeness of the append-only proofs: a read of a chained history from
/// `cur` up to `end` chains the digest at `end` down to the one at `cur`,
/// whenever every step of it holds a proof.
pub proof fn lemma_read_chain<G: Group>(items: Seq<(int, int)>, cur: nat, end: nat)
    requires
        chained::<G>(items),
        cur <= end < items.len(),
        forall|k: int|
            0 <= k < read_steps::<G>(read_spec::<HistoryEntry<G>>(items, cur, end)).len()
                ==> (#[trigger] read_steps::<G>(read_spec::<HistoryEntry<G>>(items, cur, end))[k]).0 is Some,
    ensures
        chain_ok::<G>(read_steps::<G>(read_spec::<HistoryEntry<G>>(items, cur, end)), items[end as int].1, items[cur as int].1),
    decreases end - cur,
{
    let steps = read_steps::<G>(read_spec::<HistoryEntry<G>>(items, cur, end));
    if cur < end {
        let k = crate::primitives::skip_list::floor_log2((end - cur) as nat);
        crate::primitives::skip_list::lemma_floor_log2_bounds((end - cur) as nat);
        vstd::arithmetic::power2::lemma_pow2_pos(k);
        let d = vstd::arithmetic::power2::pow2(k);
        let next = (cur + d) as nat;
        let head = (crate::primitives::skip_list::proof_at::<HistoryEntry<G>>(items, cur as int, d), items[cur as int]);
        let tail = read_spec::<HistoryEntry<G>>(items, next, end);
        assert(read_spec::<HistoryEntry<G>>(items, cur, end) == seq![head] + tail);
        let rest = read_steps::<G>(tail);
        assert(steps =~= seq![(head.0, head.1.1)] + rest);
        assert forall|j: int| 0 <= j < rest.len() implies (#[trigger] rest[j]).0 is Some by {
            assert(steps[j + 1] == rest[j]);
        }
        lemma_read_chain::<G>(items, next, end);
        // The first step proves the way from the digest at `cur` up to the
        // one at `next`.
        lemma_window_chain::<G>(items, next as int, (d - 1) as nat);
        let w = crate::primitives::skip_list::window::<HistoryEntry<G>>(items, next as int, (d - 1) as nat);
        assert(steps[0] == (head.0, head.1.1));
        assert(head.0 == poke::spec_prove::<G>(items[next as int].1, items[cur as int].1, w.0));
        poke::lemma_prove_verify::<G>(items[next as int].1, items[cur as int].1, w.0);
        if rest.len() > 0 {
            assert(tail[0].1 == items[next as int]);
        }
        lemma_chain_prepend::<G>((head.0, head.1.1), rest, items[end as int].1, items[cur as int].1);
    }
}

impl<G: Group> BatchWitness<Witness<G>> {
    /// A copy of this batch witness.
    pub fn duplicate(&self) -> (r: Self)
        ensures
            r@ == self@,
    {
        let mut inner: KeyedMap<Prime, Witness<G>> = KeyedMap::new();
        let n = self.inner.len();
        let ghost s = self.inner.entries();
        let mut i: usize = 0;
        while i < n
            invariant
                s == self.inner.entries(),
                n == s.len(),
                i <= n,
                ids_distinct(s),
                forall|p: int| #[trigger]
                    inner@.contains_key(p) <==> exists|k: int| 0 <= k < i && s[k].0.id() == p,
                forall|p: int| #[trigger] inner@.contains_key(p) ==> self.inner@.contains_key(p) && inner@[p]@ == self.inner@[p]@,
            decreases n - i,
        {
            let key = self.inner.key_at(i);
            let w = self.inner.value_at(i);
            let ghost before = inner@;
            inner.insert(key.clone(), w.duplicate());
            proof {
                assert forall|p: int| #[trigger]
                    inner@.contains_key(p) <==> exists|k: int| 0 <= k < i + 1 && s[k].0.id() == p by {
                    if inner@.contains_key(p) && p != key.id() {
                        assert(before.contains_key(p));
                    }
                    if exists|k: int| 0 <= k < i + 1 && s[k].0.id() == p {
                        let k = choose|k: int| 0 <= k < i + 1 && s[k].0.id() == p;
                        if k < i {
                            assert(before.contains_key(p));
                        }
                    }
                }
            }
            i += 1;
        }
        let r = BatchWitness { inner };
        proof {
            assert forall|p: int| self.inner@.contains_key(p) implies #[trigger] r.inner@.contains_key(p) by {
                lemma_entries_map_dom(s, p);
            }
            assert(r.inner@.dom() =~= self.inner@.dom());
            assert(r@ =~= self@);
        }
        r
    }
}

/// Each value raised to its count.
pub open spec fn raised(values: Seq<BigInt>, counts: Seq<u32>) -> Seq<int> {
    Seq::new(values.len(), |i: int| pow(values[i]@, counts[i] as nat))
}

proof fn lemma_pow_nonzero(b: int, e: nat)
    requires
        b != 0,
    ensures
        pow(b, e) != 0,
    decreases e,
{
    reveal(pow);
    if e > 0 {
        lemma_pow_nonzero(b, (e - 1) as nat);
        let q = pow(b, (e - 1) as nat);
        assert(b * q != 0) by (nonlinear_arith)
            requires
                b != 0,
                q != 0,
        ;
    }
}

/// Dividing a product by one of its factors, rounding toward zero, gives
/// the product of the others.
proof fn lemma_trunc_div_exact(a: int, b: int)
    requires
        b != 0,
    ensures
        trunc_div(a * b, b) == a,
{
    let x = abs(a);
    let d = abs(b);
    assert(abs(a * b) == x * d && (a * b >= 0) == ((a >= 0) == (b >= 0) || a == 0)) by (nonlinear_arith)
        requires
            x == abs(a),
            d == abs(b),
            b != 0,
    ;
    assert(x * d == d * x) by (nonlinear_arith);
    vstd::arithmetic::div_mod::lemma_div_multiples_vanish(x, d);
}

/// The product of values without the one at `j` is the product of all,
/// divided by that one: the two ways `multiply_stuff` and
/// `multiply_stuff2` compute the same.
pub proof fn lemma_quotient_is_product_except(vals: Seq<int>, j: int)
    requires
        0 <= j < vals.len(),
        vals[j] != 0,
    ensures
        trunc_div(index_product(vals), vals[j]) == product_except(vals, j),
{
    lemma_product_except(vals, j);
    lemma_trunc_div_exact(product_except(vals, j), vals[j]);
}

/// For each value, the product of the others raised to their counts; and
/// the product of all of them.
pub fn multiply_stuff(values: &[BigInt], counts: &[u32]) -> (r: (Vec<BigInt>, BigInt))
    requires
        values@.len() == counts@.len(),
        values@.len() > 0,
    ensures
        r.0@.len() == values@.len(),
        forall|j: int| 0 <= j < values@.len() ==> (#[trigger] r.0@[j])@ == product_except(raised(values@, counts@), j),
        r.1@ == index_product(raised(values@, counts@)),
{
    let ghost all = raised(values@, counts@);
    let n = values.len();
    let mut result: Vec<BigInt> = Vec::new();
    let mut k: usize = 0;
    while k < n
        invariant
            k <= n,
            result@.len() == k,
            forall|j: int| 0 <= j < k ==> (#[trigger] result@[j])@ == 1,
        decreases n - k,
    {
        result.push(from_u64(1));
        k += 1;
    }
    let mut total = from_u64(1);
    assert(all.subrange(0, 0) =~= Seq::<int>::empty());
    let mut i: usize = 0;
    while i < n
        invariant
            n == values@.len(),
            n == counts@.len(),
            all == raised(values@, counts@),
            i <= n,
            result@.len() == n,
            total@ == index_product(all.subrange(0, i as int)),
            forall|j: int| 0 <= j < i ==> (#[trigger] result@[j])@ == product_except(all.subrange(0, i as int), j),
            forall|j: int| i <= j < n ==> (#[trigger] result@[j])@ == index_product(all.subrange(0, i as int)),
        decreases n - i,
    {
        let value = power(&values[i], counts[i]);
        let ghost prefix = all.subrange(0, i as int);
        let ghost next = all.subrange(0, i + 1);
        proof {
            assert(next =~= prefix.push(value@));
            assert(next.drop_last() =~= prefix);
        }
        let mut j: usize = 0;
        while j < n
            invariant
                n == values@.len(),
                i < n,
                j <= n,
                result@.len() == n,
                all.len() == n,
                prefix.len() == i,
                prefix == all.subrange(0, i as int),
                next == prefix.push(value@),
                forall|m: int| 0 <= m < j && m < i ==> (#[trigger] result@[m])@ == product_except(next, m),
                forall|m: int| j <= m < i ==> (#[trigger] result@[m])@ == product_except(prefix, m),
                j > i ==> result@[i as int]@ == index_product(prefix),
                forall|m: int| i < m < j ==> (#[trigger] result@[m])@ == index_product(next),
                forall|m: int| j <= m < n && m >= i ==> (#[trigger] result@[m])@ == index_product(prefix),
            decreases n - j,
        {
            if j != i {
                let updated = multiply(&result[j], &value);
                proof {
                    if j < i {
                        assert(next.remove(j as int) =~= prefix.remove(j as int).push(value@));
                        assert(next.remove(j as int).drop_last() =~= prefix.remove(j as int));
                    } else {
                        assert(next.drop_last() =~= prefix);
                    }
                }
                result.set(j, updated);
            }
            j += 1;
        }
        proof {
            assert(next.remove(i as int) =~= prefix);
        }
        total = multiply(&total, &value);
        i += 1;
    }
    assert(all.subrange(0, n as int) =~= all);
    (result, total)
}

/// The same as `multiply_stuff` for nonzero values, computed by dividing the
/// product of all by each value raised to its count.
pub fn multiply_stuff2(values: &[BigInt], counts: &[u32]) -> (r: (Vec<BigInt>, BigInt))
    requires
        values@.len() == counts@.len(),
        forall|i: int| 0 <= i < values@.len() ==> (#[trigger] values@[i])@ != 0,
    ensures
        r.0@.len() == values@.len(),
        forall|j: int| 0 <= j < values@.len() ==> (#[trigger] r.0@[j])@ == product_except(raised(values@, counts@), j),
        r.1@ == index_product(raised(values@, counts@)),
{
    let ghost all = raised(values@, counts@);
    let n = values.len();
    let mut total = from_u64(1);
    assert(all.subrange(0, 0) =~= Seq::<int>::empty());
    let mut i: usize = 0;
    while i < n
        invariant
            n == values@.len(),
            n == counts@.len(),
            all == raised(values@, counts@),
            i <= n,
            total@ == index_product(all.subrange(0, i as int)),
        decreases n - i,
    {
        let value = power(&values[i], counts[i]);
        proof {
            assert(all.subrange(0, i + 1).drop_last() =~= all.subrange(0, i as int));
        }
        total = multiply(&total, &value);
        i += 1;
    }
    assert(all.subrange(0, n as int) =~= all);
    let mut results: Vec<BigInt> = Vec::new();
    let mut k: usize = 0;
    while k < n
        invariant
            k <= n,
            results@.len() == k,
            forall|j: int| 0 <= j < k ==> (#[trigger] results@[j])@ == total@,
        decreases n - k,
    {
        results.push(total.clone());
        k += 1;
    }
    let mut i: usize = 0;
    while i < n
        invariant
            n == values@.len(),
            n == counts@.len(),
            all == raised(values@, counts@),
            forall|m: int| 0 <= m < n ==> (#[trigger] values@[m])@ != 0,
            i <= n,
            results@.len() == n,
            total@ == index_product(all),
            forall|j: int| 0 <= j < i ==> (#[trigger] results@[j])@ == product_except(all, j),
            forall|j: int| i <= j < n ==> (#[trigger] results@[j])@ == total@,
        decreases n - i,
    {
        let value = power(&values[i], counts[i]);
        proof {
            lemma_pow_nonzero(values@[i as int]@, counts@[i as int] as nat);
            assert(all[i as int] == value@);
            lemma_quotient_is_product_except(all, i as int);
        }
        let (q, _) = div_rem(&results[i], &value);
        results.set(i, q);
        i += 1;
    }
    (results, total)
}

} // verus!
