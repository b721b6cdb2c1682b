//! The first simulator's RSA accumulator: a digest of a set of non-negative
//! integers modulo RSA-2048, with membership witnesses computed afresh.
use crate::bigint::{equals, from_u64, pow_mod, BigInt};
use crate::primitives::rsa_group::{modulus, rsa2048_modulus};
use vstd::arithmetic::power::{lemma_pow1, lemma_pow_mod_noop, lemma_pow_multiplies, pow};
use vstd::prelude::*;

verus! {

/// The generator of the accumulator.
pub open spec fn generator() -> int {
    65537
}

/// The product of the values of `set`.
pub open spec fn set_product(set: Seq<int>) -> int
    decreases set.len(),
{
    if set.len() == 0 {
        1
    } else {
        set_product(set.drop_last()) * set.last()
    }
}

/// The product of the values of `set` other than `member`.
pub open spec fn product_without(set: Seq<int>, member: int) -> int
    decreases set.len(),
{
    if set.len() == 0 {
        1
    } else if set.last() == member {
        product_without(set.drop_last(), member)
    } else {
        product_without(set.drop_last(), member) * set.last()
    }
}

/// `witness` raised to `member` modulo RSA-2048 is `digest`.
pub open spec fn witness_holds(digest: int, member: int, witness: int) -> bool {
    pow(witness, member as nat) % rsa2048_modulus() == digest
}

proof fn lemma_products_nonneg(set: Seq<int>, member: int)
    requires
        forall|i: int| 0 <= i < set.len() ==> #[trigger] set[i] >= 0,
    ensures
        set_product(set) >= 0,
        product_without(set, member) >= 0,
    decreases set.len(),
{
    if set.len() > 0 {
        lemma_products_nonneg(set.drop_last(), member);
        assert(set[set.len() - 1] >= 0);
        let a = set_product(set.drop_last());
        let b = product_without(set.drop_last(), member);
        assert(a * set.last() >= 0 && b * set.last() >= 0) by (nonlinear_arith)
            requires
                a >= 0,
                b >= 0,
                set.last() >= 0,
        ;
    }
}

/// The product of a set with `member` once is the product without it,
/// times it.
proof fn lemma_product_split(set: Seq<int>, member: int)
    requires
        set.no_duplicates(),
        set.contains(member),
    ensures
        set_product(set) == product_without(set, member) * member,
    decreases set.len(),
{
    let rest = set.drop_last();
    if set.last() == member {
        assert(!rest.contains(member)) by {
            if rest.contains(member) {
                let i = choose|i: int| 0 <= i < rest.len() && rest[i] == member;
                assert(set[i] == set[set.len() - 1]);
            }
        }
        lemma_product_without_absent(rest, member);
    } else {
        let i = choose|i: int| 0 <= i < set.len() && set[i] == member;
        assert(rest[i] == member);
        lemma_product_split(rest, member);
        let p = product_without(rest, member);
        assert(p * member * set.last() == p * set.last() * member) by (nonlinear_arith);
    }
}

/// Leaving out an absent value leaves the product as it is.
proof fn lemma_product_without_absent(set: Seq<int>, member: int)
    requires
        !set.contains(member),
    ensures
        product_without(set, member) == set_product(set),
    decreases set.len(),
{
    if set.len() > 0 {
        assert(set[set.len() - 1] != member);
        assert(!set.drop_last().contains(member)) by {
            if set.drop_last().contains(member) {
                let i = choose|i: int| 0 <= i < set.drop_last().len() && set.drop_last()[i] == member;
                assert(set[i] == member);
            }
        }
        lemma_product_without_absent(set.drop_last(), member);
    }
}

/// `b^e` modulo RSA-2048 taken once more to the power `f` is `b^(e * f)`.
proof fn lemma_power_twice(b: int, e: nat, f: nat)
    ensures
        pow(pow(b, e) % rsa2048_modulus(), f) % rsa2048_modulus() == pow(b, e * f) % rsa2048_modulus(),
{
    lemma_pow_mod_noop(pow(b, e), f, rsa2048_modulus());
    lemma_pow_multiplies(b, e, f);
}

/// The digest of a set.
#[derive(Debug)]
pub struct RsaAccumulatorDigest {
    value: BigInt,
}

impl RsaAccumulatorDigest {
    /// The integer.
    pub closed spec fn value(&self) -> int {
        self.value@
    }

    /// The integer, as a big integer.
    pub fn inner(&self) -> (r: &BigInt)
        ensures
            r@ == self.value(),
    {
        &self.value
    }

    /// The digest with the integer `value`.
    pub fn from(value: BigInt) -> (r: Self)
        ensures
            r.value() == value@,
    {
        RsaAccumulatorDigest { value }
    }

    /// Whether `witness` raised to `member` gives this digest.
    pub fn verify(&self, member: &BigInt, witness: BigInt) -> (r: bool)
        requires
            member@ >= 0,
        ensures
            r == witness_holds(self.value(), member@, witness@),
    {
        let m = modulus();
        let raised = pow_mod(&witness, member, &m);
        equals(&raised, &self.value)
    }
}

impl Default for RsaAccumulatorDigest {
    /// The digest of the empty set: the generator.
    fn default() -> (r: Self)
        ensures
            r.value() == generator(),
    {
        RsaAccumulatorDigest { value: from_u64(65537) }
    }
}

/// An accumulator of a set of non-negative integers: the digest is the
/// generator raised to each integer added, and the set remembers them.
#[derive(Debug)]
pub struct RsaAccumulator {
    digest: RsaAccumulatorDigest,
    set: Vec<BigInt>,
}

impl RsaAccumulator {
    /// The members, each once, in the order they were first added.
    pub closed spec fn members(&self) -> Seq<int> {
        self.set@.map_values(|b: BigInt| b@)
    }

    /// The digest's integer.
    pub closed spec fn digest_value(&self) -> int {
        self.digest.value()
    }

    /// No member occurs twice, and members are not negative.
    pub open spec fn wf(&self) -> bool {
        &&& self.members().no_duplicates()
        &&& forall|i: int| 0 <= i < self.members().len() ==> #[trigger] self.members()[i] >= 0
    }

    /// The digest is the generator raised to the product of the members: so
    /// it stays while each member is added once.
    pub open spec fn digest_matches(&self) -> bool {
        self.digest_value() == pow(generator(), set_product(self.members()) as nat) % rsa2048_modulus()
    }

    /// The digest.
    pub fn digest(&self) -> (r: &RsaAccumulatorDigest)
        ensures
            r.value() == self.digest_value(),
    {
        &self.digest
    }

    /// Whether `member` was added.
    fn position(&self, member: &BigInt) -> (r: Option<usize>)
        ensures
            match r {
                Some(i) => i < self.members().len() && self.members()[i as int] == member@,
                None => !self.members().contains(member@),
            },
    {
        let mut i: usize = 0;
        while i < self.set.len()
            invariant
                i <= self.set@.len(),
                forall|j: int| 0 <= j < i ==> self.members()[j] != member@,
            decreases self.set@.len() - i,
        {
            if equals(&self.set[i], member) {
                return Some(i);
            }
            i += 1;
        }
        None
    }

    /// Raises the digest to `member`, and adds it to the set.
    pub fn add(&mut self, member: BigInt)
        requires
            old(self).wf(),
            member@ >= 0,
        ensures
            final(self).wf(),
            final(self).digest_value() == pow(old(self).digest_value(), member@ as nat) % rsa2048_modulus(),
            old(self).members().contains(member@) ==> final(self).members() == old(self).members(),
            !old(self).members().contains(member@) ==> final(self).members() == old(self).members().push(
                member@,
            ),
            old(self).digest_matches() && !old(self).members().contains(member@) ==> final(self).digest_matches(),
    {
        let m = modulus();
        let raised = pow_mod(&self.digest.value, &member, &m);
        let ghost d0 = self.digest_value();
        let ghost s0 = self.members();
        self.digest = RsaAccumulatorDigest { value: raised };
        match self.position(&member) {
            Some(_) => {},
            None => {
                let ghost v = member@;
                self.set.push(member);
                proof {
                    assert(self.members() =~= s0.push(v));
                    assert forall|i: int, j: int|
                        0 <= i < self.members().len() && 0 <= j < self.members().len() && i != j implies self.members()[i]
                        != self.members()[j] by {
                        if i < s0.len() && j < s0.len() {
                            assert(s0.no_duplicates());
                        } else if i == s0.len() {
                            assert(s0[j] != v);
                        } else {
                            assert(s0[i] != v);
                        }
                    }
                    lemma_products_nonneg(s0, v);
                    lemma_power_twice(generator(), set_product(s0) as nat, v as nat);
                    assert(self.members().drop_last() == s0);
                }
            },
        }
    }

    /// The witness for `member`: the generator raised to every other member;
    /// none if `member` is not in the set.
    pub fn proove(&self, member: &BigInt) -> (r: Option<BigInt>)
        requires
            self.wf(),
        ensures
            r is Some <==> self.members().contains(member@),
            r matches Some(w) ==> w@ == pow(generator(), product_without(self.members(), member@) as nat)
                % rsa2048_modulus(),
    {
        if self.position(member).is_none() {
            return None;
        }
        let m = modulus();
        let mut current = from_u64(65537);
        proof {
            lemma_pow1(generator());
            vstd::arithmetic::div_mod::lemma_small_mod(65537, rsa2048_modulus() as nat);
        }
        let mut i: usize = 0;
        while i < self.set.len()
            invariant
                self.wf(),
                i <= self.set@.len(),
                m@ == rsa2048_modulus(),
                current@ == pow(generator(), product_without(self.members().subrange(0, i as int), member@) as nat)
                    % rsa2048_modulus(),
            decreases self.set@.len() - i,
        {
            let ghost pre = self.members().subrange(0, i as int);
            let ghost next = self.members().subrange(0, i + 1);
            proof {
                assert(next.drop_last() =~= pre);
                assert(next.last() == self.members()[i as int]);
                assert forall|j: int| 0 <= j < pre.len() implies #[trigger] pre[j] >= 0 by {
                    assert(pre[j] == self.members()[j]);
                }
                lemma_products_nonneg(pre, member@);
            }
            if !equals(&self.set[i], member) {
                let s = &self.set[i];
                proof {
                    assert(s@ == self.members()[i as int]);
                    assert(s@ >= 0);
                    lemma_power_twice(generator(), product_without(pre, member@) as nat, s@ as nat);
                }
                current = pow_mod(&current, s, &m);
            }
            i += 1;
        }
        assert(self.members().subrange(0, self.set@.len() as int) =~= self.members());
        Some(current)
    }
}

impl Default for RsaAccumulator {
    /// The accumulator of the empty set.
    fn default() -> (r: Self)
        ensures
            r.wf(),
            r.members() == Seq::<int>::empty(),
            r.digest_value() == generator(),
            r.digest_matches(),
    {
        let r = RsaAccumulator { digest: RsaAccumulatorDigest::default(), set: Vec::new() };
        proof {
            assert(r.members() =~= Seq::<int>::empty());
            lemma_pow1(generator());
            vstd::arithmetic::div_mod::lemma_small_mod(65537, rsa2048_modulus() as nat);
        }
        r
    }
}

/// A witness that the accumulator computes for a member checks out against
/// its digest, as long as every member was added once.
pub proof fn lemma_witness_verifies(acc: &RsaAccumulator, member: int)
    requires
        acc.wf(),
        acc.digest_matches(),
        acc.members().contains(member),
    ensures
        witness_holds(
            acc.digest_value(),
            member,
            pow(generator(), product_without(acc.members(), member) as nat) % rsa2048_modulus(),
        ),
{
    let s = acc.members();
    lemma_products_nonneg(s, member);
    let i = choose|i: int| 0 <= i < s.len() && s[i] == member;
    assert(s[i] >= 0);
    lemma_product_split(s, member);
    lemma_power_twice(generator(), product_without(s, member) as nat, member as nat);
}

} // verus!
