//! Accumulators: short digests of multisets with proofs of membership.
pub mod rsa;

use crate::keyed_map::KeyedMap;
use crate::multiset::{count_of, MultiSet};
use crate::primitives::Prime;
use vstd::prelude::*;

verus! {

/// A digest of a multiset of primes, with witnesses that a prime occurs a
/// given number of times and that a later digest extends an earlier one.
pub trait Accumulator: Sized {
    type Digest: View;
    type Witness: View;
    type AppendOnlyWitness: View;
    type NonMembershipWitness;

    /// The state is consistent.
    spec fn wf(&self) -> bool;

    /// How often each prime occurs, by value.
    spec fn members(&self) -> Map<int, nat>;

    /// The digest.
    spec fn digest_view(&self) -> <Self::Digest as View>::V;

    /// `increment` can add `member`.
    spec fn can_increment(&self, member: int) -> bool;

    /// `prove_append_only` can prove the way from `prefix` to the digest.
    spec fn can_prove_append_only(&self, prefix: <Self::Digest as View>::V) -> bool;

    /// Whether `witness` shows that `member` occurs `revision` times in the
    /// multiset with digest `digest`.
    spec fn spec_verify(
        digest: <Self::Digest as View>::V,
        member: int,
        revision: u32,
        witness: <Self::Witness as View>::V,
    ) -> bool;

    /// Whether `proof` shows that `new_state` extends `digest`.
    spec fn spec_verify_append_only(
        digest: <Self::Digest as View>::V,
        proof: <Self::AppendOnlyWitness as View>::V,
        new_state: <Self::Digest as View>::V,
    ) -> bool;

    fn digest(&self) -> (r: &Self::Digest)
        ensures
            r@ == self.digest_view(),
    ;

    fn increment(&mut self, member: Prime)
        requires
            old(self).can_increment(member.value()),
        ensures
            final(self).wf(),
            final(self).members() == old(self).members().insert(
                member.value(),
                count_of(old(self).members(), member.value()) + 1,
            ),
    ;

    #[must_use]
    fn prove_append_only(&self, prefix: &Self::Digest) -> (r: Self::AppendOnlyWitness)
        requires
            self.can_prove_append_only(prefix@),
    ;

    #[must_use]
    fn prove(&mut self, member: &Prime, revision: u32) -> (r: Option<Self::Witness>)
        requires
            old(self).wf(),
        ensures
            final(self).wf(),
            final(self).members() == old(self).members(),
            final(self).digest_view() == old(self).digest_view(),
            r is Some ==> revision == count_of(old(self).members(), member.value()),
    ;

    #[must_use]
    fn prove_nonmember(&mut self, value: &Prime) -> (r: Option<Self::NonMembershipWitness>)
        requires
            old(self).wf(),
        ensures
            final(self).wf(),
            final(self).members() == old(self).members(),
            final(self).digest_view() == old(self).digest_view(),
            r is Some ==> count_of(old(self).members(), value.value()) == 0,
    ;

    #[must_use]
    fn get(&self, member: &Prime) -> (r: u32)
        ensures
            r == count_of(self.members(), member.value()),
    ;

    fn import(multiset: MultiSet<Prime>) -> (r: Self)
        ensures
            r.wf(),
            r.members() == multiset@,
    ;

    #[must_use]
    fn verify(digest: &Self::Digest, member: &Prime, revision: u32, witness: Self::Witness) -> (r: bool)
        ensures
            r == Self::spec_verify(digest@, member.value(), revision, witness@),
    ;

    #[must_use]
    fn verify_append_only(
        digest: &Self::Digest,
        proof: &Self::AppendOnlyWitness,
        new_state: &Self::Digest,
    ) -> (r: bool)
        ensures
            r == Self::spec_verify_append_only(digest@, proof@, new_state@),
    ;
}

/// An accumulator that can add, prove and check many members at once.
pub trait BatchAccumulator: Accumulator {
    type BatchWitness: View;

    /// `increment_batch` can add `members`.
    spec fn can_increment_batch(&self, members: Seq<Prime>) -> bool;

    /// `prove_batch` can prove each of `entries`.
    spec fn can_prove_batch(&self, entries: Seq<Prime>) -> bool;

    /// Whether `witness` shows that each prime of `members` occurs as often as
    /// `members` says in the multiset with digest `digest`.
    spec fn spec_verify_batch(
        digest: <Self::Digest as View>::V,
        members: Map<int, u32>,
        witness: <Self::BatchWitness as View>::V,
    ) -> bool;

    fn increment_batch(&mut self, members: Vec<Prime>) -> (r: Option<Self::AppendOnlyWitness>)
        requires
            old(self).can_increment_batch(members@),
        ensures
            final(self).wf(),
    ;

    fn prove_batch(&mut self, entries: Vec<Prime>) -> (r: (KeyedMap<Prime, u32>, Self::BatchWitness))
        requires
            old(self).can_prove_batch(entries@),
        ensures
            final(self).wf(),
            final(self).members() == old(self).members(),
            final(self).digest_view() == old(self).digest_view(),
            forall|p: int| #[trigger]
                r.0@.contains_key(p) <==> exists|j: int| 0 <= j < entries@.len() && entries@[j].value() == p,
            forall|p: int| #[trigger]
                r.0@.contains_key(p) ==> r.0@[p] == count_of(old(self).members(), p),
    ;

    fn verify_batch(digest: &Self::Digest, members: &KeyedMap<Prime, u32>, witness: Self::BatchWitness) -> (r:
        bool)
        ensures
            r == Self::spec_verify_batch(digest@, members@, witness@),
    ;
}

} // verus!
