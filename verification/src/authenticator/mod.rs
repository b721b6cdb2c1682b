//! Authenticators: the ways a repository can prove its package index to
//! clients.
pub mod hackage;
pub mod insecure;
pub mod mercury_diff;
pub mod package_map;
pub mod rsa;
pub mod sparse_merkle;
pub mod vanilla_tuf;

use crate::authenticator::package_map::PackageMap;
use crate::log::PackageId;
use crate::util::{DataSized, FixedDataSized, Information};
use vstd::prelude::*;

pub use hackage::Authenticator as Hackage;
pub use insecure::Authenticator as Insecure;
pub use mercury_diff::Authenticator as MercuryDiff;
pub use sparse_merkle::Authenticator as SparseMerkle;
pub use vanilla_tuf::Authenticator as VanillaTuf;

verus! {

/// The authenticator over an RSA accumulator.
pub type Rsa = rsa::Authenticator<crate::primitives::RsaGroup>;

/// The pooled authenticator over an RSA accumulator.
pub type RsaPool = rsa::PoolAuthenticator<crate::primitives::RsaGroup>;

/// The revision of a package; the first revision is 1.
#[derive(Debug, Clone, Copy, PartialEq, Eq, PartialOrd, Ord, Hash)]
pub struct Revision(u64);

impl Revision {
    #[verifier::type_invariant]
    closed spec fn positive(&self) -> bool {
        self.0 >= 1
    }

    /// The revision number.
    pub closed spec fn value(&self) -> nat {
        self.0 as nat
    }

    /// The revision numbered `revision`, which must not be zero.
    pub fn from(revision: usize) -> (r: Self)
        requires
            revision >= 1,
        ensures
            r.value() == revision,
    {
        Revision(revision as u64)
    }

    /// The revision numbered `revision`, which must not be zero.
    pub fn from_nonzero(revision: u64) -> (r: Self)
        requires
            revision >= 1,
        ensures
            r.value() == revision,
    {
        Revision(revision)
    }

    /// The revision number.
    pub fn get(&self) -> (r: u64)
        ensures
            r == self.value(),
            r >= 1,
    {
        proof {
            use_type_invariant(self);
        }
        self.0
    }

    /// Moves to the next revision.
    pub fn increment(&mut self)
        requires
            old(self).value() < u64::MAX,
        ensures
            final(self).value() == old(self).value() + 1,
    {
        proof {
            use_type_invariant(&*self);
        }
        self.0 = self.0 + 1;
    }

    /// The revision `rhs` later than this one.
    pub fn plus(self, rhs: usize) -> (r: Self)
        requires
            self.value() + rhs <= u64::MAX,
        ensures
            r.value() == self.value() + rhs,
    {
        proof {
            use_type_invariant(&self);
        }
        Revision(self.0 + rhs as u64)
    }

    /// The revision `rhs` earlier than this one, which must still be positive.
    pub fn minus(self, rhs: usize) -> (r: Self)
        requires
            self.value() > rhs,
        ensures
            r.value() == self.value() - rhs,
    {
        Revision(self.0 - rhs as u64)
    }

    /// Whether this revision is earlier than `other`.
    pub fn is_before(&self, other: &Self) -> (r: bool)
        ensures
            r == (self.value() < other.value()),
    {
        self.0 < other.0
    }

    /// Whether this is the same revision as `other`.
    pub fn same(&self, other: &Self) -> (r: bool)
        ensures
            r == (self.value() == other.value()),
    {
        self.0 == other.0
    }
}

impl Default for Revision {
    fn default() -> (r: Self)
        ensures
            r.value() == 1,
    {
        Revision(1)
    }
}

impl FixedDataSized for Revision {
    open spec fn spec_fixed_size() -> nat {
        8
    }

    fn fixed_size() -> (r: Information) {
        let r = Information::new_bytes(8);
        assert(Self::spec_fixed_size() == 8);
        r
    }
}

impl DataSized for Revision {
    open spec fn spec_size(&self) -> nat {
        8
    }

    fn size(&self) -> (r: Information) {
        let r = Information::new_bytes(8);
        assert(self.spec_size() == 8);
        r
    }
}

/// A 256-bit hash value.
#[derive(Debug, Clone, Copy, Default, PartialEq, Eq, PartialOrd, Ord, Hash)]
pub struct Hash(pub [u64; 4]);

/// Server-side state of an authenticator.
///
/// Each method that can fail on some input says so in a predicate that its
/// `requires` names; an implementation defines the predicate.
pub trait Authenticator: DataSized + Sized {
    /// Client-side state
    type ClientSnapshot: DataSized;
    /// Identifies what digest we have, so
    ///   (1) the server can give us proofs against it
    ///   (2) the server can update us appropriately
    type Id;
    /// Information needed to update our client snapshot.
    type Diff: DataSized;
    /// Information neeeded to verify file membership in the snapshot.
    type Proof: DataSized;

    /// `refresh_metadata` can answer a client holding `snapshot_id`.
    spec fn can_refresh(&self, snapshot_id: Self::Id) -> bool;

    /// `publish` can record a new revision of `package`.
    spec fn can_publish(&self, package: Seq<char>) -> bool;

    /// `request_file` can answer for `package` to a client at `snapshot_id`.
    spec fn can_request(&self, snapshot_id: Self::Id, package: Seq<char>) -> bool;

    /// `batch_import` can start from `packages`.
    spec fn can_import(packages: Seq<PackageId>) -> bool;

    /// `update` can take `diff` against `snapshot`.
    spec fn can_apply(snapshot: Self::ClientSnapshot, diff: Self::Diff) -> bool;

    /// `check_no_rollback` can check `diff` against `snapshot`.
    spec fn can_check(snapshot: Self::ClientSnapshot, diff: Self::Diff) -> bool;

    /// `verify_membership` can check a proof for `package` against `snapshot`.
    spec fn can_verify(snapshot: Self::ClientSnapshot, package: Seq<char>) -> bool;

    /// The size of what a content-delivery network serves.
    spec fn spec_cdn_size(&self) -> nat;

    fn name() -> &'static str;

    fn refresh_metadata(&self, snapshot_id: Self::Id) -> Option<Self::Diff>
        requires
            self.can_refresh(snapshot_id),
    ;

    fn get_metadata(&self) -> Self::ClientSnapshot;

    fn publish(&mut self, package: PackageId)
        requires
            old(self).can_publish(package@),
    ;

    fn request_file(&mut self, snapshot_id: Self::Id, package: &PackageId) -> (Revision, Self::Proof)
        requires
            old(self).can_request(snapshot_id, package@),
    ;

    fn batch_import(packages: Vec<PackageId>) -> Self
        requires
            Self::can_import(packages@),
    ;

    fn id(snapshot: &Self::ClientSnapshot) -> Self::Id;

    fn update(snapshot: &mut Self::ClientSnapshot, diff: Self::Diff)
        requires
            Self::can_apply(*old(snapshot), diff),
    ;

    /// Verify that applying `diff` doesn't roll back any targets.
    fn check_no_rollback(snapshot: &Self::ClientSnapshot, diff: &Self::Diff) -> bool
        requires
            Self::can_check(*snapshot, *diff),
    ;

    /// Verify that `file` *is* in this snapshot.
    fn verify_membership(
        snapshot: &Self::ClientSnapshot,
        package: &PackageId,
        revision: Revision,
        proof: Self::Proof,
    ) -> bool
        requires
            Self::can_verify(*snapshot, package@),
    ;

    fn cdn_size(&self) -> (r: Information)
        requires
            self.spec_cdn_size() <= u64::MAX,
        ensures
            r@ == self.spec_cdn_size(),
    ;
}

/// An authenticator that proves the revisions of many packages at once.
pub trait BatchAuthenticator: Authenticator {
    type BatchProof: DataSized;

    /// `batch_prove` can answer for `packages`.
    spec fn can_batch_prove(&self, packages: Seq<PackageId>) -> bool;

    /// `batch_verify` can check a proof against `snapshot`.
    spec fn can_batch_verify(snapshot: Self::ClientSnapshot) -> bool;

    /// The revision of each of `packages`, with one proof for them all.
    fn batch_prove(&mut self, packages: Vec<PackageId>) -> (PackageMap<u32>, Self::BatchProof)
        requires
            old(self).can_batch_prove(packages@),
    ;

    /// Whether `proof` shows that each of `packages` is at its revision.
    fn batch_verify(snapshot: &Self::ClientSnapshot, packages: PackageMap<u32>, proof: Self::BatchProof) -> bool
        requires
            Self::can_batch_verify(*snapshot),
    ;
}

/// An authenticator that gathers publications in a pool and adds them in
/// batches.
pub trait PoolAuthenticator: Authenticator {
    /// `batch_process` can add the pool.
    spec fn can_batch_process(&self) -> bool;

    /// Adds the pool as one batch, closing the epoch.
    fn batch_process(&mut self)
        requires
            old(self).can_batch_process(),
    ;
}

} // verus!
