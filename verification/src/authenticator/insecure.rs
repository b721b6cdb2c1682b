//! An insecure authenticator: it proves nothing.
//!
//! Useful for testing.
use crate::authenticator::Revision;
use crate::log::PackageId;
use crate::util::{DataSized, Information};
use vstd::prelude::*;

verus! {

#[derive(Clone, Copy, Default, Debug)]
pub struct Snapshot {}

impl DataSized for Snapshot {
    open spec fn spec_size(&self) -> nat {
        0
    }

    fn size(&self) -> (r: Information) {
        let r = Information::zero();
        assert(self.spec_size() == 0);
        r
    }
}

/// An insecure authenticator.
#[derive(Clone, Copy, Default, Debug)]
pub struct Authenticator {}

impl DataSized for Authenticator {
    open spec fn spec_size(&self) -> nat {
        0
    }

    fn size(&self) -> (r: Information) {
        let r = Information::zero();
        assert(self.spec_size() == 0);
        r
    }
}

impl super::Authenticator for Authenticator {
    type ClientSnapshot = Snapshot;
    type Id = ();
    type Diff = ();
    type Proof = ();

    open spec fn can_refresh(&self, snapshot_id: ()) -> bool {
        true
    }

    open spec fn can_publish(&self, package: Seq<char>) -> bool {
        true
    }

    open spec fn can_request(&self, snapshot_id: Self::Id, package: Seq<char>) -> bool {
        true
    }

    open spec fn can_import(packages: Seq<PackageId>) -> bool {
        true
    }

    open spec fn can_apply(snapshot: Snapshot, diff: ()) -> bool {
        true
    }

    open spec fn can_check(snapshot: Snapshot, diff: ()) -> bool {
        true
    }

    open spec fn can_verify(snapshot: Snapshot, package: Seq<char>) -> bool {
        true
    }

    open spec fn spec_cdn_size(&self) -> nat {
        0
    }

    fn name() -> (r: &'static str)
        ensures
            r@ == "insecure"@,
    {
        "insecure"
    }

    fn refresh_metadata(&self, _snapshot_id: ()) -> (r: Option<()>)
        ensures
            r is None,
    {
        None
    }

    fn get_metadata(&self) -> (r: Snapshot) {
        Snapshot {  }
    }

    fn publish(&mut self, _package: PackageId) {
    }

    fn request_file(&mut self, _snapshot_id: (), _package: &PackageId) -> (r: (Revision, ()))
        ensures
            r.0.value() == 1,
    {
        (Revision::default(), ())
    }

    fn batch_import(_packages: Vec<PackageId>) -> (r: Self) {
        Self {  }
    }

    fn id(_snapshot: &Snapshot) -> (r: ()) {
    }

    fn update(_snapshot: &mut Snapshot, _diff: ()) {
    }

    fn check_no_rollback(_snapshot: &Snapshot, _diff: &()) -> (r: bool)
        ensures
            r,
    {
        true
    }

    fn verify_membership(
        _snapshot: &Snapshot,
        _package: &PackageId,
        _revision: Revision,
        _proof: (),
    ) -> (r: bool)
        ensures
            r,
    {
        true
    }

    fn cdn_size(&self) -> (r: Information) {
        self.size()
    }
}

} // verus!
