//! An authenticator as in vanilla TUF: the client downloads the whole map
//! from package to revision.
use crate::authenticator::package_map::PackageMap;
use crate::authenticator::Revision;
use crate::log::PackageId;
use crate::util::{DataSized, Information, STRING_BYTES};
use vstd::prelude::*;

verus! {

/// Every package of `old` is in `new`, at a revision no earlier.
pub open spec fn dominates(new: Map<Seq<char>, Revision>, old: Map<Seq<char>, Revision>) -> bool {
    forall|k: Seq<char>|
        #[trigger] old.contains_key(k) ==> new.contains_key(k) && new[k].value() >= old[k].value()
}

/// A state in which some package of `old` is missing, or goes back to an
/// earlier revision, does not dominate it: the client refuses the rollback.
pub proof fn lemma_rollback_refused(new: Map<Seq<char>, Revision>, old: Map<Seq<char>, Revision>, k: Seq<char>)
    requires
        old.contains_key(k),
        !new.contains_key(k) || new[k].value() < old[k].value(),
    ensures
        !dominates(new, old),
{
}

/// A state that holds every package of `old` at a revision no earlier
/// dominates it.
pub proof fn lemma_forward_accepted(new: Map<Seq<char>, Revision>, old: Map<Seq<char>, Revision>)
    requires
        forall|k: Seq<char>| #[trigger] old.contains_key(k) ==> new.contains_key(k) && new[k].value() >= old[k].value(),
    ensures
        dominates(new, old),
{
}

/// Dominance is transitive: a client behind an earlier server state stays
/// behind every later state that dominates it, so `check_no_rollback` accepts
/// whatever a later refresh hands it.
pub proof fn lemma_dominates_transitive(
    a: Map<Seq<char>, Revision>,
    b: Map<Seq<char>, Revision>,
    c: Map<Seq<char>, Revision>,
)
    requires
        dominates(a, b),
        dominates(b, c),
    ensures
        dominates(a, c),
{
    assert forall|k: Seq<char>| #[trigger] c.contains_key(k) implies a.contains_key(k) && a[k].value()
        >= c[k].value() by {
        assert(b.contains_key(k));
    }
}

/// Every state dominates itself.
pub proof fn lemma_dominates_reflexive(a: Map<Seq<char>, Revision>)
    ensures
        dominates(a, a),
{
}

/// The client snapshot: the revision of every package, and an identifier.
#[derive(Debug, Default)]
pub struct Snapshot {
    packages: PackageMap<Revision>,
    id: u64,
}

impl Snapshot {
    /// The revision of every package.
    pub closed spec fn packages(&self) -> Map<Seq<char>, Revision> {
        self.packages@
    }

    /// The number of packages.
    pub closed spec fn num_packages(&self) -> nat {
        self.packages.entries().len()
    }

    pub closed spec fn spec_id(&self) -> u64 {
        self.id
    }
}

impl Clone for Snapshot {
    fn clone(&self) -> (r: Self)
        ensures
            r.packages() == self.packages(),
            r.num_packages() == self.num_packages(),
            r.spec_id() == self.spec_id(),
    {
        Snapshot { packages: self.packages.duplicate(), id: self.id }
    }
}

impl DataSized for Snapshot {
    open spec fn spec_size(&self) -> nat {
        8 + self.num_packages() * (STRING_BYTES as nat + 8)
    }

    fn size(&self) -> (r: Information) {
        let size = Information::new_bytes(8);
        let len = self.packages.len() as u64;
        assert(self.spec_size() == 8 + len * (STRING_BYTES as nat + 8));
        if len == 0 {
            return size;
        }
        let k = PackageId(String::new()).size();
        let v = Revision::default().size();
        let kv = k.plus(v);
        assert(kv@ == 40);
        assert(kv@ * len == len * (STRING_BYTES as nat + 8)) by (nonlinear_arith)
            requires
                kv@ == 40,
                STRING_BYTES == 32,
        ;
        size.plus(kv.times(len))
    }
}

/// An authenticator as-in vanilla TUF.
#[derive(Debug, Default)]
pub struct Authenticator {
    snapshot: Snapshot,
}

impl Authenticator {
    /// The server's current snapshot.
    pub closed spec fn current(&self) -> Snapshot {
        self.snapshot
    }
}

impl Clone for Authenticator {
    fn clone(&self) -> (r: Self)
        ensures
            r.current().packages() == self.current().packages(),
            r.current().spec_id() == self.current().spec_id(),
    {
        Authenticator { snapshot: self.snapshot.clone() }
    }
}

impl DataSized for Authenticator {
    open spec fn spec_size(&self) -> nat {
        self.current().spec_size()
    }

    fn size(&self) -> (r: Information) {
        self.snapshot.size()
    }
}

impl super::Authenticator for Authenticator {
    type ClientSnapshot = Snapshot;
    type Id = u64;
    type Diff = Snapshot;
    type Proof = ();

    open spec fn can_refresh(&self, snapshot_id: u64) -> bool {
        true
    }

    open spec fn can_publish(&self, package: Seq<char>) -> bool {
        &&& self.current().spec_id() < u64::MAX
        &&& self.current().packages().contains_key(package) ==> self.current().packages()[package].value()
            < u64::MAX
    }

    open spec fn can_request(&self, snapshot_id: Self::Id, package: Seq<char>) -> bool {
        self.current().packages().contains_key(package)
    }

    open spec fn can_import(packages: Seq<PackageId>) -> bool {
        true
    }

    open spec fn can_apply(snapshot: Snapshot, diff: Snapshot) -> bool {
        true
    }

    open spec fn can_check(snapshot: Snapshot, diff: Snapshot) -> bool {
        true
    }

    open spec fn can_verify(snapshot: Snapshot, package: Seq<char>) -> bool {
        true
    }

    open spec fn spec_cdn_size(&self) -> nat {
        self.spec_size()
    }

    fn name() -> (r: &'static str)
        ensures
            r@ == "vanilla_tuf"@,
    {
        "vanilla_tuf"
    }

    fn batch_import(packages: Vec<PackageId>) -> (r: Self)
        ensures
            forall|k: Seq<char>|
                #[trigger] r.current().packages().contains_key(k) <==> exists|i: int|
                    0 <= i < packages@.len() && #[trigger] packages@[i]@ == k,
            forall|k: Seq<char>|
                #[trigger] r.current().packages().contains_key(k) ==> r.current().packages()[k].value()
                    == 1,
            r.current().spec_id() == 1,
    {
        let mut map: PackageMap<Revision> = PackageMap::new();
        let mut i: usize = 0;
        while i < packages.len()
            invariant
                i <= packages@.len(),
                forall|k: Seq<char>|
                    #[trigger] map@.contains_key(k) <==> exists|j: int|
                        0 <= j < i && #[trigger] packages@[j]@ == k,
                forall|k: Seq<char>| #[trigger] map@.contains_key(k) ==> map@[k].value() == 1,
            decreases packages@.len() - i,
        {
            let p = packages[i].duplicate();
            let ghost before = map@;
            map.insert(p, Revision::default());
            proof {
                assert forall|k: Seq<char>| #[trigger] map@.contains_key(k) <==> exists|j: int|
                    0 <= j < i + 1 && #[trigger] packages@[j]@ == k by {
                    if map@.contains_key(k) && k != packages@[i as int]@ {
                        assert(before.contains_key(k));
                    }
                    if exists|j: int| 0 <= j < i + 1 && #[trigger] packages@[j]@ == k {
                        let j = choose|j: int| 0 <= j < i + 1 && #[trigger] packages@[j]@ == k;
                        if j < i {
                            assert(before.contains_key(k));
                        }
                    }
                }
            }
            i += 1;
        }
        Self { snapshot: Snapshot { packages: map, id: 1 } }
    }

    fn refresh_metadata(&self, snapshot_id: u64) -> (r: Option<Snapshot>)
        ensures
            snapshot_id == self.current().spec_id() ==> r is None,
            snapshot_id != self.current().spec_id() ==> (r matches Some(d) && d.packages()
                == self.current().packages() && d.spec_id() == self.current().spec_id()
                && d.num_packages() == self.current().num_packages()),
    {
        if snapshot_id == self.snapshot.id {
            // already up to date
            return None;
        }
        Some(self.snapshot.clone())
    }

    fn publish(&mut self, package: PackageId)
        ensures
            final(self).current().spec_id() == old(self).current().spec_id() + 1,
            final(self).current().packages().dom() == old(self).current().packages().dom().insert(
                package@,
            ),
            final(self).current().packages()[package@].value() == (
                if old(self).current().packages().contains_key(package@) {
                    old(self).current().packages()[package@].value() + 1
                } else {
                    1
                }),
            forall|k: Seq<char>|
                k != package@ && #[trigger] old(self).current().packages().contains_key(k)
                    ==> final(self).current().packages()[k] == old(self).current().packages()[k],
            dominates(final(self).current().packages(), old(self).current().packages()),
    {
        self.snapshot.id = self.snapshot.id + 1;
        let revision = match self.snapshot.packages.get(&package) {
            Some(r) => {
                let mut r = r;
                r.increment();
                r
            },
            None => Revision::default(),
        };
        self.snapshot.packages.insert(package, revision);
    }

    fn request_file(&mut self, snapshot_id: u64, package: &PackageId) -> (r: (Revision, ()))
        ensures
            r.0 == old(self).current().packages()[package@],
            *final(self) == *old(self),
    {
        let revision = self.snapshot.packages.get(package);
        (revision.unwrap(), ())
    }

    fn get_metadata(&self) -> (r: Snapshot)
        ensures
            r.packages() == self.current().packages(),
            r.spec_id() == self.current().spec_id(),
            r.num_packages() == self.current().num_packages(),
    {
        self.snapshot.clone()
    }

    fn id(snapshot: &Snapshot) -> (r: u64)
        ensures
            r == snapshot.spec_id(),
    {
        snapshot.id
    }

    fn update(snapshot: &mut Snapshot, diff: Snapshot)
        ensures
            final(snapshot).packages() == diff.packages(),
            final(snapshot).spec_id() == diff.spec_id(),
    {
        snapshot.packages = diff.packages;
        snapshot.id = diff.id
    }

    fn check_no_rollback(snapshot: &Snapshot, diff: &Snapshot) -> (r: bool)
        ensures
            r == dominates(diff.packages(), snapshot.packages()),
            r <==> forall|k: Seq<char>| #[trigger]
                snapshot.packages().contains_key(k) ==> diff.packages().contains_key(k)
                    && diff.packages()[k].value() >= snapshot.packages()[k].value(),
    {
        let mut i: usize = 0;
        let n = snapshot.packages.len();
        while i < n
            invariant
                n == snapshot.packages.entries().len(),
                i <= n,
                forall|j: int|
                    0 <= j < i ==> {
                        let k = #[trigger] snapshot.packages.entries()[j].0@;
                        diff.packages().contains_key(k) && diff.packages()[k].value()
                            >= snapshot.packages()[k].value()
                    },
            decreases n - i,
        {
            let package_id = snapshot.packages.key_at(i);
            let old_revision = snapshot.packages.value_at(i);
            let new_revision = match diff.packages.get(package_id) {
                None => {
                    return false;
                },
                Some(r) => r,
            };
            if new_revision.is_before(&old_revision) {
                return false;
            }
            i += 1;
        }
        proof {
            assert forall|k: Seq<char>| #[trigger]
                snapshot.packages().contains_key(k) implies diff.packages().contains_key(k)
                && diff.packages()[k].value() >= snapshot.packages()[k].value() by {
                crate::authenticator::package_map::lemma_entries_map_dom(
                    snapshot.packages.entries(),
                    k,
                );
                let j = choose|j: int|
                    0 <= j < snapshot.packages.entries().len()
                        && #[trigger] snapshot.packages.entries()[j].0@ == k;
                assert(snapshot.packages.entries()[j].0@ == k);
            }
        }
        true
    }

    fn verify_membership(
        snapshot: &Snapshot,
        package_id: &PackageId,
        revision: Revision,
        _proof: (),
    ) -> (r: bool)
        ensures
            r == membership_verdict(snapshot.packages(), package_id@, revision.value()),
    {
        match snapshot.packages.get(package_id) {
            Some(old_revision) => revision.same(&old_revision),
            None => false,
        }
    }

    fn cdn_size(&self) -> (r: Information) {
        self.size()
    }
}


/// Whether a client whose snapshot holds `packages` accepts `package` at
/// `revision`: the snapshot has it at that revision.
pub open spec fn membership_verdict(packages: Map<Seq<char>, Revision>, package: Seq<char>, revision: nat) -> bool {
    packages.contains_key(package) && packages[package].value() == revision
}

/// What the server serves checks out against the metadata it hands out: the
/// revision that `request_file` returns for a known package is accepted by
/// `verify_membership` on the snapshot from `get_metadata`.
pub proof fn lemma_served_revision_verifies(server: Authenticator, package: Seq<char>)
    requires
        server.current().packages().contains_key(package),
    ensures
        membership_verdict(
            server.current().packages(),
            package,
            server.current().packages()[package].value(),
        ),
{
}

} // verus!
