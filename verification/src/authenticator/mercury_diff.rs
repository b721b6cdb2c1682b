//! The Mercury paper suggests using delta compression [RFC 3229] to transmit
//! the (package->revision) map to clients.
//!
//! This is an implementation simulating delta compression.
//!
//! It works by storing each version of the (package->revision) map (by their
//! index). A client that holds version `i` receives the packages whose
//! revision changed since version `i`.
use crate::authenticator::package_map::{
    entries_map, lemma_entries_map_dom, lemma_entries_map_prefix, PackageMap,
};
use crate::authenticator::Revision;
use crate::log::PackageId;
use crate::util::{DataSized, FixedDataSized, Information, STRING_BYTES};
use std::collections::HashMap;
use vstd::prelude::*;

verus! {

broadcast use vstd::std_specs::hash::group_hash_axioms;

/// What the snapshot records of one package.
#[derive(Debug, Clone, Copy)]
pub struct Metadata {
    pub revision: Revision,
}

impl Default for Metadata {
    fn default() -> (r: Self)
        ensures
            r.revision.value() == 1,
    {
        Metadata { revision: Revision::default() }
    }
}

impl From<Revision> for Metadata {
    fn from(revision: Revision) -> (r: Self) {
        Self { revision }
    }
}

impl vstd::std_specs::convert::FromSpecImpl<Revision> for Metadata {
    open spec fn obeys_from_spec() -> bool {
        true
    }

    open spec fn from_spec(v: Revision) -> Self {
        Metadata { revision: v }
    }
}

impl FixedDataSized for Metadata {
    open spec fn spec_fixed_size() -> nat {
        8
    }

    fn fixed_size() -> (r: Information) {
        Revision::fixed_size()
    }
}

/// Every package of `old` is in `new`, at a revision no earlier.
pub open spec fn dominates(new: Map<Seq<char>, Metadata>, old: Map<Seq<char>, Metadata>) -> bool {
    forall|k: Seq<char>|
        #[trigger] old.contains_key(k) ==> new.contains_key(k) && new[k].revision.value()
            >= old[k].revision.value()
}

/// The packages of `cur` that `prev` lacks or holds at another revision.
pub open spec fn changed(cur: Map<Seq<char>, Metadata>, prev: Map<Seq<char>, Metadata>) -> Map<
    Seq<char>,
    Metadata,
> {
    cur.restrict(
        Set::new(
            |k: Seq<char>|
                !(prev.contains_key(k) && prev[k].revision.value() == cur[k].revision.value()),
        ),
    )
}

/// No package of `diff` goes back to an earlier revision than `snapshot` holds.
pub open spec fn no_rollback(snapshot: Map<Seq<char>, Metadata>, diff: Map<Seq<char>, Metadata>) -> bool {
    forall|k: Seq<char>|
        #[trigger] diff.contains_key(k) && snapshot.contains_key(k) ==> diff[k].revision.value()
            >= snapshot[k].revision.value()
}

/// A diff that takes a package of the snapshot back to an earlier revision
/// is a rollback.
pub proof fn lemma_rollback_refused(
    snapshot: Map<Seq<char>, Metadata>,
    diff: Map<Seq<char>, Metadata>,
    k: Seq<char>,
)
    requires
        snapshot.contains_key(k),
        diff.contains_key(k),
        diff[k].revision.value() < snapshot[k].revision.value(),
    ensures
        !no_rollback(snapshot, diff),
{
}

/// A diff that takes no package of the snapshot back to an earlier revision
/// is no rollback.
pub proof fn lemma_forward_accepted(snapshot: Map<Seq<char>, Metadata>, diff: Map<Seq<char>, Metadata>)
    requires
        forall|k: Seq<char>| #[trigger]
            diff.contains_key(k) && snapshot.contains_key(k) ==> diff[k].revision.value()
                >= snapshot[k].revision.value(),
    ensures
        no_rollback(snapshot, diff),
{
}

/// Dominance is transitive, so every stored version stays behind the
/// current map as packages are published.
pub proof fn lemma_dominates_transitive(
    a: Map<Seq<char>, Metadata>,
    b: Map<Seq<char>, Metadata>,
    c: Map<Seq<char>, Metadata>,
)
    requires
        dominates(a, b),
        dominates(b, c),
    ensures
        dominates(a, c),
{
    assert forall|k: Seq<char>| #[trigger] c.contains_key(k) implies a.contains_key(k)
        && a[k].revision.value() >= c[k].revision.value() by {
        assert(b.contains_key(k));
    }
}

/// A client holding a version that the current map dominates gets exactly
/// the current map back after applying the diff.
pub proof fn lemma_diff_catches_up(cur: Map<Seq<char>, Metadata>, prev: Map<Seq<char>, Metadata>)
    requires
        dominates(cur, prev),
    ensures
        prev.union_prefer_right(changed(cur, prev)) == cur,
        no_rollback(prev, changed(cur, prev)),
{
    assert(prev.union_prefer_right(changed(cur, prev)) =~= cur);
}

/// The mercury client snapshot contains *all* the snapshot state.
#[derive(Debug)]
pub struct Snapshot {
    packages: PackageMap<Metadata>,
    id: u64,
}

impl Snapshot {
    /// The metadata of every package.
    pub closed spec fn packages(&self) -> Map<Seq<char>, Metadata> {
        self.packages@
    }

    /// The number of packages.
    pub closed spec fn num_packages(&self) -> nat {
        self.packages.entries().len()
    }

    pub closed spec fn spec_id(&self) -> u64 {
        self.id
    }
}

impl Default for Snapshot {
    fn default() -> (r: Self)
        ensures
            r.packages() == Map::<Seq<char>, Metadata>::empty(),
            r.num_packages() == 0,
            r.spec_id() == 0,
    {
        Snapshot { packages: PackageMap::new(), id: 0 }
    }
}

impl Clone for Snapshot {
    fn clone(&self) -> (r: Self)
        ensures
            r.packages() == self.packages(),
            r.num_packages() == self.num_packages(),
            r.spec_id() == self.spec_id(),
    {
        Snapshot { packages: self.packages.duplicate(), id: self.id }
    }
}

impl DataSized for Snapshot {
    open spec fn spec_size(&self) -> nat {
        8 + self.num_packages() * (STRING_BYTES as nat + 8)
    }

    fn size(&self) -> (r: Information) {
        let size = self.id.size();
        let len = self.packages.len() as u64;
        let kv = Information::new_bytes(STRING_BYTES).plus(Metadata::fixed_size());
        assert(kv@ * len == len * (STRING_BYTES as nat + 8)) by (nonlinear_arith)
            requires
                kv@ == STRING_BYTES + 8,
        ;
        assert(self.spec_size() == 8 + len * (STRING_BYTES as nat + 8));
        size.plus(kv.times(len))
    }
}

/// The size of the stored versions `0..n`, each with its 8-byte key.
pub open spec fn history_size(h: Map<u64, Snapshot>, n: nat) -> nat
    decreases n,
{
    if n == 0 {
        0
    } else {
        history_size(h, (n - 1) as nat) + 8 + h[(n - 1) as u64].spec_size()
    }
}

proof fn lemma_history_size_monotone(h: Map<u64, Snapshot>, a: nat, b: nat)
    requires
        a <= b,
    ensures
        history_size(h, a) <= history_size(h, b),
    decreases b - a,
{
    if a < b {
        lemma_history_size_monotone(h, a, (b - 1) as nat);
    }
}

/// The server keeps every earlier version of the map, by identifier.
#[derive(Debug)]
pub struct Authenticator {
    snapshots: HashMap<u64, Snapshot>,
    snapshot: Snapshot,
}

impl Authenticator {
    /// The current version of the map.
    pub closed spec fn current(&self) -> Snapshot {
        self.snapshot
    }

    /// The earlier versions, by identifier.
    pub closed spec fn history(&self) -> Map<u64, Snapshot> {
        self.snapshots@
    }

    /// The earlier versions are exactly those numbered below the current
    /// one, and the current map dominates each of them.
    pub open spec fn wf(&self) -> bool {
        &&& forall|k: u64| #[trigger]
            self.history().contains_key(k) <==> k < self.current().spec_id()
        &&& forall|k: u64| #[trigger]
            self.history().contains_key(k) ==> self.history()[k].spec_id() == k && dominates(
                self.current().packages(),
                self.history()[k].packages(),
            )
    }

    #[verifier::type_invariant]
    closed spec fn inv(&self) -> bool {
        self.wf()
    }

    fn total_size(&self) -> (r: Information)
        requires
            self.spec_size() <= u64::MAX,
        ensures
            r@ == self.spec_size(),
    {
        proof {
            use_type_invariant(self);
        }
        let mut size = self.snapshot.size();
        let mut k: u64 = 0;
        while k < self.snapshot.id
            invariant
                self.wf(),
                k <= self.current().spec_id(),
                size@ == self.current().spec_size() + history_size(self.history(), k as nat),
                self.spec_size() <= u64::MAX,
            decreases self.current().spec_id() - k,
        {
            proof {
                lemma_history_size_monotone(
                    self.history(),
                    (k + 1) as nat,
                    self.current().spec_id() as nat,
                );
                assert(self.history().contains_key(k));
            }
            let s = self.snapshots.get(&k).unwrap();
            size = size.plus(Information::new_bytes(8)).plus(s.size());
            k += 1;
        }
        size
    }
}

impl Default for Authenticator {
    fn default() -> (r: Self)
        ensures
            r.current().packages() == Map::<Seq<char>, Metadata>::empty(),
            r.current().spec_id() == 0,
            r.history() == Map::<u64, Snapshot>::empty(),
    {
        Authenticator { snapshots: HashMap::new(), snapshot: Snapshot::default() }
    }
}

impl DataSized for Authenticator {
    open spec fn spec_size(&self) -> nat {
        self.current().spec_size() + history_size(self.history(), self.current().spec_id() as nat)
    }

    fn size(&self) -> (r: Information) {
        self.total_size()
    }
}

impl super::Authenticator for Authenticator {
    type ClientSnapshot = Snapshot;
    type Id = u64;
    type Diff = Snapshot;
    type Proof = ();

    open spec fn can_refresh(&self, snapshot_id: u64) -> bool {
        snapshot_id <= self.current().spec_id()
    }

    open spec fn can_publish(&self, package: Seq<char>) -> bool {
        &&& self.current().spec_id() < u64::MAX
        &&& self.current().packages().contains_key(package) ==> self.current().packages()[package].revision.value()
            < u64::MAX
    }

    open spec fn can_request(&self, snapshot_id: Self::Id, package: Seq<char>) -> bool {
        self.current().packages().contains_key(package)
    }

    open spec fn can_import(packages: Seq<PackageId>) -> bool {
        true
    }

    open spec fn can_apply(snapshot: Snapshot, diff: Snapshot) -> bool {
        true
    }

    open spec fn can_check(snapshot: Snapshot, diff: Snapshot) -> bool {
        true
    }

    open spec fn can_verify(snapshot: Snapshot, package: Seq<char>) -> bool {
        true
    }

    open spec fn spec_cdn_size(&self) -> nat {
        self.spec_size()
    }

    fn name() -> (r: &'static str)
        ensures
            r@ == "mercury_diff"@,
    {
        "mercury_diff"
    }

    fn batch_import(packages: Vec<PackageId>) -> (r: Self)
        ensures
            forall|k: Seq<char>|
                #[trigger] r.current().packages().contains_key(k) <==> exists|i: int|
                    0 <= i < packages@.len() && #[trigger] packages@[i]@ == k,
            forall|k: Seq<char>|
                #[trigger] r.current().packages().contains_key(k)
                    ==> r.current().packages()[k].revision.value() == 1,
            r.current().spec_id() == 1,
            r.history().dom() == set![0u64],
            r.history()[0].packages() == Map::<Seq<char>, Metadata>::empty(),
    {
        let mut map: PackageMap<Metadata> = PackageMap::new();
        let mut i: usize = 0;
        while i < packages.len()
            invariant
                i <= packages@.len(),
                forall|k: Seq<char>|
                    #[trigger] map@.contains_key(k) <==> exists|j: int|
                        0 <= j < i && #[trigger] packages@[j]@ == k,
                forall|k: Seq<char>| #[trigger] map@.contains_key(k) ==> map@[k].revision.value() == 1,
            decreases packages@.len() - i,
        {
            let p = packages[i].duplicate();
            let ghost before = map@;
            map.insert(p, Metadata::default());
            proof {
                assert forall|k: Seq<char>| #[trigger] map@.contains_key(k) <==> exists|j: int|
                    0 <= j < i + 1 && #[trigger] packages@[j]@ == k by {
                    if map@.contains_key(k) && k != packages@[i as int]@ {
                        assert(before.contains_key(k));
                    }
                    if exists|j: int| 0 <= j < i + 1 && #[trigger] packages@[j]@ == k {
                        let j = choose|j: int| 0 <= j < i + 1 && #[trigger] packages@[j]@ == k;
                        if j < i {
                            assert(before.contains_key(k));
                        }
                    }
                }
            }
            i += 1;
        }
        let mut snapshots: HashMap<u64, Snapshot> = HashMap::new();
        snapshots.insert(0, Snapshot::default());
        assert(snapshots@.dom() =~= set![0u64]);
        Authenticator { snapshots, snapshot: Snapshot { packages: map, id: 1 } }
    }

    fn refresh_metadata(&self, snapshot_id: u64) -> (r: Option<Snapshot>)
        ensures
            snapshot_id == self.current().spec_id() ==> r is None,
            snapshot_id != self.current().spec_id() ==> (r matches Some(d) && d.packages()
                == changed(self.current().packages(), self.history()[snapshot_id].packages())
                && d.spec_id() == self.current().spec_id()),
    {
        proof {
            use_type_invariant(self);
        }
        if snapshot_id == self.snapshot.id {
            // already up to date
            return None;
        }
        assert(self.history().contains_key(snapshot_id));
        let prev = self.snapshots.get(&snapshot_id).unwrap();
        let cur = &self.snapshot.packages;
        let n = cur.len();
        let mut diff: PackageMap<Metadata> = PackageMap::new();
        let mut i: usize = 0;
        while i < n
            invariant
                n == cur.entries().len(),
                i <= n,
                diff@ == changed(entries_map(cur.entries().subrange(0, i as int)), prev.packages()),
            decreases n - i,
        {
            let package_id = cur.key_at(i);
            let metadata = cur.value_at(i);
            let ghost part = entries_map(cur.entries().subrange(0, i as int));
            proof {
                lemma_entries_map_prefix(cur.entries(), i as int);
            }
            match prev.packages.get(package_id) {
                Some(m) if m.revision.same(&metadata.revision) => {
                    // the package was up to date in the previous version
                },
                _ => {
                    diff.insert(package_id.duplicate(), metadata);
                },
            }
            proof {
                assert(diff@ =~= changed(part.insert(package_id@, metadata), prev.packages()));
            }
            i += 1;
        }
        assert(cur.entries().subrange(0, n as int) =~= cur.entries());
        Some(Snapshot { packages: diff, id: self.snapshot.id })
    }

    fn publish(&mut self, package: PackageId)
        ensures
            final(self).current().spec_id() == old(self).current().spec_id() + 1,
            final(self).current().packages().dom() == old(self).current().packages().dom().insert(
                package@,
            ),
            final(self).current().packages()[package@].revision.value() == (
                if old(self).current().packages().contains_key(package@) {
                    old(self).current().packages()[package@].revision.value() + 1
                } else {
                    1
                }),
            forall|k: Seq<char>|
                k != package@ && #[trigger] old(self).current().packages().contains_key(k)
                    ==> final(self).current().packages()[k] == old(self).current().packages()[k],
            dominates(final(self).current().packages(), old(self).current().packages()),
            final(self).history().dom() == old(self).history().dom().insert(
                old(self).current().spec_id(),
            ),
            final(self).history()[old(self).current().spec_id()].packages() == old(
                self,
            ).current().packages(),
            forall|k: u64|
                k != old(self).current().spec_id() && #[trigger] old(self).history().contains_key(k)
                    ==> final(self).history()[k] == old(self).history()[k],
    {
        proof {
            use_type_invariant(&*self);
        }
        let mut this = Authenticator { snapshots: HashMap::new(), snapshot: Snapshot::default() };
        std::mem::swap(&mut this, self);
        proof {
            use_type_invariant(&this);
        }
        let ghost old_this = this;
        let Authenticator { mut snapshots, mut snapshot } = this;
        let id = snapshot.id;
        snapshots.insert(id, snapshot.clone());
        let ghost before = snapshot.packages@;
        snapshot.id = id + 1;
        let metadata = match snapshot.packages.get(&package) {
            Some(m) => {
                let mut revision = m.revision;
                revision.increment();
                Metadata { revision }
            },
            None => Metadata::default(),
        };
        snapshot.packages.insert(package, metadata);
        proof {
            assert(dominates(snapshot.packages@, before));
            assert forall|k: u64| #[trigger] snapshots@.contains_key(k) <==> k < snapshot.id by {
                assert(old_this.history().contains_key(k) <==> k < id);
            }
            assert forall|k: u64| #[trigger] snapshots@.contains_key(k) implies snapshots@[k].spec_id()
                == k && dominates(snapshot.packages@, snapshots@[k].packages()) by {
                if k != id {
                    assert(old_this.history().contains_key(k));
                    lemma_dominates_transitive(snapshot.packages@, before, snapshots@[k].packages());
                }
            }
        }
        *self = Authenticator { snapshots, snapshot };
    }

    fn request_file(&mut self, snapshot_id: u64, package: &PackageId) -> (r: (Revision, ()))
        ensures
            r.0 == old(self).current().packages()[package@].revision,
            *final(self) == *old(self),
    {
        let metadata = self.snapshot.packages.get(package);
        (metadata.unwrap().revision, ())
    }

    fn get_metadata(&self) -> (r: Snapshot)
        ensures
            r.packages() == self.current().packages(),
            r.spec_id() == self.current().spec_id(),
            r.num_packages() == self.current().num_packages(),
    {
        self.snapshot.clone()
    }

    fn id(snapshot: &Snapshot) -> (r: u64)
        ensures
            r == snapshot.spec_id(),
    {
        snapshot.id
    }

    fn update(snapshot: &mut Snapshot, diff: Snapshot)
        ensures
            final(snapshot).packages() == old(snapshot).packages().union_prefer_right(
                diff.packages(),
            ),
            final(snapshot).spec_id() == diff.spec_id(),
    {
        let n = diff.packages.len();
        let mut i: usize = 0;
        while i < n
            invariant
                n == diff.packages.entries().len(),
                i <= n,
                snapshot.packages() == old(snapshot).packages().union_prefer_right(
                    entries_map(diff.packages.entries().subrange(0, i as int)),
                ),
            decreases n - i,
        {
            let package_id = diff.packages.key_at(i);
            let metadata = diff.packages.value_at(i);
            let ghost part = entries_map(diff.packages.entries().subrange(0, i as int));
            proof {
                lemma_entries_map_prefix(diff.packages.entries(), i as int);
            }
            snapshot.packages.insert(package_id.duplicate(), metadata);
            proof {
                assert(snapshot.packages() =~= old(snapshot).packages().union_prefer_right(
                    part.insert(package_id@, metadata),
                ));
            }
            i += 1;
        }
        assert(diff.packages.entries().subrange(0, n as int) =~= diff.packages.entries());
        snapshot.id = diff.id;
    }

    fn check_no_rollback(snapshot: &Snapshot, diff: &Snapshot) -> (r: bool)
        ensures
            r == no_rollback(snapshot.packages(), diff.packages()),
            r <==> forall|k: Seq<char>| #[trigger]
                diff.packages().contains_key(k) && snapshot.packages().contains_key(k)
                    ==> diff.packages()[k].revision.value() >= snapshot.packages()[k].revision.value(),
    {
        let n = diff.packages.len();
        let mut i: usize = 0;
        while i < n
            invariant
                n == diff.packages.entries().len(),
                i <= n,
                forall|j: int|
                    0 <= j < i ==> {
                        let k = #[trigger] diff.packages.entries()[j].0@;
                        snapshot.packages().contains_key(k) ==> diff.packages()[k].revision.value()
                            >= snapshot.packages()[k].revision.value()
                    },
            decreases n - i,
        {
            let package_id = diff.packages.key_at(i);
            let metadata = diff.packages.value_at(i);
            if let Some(old_metadata) = snapshot.packages.get(package_id) {
                if metadata.revision.is_before(&old_metadata.revision) {
                    return false;
                }
            }
            i += 1;
        }
        proof {
            assert forall|k: Seq<char>| #[trigger]
                diff.packages().contains_key(k) && snapshot.packages().contains_key(k) implies diff.packages()[k].revision.value()
                >= snapshot.packages()[k].revision.value() by {
                lemma_entries_map_dom(diff.packages.entries(), k);
                let j = choose|j: int|
                    0 <= j < diff.packages.entries().len()
                        && #[trigger] diff.packages.entries()[j].0@ == k;
                assert(diff.packages.entries()[j].0@ == k);
            }
        }
        true
    }

    fn verify_membership(
        snapshot: &Snapshot,
        package_id: &PackageId,
        revision: Revision,
        _proof: (),
    ) -> (r: bool)
        ensures
            r == membership_verdict(snapshot.packages(), package_id@, revision.value()),
    {
        match snapshot.packages.get(package_id) {
            Some(metadata) => metadata.revision.same(&revision),
            None => false,
        }
    }

    fn cdn_size(&self) -> (r: Information) {
        self.total_size()
    }
}


/// Whether a client whose snapshot holds `packages` accepts `package` at
/// `revision`: the snapshot has it at that revision.
pub open spec fn membership_verdict(packages: Map<Seq<char>, Metadata>, package: Seq<char>, revision: nat) -> bool {
    packages.contains_key(package) && packages[package].revision.value() == revision
}

/// What the server serves checks out against the metadata it hands out: the
/// revision that `request_file` returns for a known package is accepted by
/// `verify_membership` on the snapshot from `get_metadata`.
pub proof fn lemma_served_revision_verifies(server: Authenticator, package: Seq<char>)
    requires
        server.current().packages().contains_key(package),
    ensures
        membership_verdict(
            server.current().packages(),
            package,
            server.current().packages()[package].revision.value(),
        ),
{
}

} // verus!
