//! A Hackage-style authenticator: the server keeps a log of every
//! publication, and a client catches up by reading the log past the point it
//! has already read.
use crate::authenticator::package_map::{entries_map, lemma_entries_map_dom, PackageMap};
use crate::authenticator::Revision;
use crate::log::PackageId;
use crate::util::{DataSized, Information, STRING_BYTES};
use vstd::prelude::*;

verus! {

/// The map `m` after inserting the entries of `s` in order.
pub open spec fn apply_log(m: Map<Seq<char>, Revision>, s: Seq<(PackageId, Revision)>) -> Map<
    Seq<char>,
    Revision,
>
    decreases s.len(),
{
    if s.len() == 0 {
        m
    } else {
        apply_log(m, s.drop_last()).insert(s.last().0@, s.last().1)
    }
}

/// Every later publication of a package has a later revision.
pub open spec fn log_monotone(s: Seq<(PackageId, Revision)>) -> bool {
    forall|i: int, j: int|
        0 <= i < j < s.len() && #[trigger] s[i].0@ == #[trigger] s[j].0@ ==> s[i].1.value()
            < s[j].1.value()
}

/// The diff for a client that has read the first `h` entries of `log` is
/// accepted without a rollback.
pub open spec fn no_rollback(m: Map<Seq<char>, Revision>, diff: Seq<(PackageId, Revision)>) -> bool {
    forall|i: int|
        0 <= i < diff.len() && #[trigger] m.contains_key(diff[i].0@) ==> m[diff[i].0@].value()
            <= diff[i].1.value()
}

/// Replaying a log from any point onto the map of its prefix gives the map of
/// the whole log.
pub proof fn lemma_catch_up(log: Seq<(PackageId, Revision)>, h: int)
    requires
        0 <= h <= log.len(),
    ensures
        apply_log(entries_map(log.subrange(0, h)), log.subrange(h, log.len() as int))
            == entries_map(log),
    decreases log.len() - h,
{
    if h == log.len() {
        assert(log.subrange(0, h) =~= log);
        assert(log.subrange(h, log.len() as int) =~= Seq::<(PackageId, Revision)>::empty());
    } else {
        lemma_apply_log_prefix(log, h, log.len() as int);
        assert(log.subrange(0, log.len() as int) =~= log);
    }
}

proof fn lemma_apply_log_prefix(log: Seq<(PackageId, Revision)>, h: int, e: int)
    requires
        0 <= h <= e <= log.len(),
    ensures
        apply_log(entries_map(log.subrange(0, h)), log.subrange(h, e)) == entries_map(
            log.subrange(0, e),
        ),
    decreases e - h,
{
    if e == h {
        assert(log.subrange(h, e) =~= Seq::<(PackageId, Revision)>::empty());
    } else {
        lemma_apply_log_prefix(log, h, e - 1);
        assert(log.subrange(h, e).drop_last() =~= log.subrange(h, e - 1));
        assert(log.subrange(0, e).drop_last() =~= log.subrange(0, e - 1));
    }
}

/// In a monotone log, the map of the whole log holds, for each package, a
/// revision no earlier than any of its publications.
proof fn lemma_map_holds_latest(s: Seq<(PackageId, Revision)>, i: int)
    requires
        log_monotone(s),
        0 <= i < s.len(),
    ensures
        entries_map(s).contains_key(s[i].0@),
        entries_map(s)[s[i].0@].value() >= s[i].1.value(),
    decreases s.len(),
{
    if i < s.len() - 1 {
        let t = s.drop_last();
        assert(log_monotone(t)) by {
            assert forall|a: int, b: int|
                0 <= a < b < t.len() && #[trigger] t[a].0@ == #[trigger] t[b].0@ implies t[a].1.value()
                < t[b].1.value() by {
                assert(s[a].0@ == s[b].0@);
            }
        }
        lemma_map_holds_latest(t, i);
        if s.last().0@ == s[i].0@ {
            assert(s[i].0@ == s[s.len() - 1].0@);
        }
    }
}

/// A client that has read the first `h` entries of a monotone log sees no
/// rollback in the rest of the log.
pub proof fn lemma_log_never_rolls_back(log: Seq<(PackageId, Revision)>, h: int)
    requires
        log_monotone(log),
        0 <= h <= log.len(),
    ensures
        no_rollback(entries_map(log.subrange(0, h)), log.subrange(h, log.len() as int)),
{
    let pre = log.subrange(0, h);
    let diff = log.subrange(h, log.len() as int);
    assert forall|i: int|
        0 <= i < diff.len() && #[trigger] entries_map(pre).contains_key(diff[i].0@) implies entries_map(
        pre,
    )[diff[i].0@].value() <= diff[i].1.value() by {
        lemma_entries_map_dom(pre, diff[i].0@);
        let j = choose|j: int| 0 <= j < pre.len() && #[trigger] pre[j].0@ == diff[i].0@;
        assert(log_monotone(pre)) by {
            assert forall|a: int, b: int|
                0 <= a < b < pre.len() && #[trigger] pre[a].0@ == #[trigger] pre[b].0@ implies pre[a].1.value()
                < pre[b].1.value() by {
                assert(log[a].0@ == log[b].0@);
            }
        }
        lemma_map_holds_latest_index(pre, diff[i].0@);
        let l = choose|l: int|
            0 <= l < pre.len() && #[trigger] pre[l].0@ == diff[i].0@ && entries_map(pre)[diff[i].0@]
                == pre[l].1;
        assert(log[l].0@ == log[h + i].0@);
    }
}

/// The map of a log holds, for each package in it, the revision of one of its
/// publications.
proof fn lemma_map_holds_latest_index(s: Seq<(PackageId, Revision)>, k: Seq<char>)
    requires
        entries_map(s).contains_key(k),
    ensures
        exists|l: int| 0 <= l < s.len() && #[trigger] s[l].0@ == k && entries_map(s)[k] == s[l].1,
    decreases s.len(),
{
    if s.last().0@ == k {
        assert(s[s.len() - 1].0@ == k);
    } else {
        lemma_map_holds_latest_index(s.drop_last(), k);
        let l = choose|l: int|
            0 <= l < s.drop_last().len() && #[trigger] s.drop_last()[l].0@ == k && entries_map(
                s.drop_last(),
            )[k] == s.drop_last()[l].1;
        assert(s[l].0@ == k);
    }
}

/// The client snapshot: the revision of every package, and how far into the
/// log the client has read.
#[derive(Debug, Default)]
pub struct Snapshot {
    package_revisions: PackageMap<Revision>,
    /// How far into the log has this client read?
    high_water_mark: usize,
}

impl Snapshot {
    pub closed spec fn packages(&self) -> Map<Seq<char>, Revision> {
        self.package_revisions@
    }

    pub closed spec fn num_packages(&self) -> nat {
        self.package_revisions.entries().len()
    }

    pub closed spec fn spec_high_water_mark(&self) -> nat {
        self.high_water_mark as nat
    }
}

impl Clone for Snapshot {
    fn clone(&self) -> (r: Self)
        ensures
            r.packages() == self.packages(),
            r.num_packages() == self.num_packages(),
            r.spec_high_water_mark() == self.spec_high_water_mark(),
    {
        Snapshot {
            package_revisions: self.package_revisions.duplicate(),
            high_water_mark: self.high_water_mark,
        }
    }
}

impl DataSized for Snapshot {
    open spec fn spec_size(&self) -> nat {
        8 + self.num_packages() * (STRING_BYTES as nat + 8)
    }

    fn size(&self) -> (r: Information) {
        let size = self.high_water_mark.size();
        let len = self.package_revisions.len() as u64;
        let kv = Information::new_bytes(STRING_BYTES).plus(Information::new_bytes(8));
        assert(kv@ * len == len * (STRING_BYTES as nat + 8)) by (nonlinear_arith)
            requires
                kv@ == STRING_BYTES + 8,
        ;
        assert(self.spec_size() == 8 + len * (STRING_BYTES as nat + 8));
        size.plus(kv.times(len))
    }
}

/// The publications in order: each package with its new revision.
#[derive(Debug, Default)]
pub struct Log(Vec<(PackageId, Revision)>);

impl Log {
    pub closed spec fn entries(&self) -> Seq<(PackageId, Revision)> {
        self.0@
    }
}

impl DataSized for Log {
    open spec fn spec_size(&self) -> nat {
        self.entries().len() * (STRING_BYTES as nat + 8)
    }

    fn size(&self) -> (r: Information) {
        let len = self.0.len() as u64;
        let kv = Information::new_bytes(STRING_BYTES).plus(Information::new_bytes(8));
        assert(kv@ * len == len * (STRING_BYTES as nat + 8)) by (nonlinear_arith)
            requires
                kv@ == STRING_BYTES + 8,
        ;
        assert(self.spec_size() == len * (STRING_BYTES as nat + 8));
        kv.times(len)
    }
}

/// Copies `s[from..]`.
fn copy_from(s: &Vec<(PackageId, Revision)>, from: usize) -> (r: Vec<(PackageId, Revision)>)
    requires
        from <= s@.len(),
    ensures
        r@ == s@.subrange(from as int, s@.len() as int),
{
    let mut r: Vec<(PackageId, Revision)> = Vec::new();
    let mut i = from;
    while i < s.len()
        invariant
            from <= i <= s@.len(),
            r@ == s@.subrange(from as int, i as int),
        decreases s@.len() - i,
    {
        r.push((s[i].0.duplicate(), s[i].1));
        i += 1;
        assert(r@ =~= s@.subrange(from as int, i as int));
    }
    r
}

/// A Hackage-style authenticator.
#[derive(Debug, Default)]
pub struct Authenticator {
    log: Log,
    package_revisions: PackageMap<Revision>,
}

impl Authenticator {
    /// The publications so far.
    pub closed spec fn log(&self) -> Seq<(PackageId, Revision)> {
        self.log.0@
    }

    /// The latest revision of every package.
    pub closed spec fn packages(&self) -> Map<Seq<char>, Revision> {
        self.package_revisions@
    }

    pub closed spec fn num_packages(&self) -> nat {
        self.package_revisions.entries().len()
    }

    /// The map is the replay of the log, and every later publication of a
    /// package has a later revision.
    pub open spec fn wf(&self) -> bool {
        &&& self.packages() == entries_map(self.log())
        &&& log_monotone(self.log())
    }
}

impl DataSized for Authenticator {
    open spec fn spec_size(&self) -> nat {
        self.log().len() * (STRING_BYTES as nat + 8) + self.num_packages() * (STRING_BYTES as nat
            + 8)
    }

    fn size(&self) -> (r: Information) {
        let a = self.log.size();
        let len = self.package_revisions.len() as u64;
        let kv = Information::new_bytes(STRING_BYTES).plus(Information::new_bytes(8));
        assert(kv@ * len == len * (STRING_BYTES as nat + 8)) by (nonlinear_arith)
            requires
                kv@ == STRING_BYTES + 8,
        ;
        a.plus(kv.times(len))
    }
}

impl super::Authenticator for Authenticator {
    type ClientSnapshot = Snapshot;
    type Id = usize;
    type Diff = Log;
    type Proof = ();

    open spec fn can_refresh(&self, snapshot_id: usize) -> bool {
        true
    }

    open spec fn can_publish(&self, package: Seq<char>) -> bool {
        &&& self.log().len() < usize::MAX
        &&& self.packages().contains_key(package) ==> self.packages()[package].value() < u64::MAX
    }

    open spec fn can_request(&self, snapshot_id: Self::Id, package: Seq<char>) -> bool {
        self.packages().contains_key(package)
    }

    open spec fn can_import(packages: Seq<PackageId>) -> bool {
        packages.len() < usize::MAX
    }

    open spec fn can_apply(snapshot: Snapshot, diff: Log) -> bool {
        snapshot.spec_high_water_mark() + diff.entries().len() <= usize::MAX
    }

    open spec fn can_check(snapshot: Snapshot, diff: Log) -> bool {
        true
    }

    open spec fn can_verify(snapshot: Snapshot, package: Seq<char>) -> bool {
        true
    }

    open spec fn spec_cdn_size(&self) -> nat {
        self.log().len() * (STRING_BYTES as nat + 8)
    }

    fn name() -> (r: &'static str)
        ensures
            r@ == "hackage"@,
    {
        "hackage"
    }

    fn batch_import(packages: Vec<PackageId>) -> (r: Self)
        ensures
            r.wf(),
            r.log().len() == packages@.len(),
            forall|i: int| 0 <= i < packages@.len() ==> #[trigger] r.log()[i].0 == packages@[i],
    {
        let mut auth = Self { log: Log(Vec::new()), package_revisions: PackageMap::new() };
        let mut i: usize = 0;
        assert(auth.packages() =~= entries_map(auth.log()));
        while i < packages.len()
            invariant
                i <= packages@.len() < usize::MAX,
                auth.wf(),
                auth.log().len() == i,
                forall|j: int| 0 <= j < i ==> #[trigger] auth.log()[j].0 == packages@[j],
                forall|k: Seq<char>|
                    #[trigger] auth.packages().contains_key(k) ==> auth.packages()[k].value() <= i,
            decreases packages@.len() - i,
        {
            let ghost before = auth.packages();
            auth.publish_package(packages[i].duplicate());
            i += 1;
            proof {
                assert forall|k: Seq<char>| #[trigger]
                    auth.packages().contains_key(k) implies auth.packages()[k].value() <= i by {
                    if k != packages@[i - 1]@ {
                        assert(before.contains_key(k));
                    }
                }
            }
        }
        auth
    }

    fn refresh_metadata(&self, snapshot_id: usize) -> (r: Option<Log>)
        ensures
            snapshot_id > self.log().len() ==> r is None,
            snapshot_id <= self.log().len() ==> (r matches Some(d) && d.entries()
                == self.log().subrange(snapshot_id as int, self.log().len() as int)),
    {
        if self.log.0.len() < snapshot_id {
            return None;  // snapshot_id is in the future!
        }
        Some(Log(copy_from(&self.log.0, snapshot_id)))
    }

    fn publish(&mut self, package: PackageId)
        ensures
            old(self).wf() ==> final(self).wf(),
            final(self).log() == old(self).log().push(
                (package, final(self).packages()[package@]),
            ),
            final(self).packages()[package@].value() == (if old(self).packages().contains_key(
                package@,
            ) {
                old(self).packages()[package@].value() + 1
            } else {
                1
            }),
    {
        self.publish_package(package)
    }

    fn request_file(&mut self, _snapshot_id: usize, package: &PackageId) -> (r: (Revision, ()))
        ensures
            r.0 == old(self).packages()[package@],
            *final(self) == *old(self),
    {
        let revision = self.package_revisions.get(package);
        (revision.unwrap(), ())
    }

    fn get_metadata(&self) -> (r: Snapshot)
        ensures
            r.packages() == self.packages(),
            r.spec_high_water_mark() == self.log().len(),
    {
        Snapshot {
            package_revisions: self.package_revisions.duplicate(),
            high_water_mark: self.log.0.len(),
        }
    }

    fn id(snapshot: &Snapshot) -> (r: usize)
        ensures
            r == snapshot.spec_high_water_mark(),
    {
        snapshot.high_water_mark
    }

    fn update(snapshot: &mut Snapshot, diff: Log)
        ensures
            final(snapshot).spec_high_water_mark() == old(snapshot).spec_high_water_mark()
                + diff.entries().len(),
            final(snapshot).packages() == apply_log(old(snapshot).packages(), diff.entries()),
    {
        snapshot.high_water_mark = snapshot.high_water_mark + diff.0.len();
        let ghost start = snapshot.packages();
        let ghost hwm = snapshot.spec_high_water_mark();
        let mut i: usize = 0;
        while i < diff.0.len()
            invariant
                i <= diff.entries().len(),
                snapshot.spec_high_water_mark() == hwm,
                snapshot.packages() == apply_log(start, diff.entries().subrange(0, i as int)),
            decreases diff.entries().len() - i,
        {
            snapshot.package_revisions.insert(diff.0[i].0.duplicate(), diff.0[i].1);
            i += 1;
            assert(diff.entries().subrange(0, i as int).drop_last() =~= diff.entries().subrange(
                0,
                i - 1,
            ));
        }
        assert(diff.entries().subrange(0, i as int) =~= diff.entries());
    }

    fn check_no_rollback(snapshot: &Snapshot, diff: &Log) -> (r: bool)
        ensures
            r == no_rollback(snapshot.packages(), diff.entries()),
    {
        let mut i: usize = 0;
        while i < diff.0.len()
            invariant
                i <= diff.entries().len(),
                forall|j: int|
                    0 <= j < i && #[trigger] snapshot.packages().contains_key(diff.entries()[j].0@)
                        ==> snapshot.packages()[diff.entries()[j].0@].value()
                        <= diff.entries()[j].1.value(),
            decreases diff.entries().len() - i,
        {
            let (package_id, new_revision) = (&diff.0[i].0, diff.0[i].1);
            match snapshot.package_revisions.get(package_id) {
                Some(old_revision) => {
                    if new_revision.is_before(&old_revision) {
                        return false;
                    }
                },
                None => {},
            }
            i += 1;
        }
        true
    }

    fn verify_membership(
        snapshot: &Snapshot,
        package_id: &PackageId,
        revision: Revision,
        _proof: (),
    ) -> (r: bool)
        ensures
            r == membership_verdict(snapshot.packages(), package_id@, revision.value()),
            r <==> snapshot.packages().contains_key(package_id@) && snapshot.packages()[package_id@].value()
                == revision.value(),
    {
        match snapshot.package_revisions.get(package_id) {
            Some(r) => r.same(&revision),
            None => false,
        }
    }

    fn cdn_size(&self) -> (r: Information) {
        self.log.size()
    }
}

impl Authenticator {
    fn publish_package(&mut self, package: PackageId)
        requires
            old(self).log().len() < usize::MAX,
            old(self).packages().contains_key(package@) ==> old(self).packages()[package@].value()
                < u64::MAX,
        ensures
            old(self).wf() ==> final(self).wf(),
            final(self).log() == old(self).log().push((package, final(self).packages()[package@])),
            final(self).packages() == old(self).packages().insert(
                package@,
                final(self).packages()[package@],
            ),
            final(self).packages()[package@].value() == (if old(self).packages().contains_key(
                package@,
            ) {
                old(self).packages()[package@].value() + 1
            } else {
                1
            }),
    {
        let revision = match self.package_revisions.get(&package) {
            Some(r) => {
                let mut r = r;
                r.increment();
                r
            },
            None => Revision::default(),
        };
        let ghost old_log = self.log();
        let ghost was_wf = self.wf();
        self.package_revisions.insert(package.duplicate(), revision);
        self.log.0.push((package, revision));
        proof {
            if was_wf {
                let s = self.log();
                assert(s.drop_last() =~= old_log);
                assert forall|i: int, j: int|
                    0 <= i < j < s.len() && #[trigger] s[i].0@ == #[trigger] s[j].0@ implies s[i].1.value()
                    < s[j].1.value() by {
                    if j == s.len() - 1 {
                        lemma_map_holds_latest(old_log, i);
                    } else {
                        assert(old_log[i].0@ == old_log[j].0@);
                    }
                }
            }
        }
    }
}


/// Whether a client whose snapshot holds `packages` accepts `package` at
/// `revision`: the snapshot has it at that revision.
pub open spec fn membership_verdict(packages: Map<Seq<char>, Revision>, package: Seq<char>, revision: nat) -> bool {
    packages.contains_key(package) && packages[package].value() == revision
}

/// A snapshot accepts a package at one revision only: the one it holds.
pub proof fn lemma_one_revision_verifies(packages: Map<Seq<char>, Revision>, package: Seq<char>, r1: nat, r2: nat)
    requires
        membership_verdict(packages, package, r1),
        membership_verdict(packages, package, r2),
    ensures
        r1 == r2,
        packages.contains_key(package),
        packages[package].value() == r1,
{
}

/// A snapshot accepts each package it holds at the revision it holds, and
/// no package it does not hold.
pub proof fn lemma_held_revision_verifies(packages: Map<Seq<char>, Revision>, package: Seq<char>, revision: nat)
    ensures
        packages.contains_key(package) ==> membership_verdict(packages, package, packages[package].value()),
        !packages.contains_key(package) ==> !membership_verdict(packages, package, revision),
{
}

/// What the server serves checks out against the metadata it hands out: the
/// revision that `request_file` returns for a known package is accepted by
/// `verify_membership` on the snapshot from `get_metadata`.
pub proof fn lemma_served_revision_verifies(server: Authenticator, package: Seq<char>)
    requires
        server.packages().contains_key(package),
    ensures
        membership_verdict(server.packages(), package, server.packages()[package].value()),
{
}

} // verus!
