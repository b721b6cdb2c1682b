//! An authenticator over an RSA accumulator: the client holds only the
//! digest of the multiset of published packages, and the server proves each
//! package's revision against it.
use crate::accumulator::rsa::{
    chain_ok, chained, lemma_cached_witnesses_verify, lemma_chained_push, lemma_coprime_keys_add, lemma_read_chain, lemma_wf_history, read_steps, witness_verdict,
    Accumulator as RsaAccumulator, AppendOnlyWitness, BatchWitness, Digest, HistoryEntry,
    NonMembershipWitness, Witness,
};
use crate::accumulator::{Accumulator as AccumulatorTrait, BatchAccumulator};
use crate::authenticator::Authenticator as AuthenticatorTrait;
use crate::authenticator::BatchAuthenticator as BatchAuthenticatorTrait;
use crate::authenticator::Revision;
use crate::bigint::gcd_ext;
use crate::hash_to_prime::{first_accepted, hash_to_prime, HashToPrimeError};
use crate::authenticator::package_map::{entries_map, keys_distinct, PackageMap};
use crate::keyed_map::{assume_data_size_for_map, assumed_map_size, KeyedMap};
use crate::log::PackageId;
use crate::multiset::{count_of, occurrences, MultiSet};
use crate::primitives::skip_list::read_spec;
use crate::primitives::{Group, Prime};
use crate::util::{append_bytes, assume_data_size_for_vec, assumed_vec_size, repeated_size, DataSized, Information, STRING_BYTES};
use vstd::arithmetic::power::pow;
use vstd::prelude::*;
use vstd::utf8::encode_utf8;

verus! {

/// The `count` lowest bytes of `n`, least significant first.
pub open spec fn le_bytes(n: nat, count: nat) -> Seq<u8>
    decreases count,
{
    if count == 0 {
        Seq::empty()
    } else {
        seq![(n % 256) as u8] + le_bytes(n / 256, (count - 1) as nat)
    }
}

/// How a package identifier is framed before it is hashed: the length of its
/// UTF-8 bytes as eight little-endian bytes, then those bytes.
pub open spec fn package_encoding(package: Seq<char>) -> Seq<u8> {
    le_bytes(encode_utf8(package).len(), 8) + encode_utf8(package)
}

/// The prime that stands for a package in the accumulator, if hashing finds
/// one.
pub open spec fn package_prime(package: Seq<char>) -> Option<int> {
    first_accepted(package_encoding(package), 0)
}

/// The framed bytes of `package`.
pub fn encode_package(package: &PackageId) -> (r: Vec<u8>)
    ensures
        r@ == package_encoding(package@),
{
    let bytes = package.0.as_str().as_bytes();
    let ghost total = bytes@.len();
    let mut out: Vec<u8> = Vec::new();
    let mut n: usize = bytes.len();
    let mut i: usize = 0;
    while i < 8
        invariant
            i <= 8,
            out@ + le_bytes(n as nat, (8 - i) as nat) == le_bytes(total, 8),
        decreases 8 - i,
    {
        let ghost before = out@;
        let ghost rest = le_bytes((n / 256) as nat, (8 - i - 1) as nat);
        assert(le_bytes(n as nat, (8 - i) as nat) == seq![(n % 256) as u8] + rest);
        out.push((n % 256) as u8);
        assert(out@ + rest =~= before + (seq![(n % 256) as u8] + rest));
        n = n / 256;
        i += 1;
    }
    assert(le_bytes(n as nat, 0) =~= Seq::<u8>::empty());
    assert(out@ =~= le_bytes(total, 8));
    append_bytes(&mut out, bytes);
    out
}

/// The prime that stands for `package`.
pub fn hash_package(package: &PackageId) -> (r: Result<Prime, HashToPrimeError>)
    ensures
        match package_prime(package@) {
            Some(v) => r matches Ok(p) && p.value() == v,
            None => r is Err,
        },
        r matches Ok(p) ==> p.value() > 0,
{
    let encoded = encode_package(package);
    hash_to_prime(encoded.as_slice())
}

/// The primes of all `packages`, in order; `None` if one of them has none.
pub fn hash_packages(packages: &Vec<PackageId>) -> (r: Option<Vec<Prime>>)
    ensures
        r is Some <==> forall|j: int| 0 <= j < packages@.len() ==> #[trigger] package_prime(packages@[j]@) is Some,
        r matches Some(ps) ==> ps@.len() == packages@.len() && forall|j: int|
            0 <= j < packages@.len() ==> package_prime(packages@[j]@) == Some(#[trigger] ps@[j].value()),
{
    let mut primes: Vec<Prime> = Vec::new();
    let mut j: usize = 0;
    while j < packages.len()
        invariant
            j <= packages@.len(),
            primes@.len() == j,
            forall|k: int| 0 <= k < j ==> package_prime(packages@[k]@) == Some(#[trigger] primes@[k].value()),
        decreases packages@.len() - j,
    {
        match hash_package(&packages[j]) {
            Ok(p) => primes.push(p),
            Err(_) => {
                return None;
            },
        }
        j += 1;
    }
    assert forall|k: int| 0 <= k < packages@.len() implies #[trigger] package_prime(packages@[k]@) is Some by {
        assert(package_prime(packages@[k]@) == Some(primes@[k].value()));
    }
    Some(primes)
}

/// How many of `packages` stand for the prime `p`.
pub open spec fn package_occurrences(packages: Seq<PackageId>, p: int) -> nat
    decreases packages.len(),
{
    if packages.len() == 0 {
        0
    } else {
        package_occurrences(packages.drop_last(), p) + (if package_prime(packages.last()@) == Some(p) {
            1nat
        } else {
            0nat
        })
    }
}

proof fn lemma_package_occurrences(packages: Seq<PackageId>, primes: Seq<Prime>, p: int)
    requires
        primes.len() == packages.len(),
        forall|j: int| 0 <= j < packages.len() ==> package_prime(packages[j]@) == Some(#[trigger] primes[j].value()),
    ensures
        occurrences(primes, p) == package_occurrences(packages, p),
    decreases packages.len(),
{
    if packages.len() > 0 {
        let n = packages.len() - 1;
        assert(package_prime(packages[n]@) == Some(primes[n].value()));
        lemma_package_occurrences(packages.drop_last(), primes.drop_last(), p);
    }
}

/// The counts of `entries` by the primes of their packages, a later entry
/// replacing an earlier one with the same prime; `None` if a package has no
/// prime.
pub open spec fn hashed_counts(entries: Seq<(PackageId, u32)>) -> Option<Map<int, u32>>
    decreases entries.len(),
{
    if entries.len() == 0 {
        Some(Map::empty())
    } else {
        match (hashed_counts(entries.drop_last()), package_prime(entries.last().0@)) {
            (Some(m), Some(p)) => Some(m.insert(p, entries.last().1)),
            _ => None,
        }
    }
}

proof fn lemma_hashed_counts_none(entries: Seq<(PackageId, u32)>, j: int)
    requires
        0 <= j <= entries.len(),
        hashed_counts(entries.subrange(0, j)) is None,
    ensures
        hashed_counts(entries) is None,
    decreases entries.len() - j,
{
    if j < entries.len() {
        assert(entries.subrange(0, j + 1).drop_last() =~= entries.subrange(0, j));
        lemma_hashed_counts_none(entries, j + 1);
    } else {
        assert(entries.subrange(0, j) =~= entries);
    }
}

/// The counts of `package_counts` by the primes of their packages.
pub fn convert_package_counts(package_counts: &PackageMap<u32>) -> (r: Option<KeyedMap<Prime, u32>>)
    ensures
        match hashed_counts(package_counts.entries()) {
            Some(m) => r matches Some(k) && k@ == m,
            None => r is None,
        },
{
    let ghost s = package_counts.entries();
    let mut hashed: KeyedMap<Prime, u32> = KeyedMap::new();
    let mut i: usize = 0;
    let n = package_counts.len();
    while i < n
        invariant
            s == package_counts.entries(),
            n == s.len(),
            i <= n,
            hashed_counts(s.subrange(0, i as int)) == Some(hashed@),
        decreases n - i,
    {
        let key = package_counts.key_at(i);
        let count = package_counts.value_at(i);
        assert(s.subrange(0, i + 1).drop_last() =~= s.subrange(0, i as int));
        assert(s.subrange(0, i + 1).last() == s[i as int]);
        match hash_package(key) {
            Ok(p) => {
                hashed.insert(p, count);
            },
            Err(_) => {
                proof {
                    lemma_hashed_counts_none(s, i + 1);
                }
                return None;
            },
        }
        i += 1;
    }
    assert(s.subrange(0, n as int) =~= s);
    Some(hashed)
}

/// A copy of a list of primes.
fn duplicate_primes(primes: &Vec<Prime>) -> (r: Vec<Prime>)
    ensures
        r@.len() == primes@.len(),
        forall|j: int| 0 <= j < primes@.len() ==> #[trigger] r@[j].value() == primes@[j].value(),
{
    let mut out: Vec<Prime> = Vec::new();
    let mut j: usize = 0;
    while j < primes.len()
        invariant
            j <= primes@.len(),
            out@.len() == j,
            forall|k: int| 0 <= k < j ==> #[trigger] out@[k].value() == primes@[k].value(),
        decreases primes@.len() - j,
    {
        out.push(primes[j].clone());
        j += 1;
    }
    out
}

/// What a client holds: the digest it trusts, if any.
#[derive(Debug)]
pub struct Snapshot<G> {
    digest: Option<Digest<G>>,
}

impl<G: Group> View for Snapshot<G> {
    type V = Option<int>;

    closed spec fn view(&self) -> Option<int> {
        match self.digest {
            Some(d) => Some(d.value()),
            None => None,
        }
    }
}

impl<G: Group> Snapshot<G> {
    fn new(inner: Digest<G>) -> (r: Self)
        ensures
            r@ == Some(inner.value()),
    {
        Snapshot { digest: Some(inner) }
    }

    /// A copy of this snapshot.
    pub fn duplicate(&self) -> (r: Self)
        ensures
            r@ == self@,
    {
        match &self.digest {
            Some(d) => Snapshot { digest: Some(d.duplicate()) },
            None => Snapshot { digest: None },
        }
    }

    /// The digest the client trusts, if any.
    pub fn digest(&self) -> (r: Option<Digest<G>>)
        ensures
            match r {
                Some(d) => self@ == Some(d.value()),
                None => self@ is None,
            },
    {
        match &self.digest {
            Some(d) => Some(d.duplicate()),
            None => None,
        }
    }
}

impl<G: Group> Clone for Snapshot<G> {
    fn clone(&self) -> (r: Self)
        ensures
            r@ == self@,
    {
        self.duplicate()
    }
}

impl<G: Group> Default for Snapshot<G> {
    fn default() -> (r: Self)
        ensures
            r@ is None,
    {
        Snapshot { digest: None }
    }
}

impl<G: Group + DataSized> DataSized for Snapshot<G> {
    closed spec fn spec_size(&self) -> nat {
        self.digest.spec_size()
    }

    fn size(&self) -> (r: Information) {
        self.digest.size()
    }
}

/// What brings a client to the server's digest: the digest, and a proof that
/// it extends the client's, if the client had one.
#[derive(Debug)]
pub struct Diff<G> {
    digest: Digest<G>,
    update: Option<AppendOnlyWitness<G>>,
}

impl<G: Group> View for Diff<G> {
    type V = (int, Option<Seq<(Option<(int, int, int)>, int)>>);

    closed spec fn view(&self) -> (int, Option<Seq<(Option<(int, int, int)>, int)>>) {
        (
            self.digest.value(),
            match self.update {
                Some(w) => Some(w@),
                None => None,
            },
        )
    }
}

impl<G: Group> Diff<G> {
    pub fn new(digest: Digest<G>, update: Option<AppendOnlyWitness<G>>) -> (r: Self)
        ensures
            r@.0 == digest.value(),
            r@.1 == (match update {
                Some(w) => Some(w@),
                None => None::<Seq<(Option<(int, int, int)>, int)>>,
            }),
    {
        Diff { digest, update }
    }

    /// A copy of this diff.
    pub fn duplicate(&self) -> (r: Self)
        ensures
            r@ == self@,
    {
        let update = match &self.update {
            Some(w) => Some(w.duplicate()),
            None => None,
        };
        Diff { digest: self.digest.duplicate(), update }
    }
}

impl<G: Group + DataSized> DataSized for Diff<G> {
    closed spec fn spec_size(&self) -> nat {
        self.digest.spec_size() + self.update.spec_size()
    }

    fn size(&self) -> (r: Information) {
        self.digest.size().plus(self.update.size())
    }
}

/// What the server's answer to a client holding `id` is, given its digest
/// `digest`, its history `history` and where each digest stands in it:
/// nothing for a client that is current, the digest alone for a client
/// without one, and otherwise the digest with the proof read from the
/// history.
pub open spec fn refreshed<G: Group>(
    digest: int,
    history: Seq<(int, int)>,
    indexes: Map<int, usize>,
    id: Option<int>,
) -> Option<(int, Option<Seq<(Option<(int, int, int)>, int)>>)> {
    match id {
        None => Some((digest, None)),
        Some(s) => if s == digest {
            None
        } else {
            Some(
                (
                    digest,
                    Some(
                        read_steps::<G>(
                            read_spec::<HistoryEntry<G>>(history, indexes[s] as nat, (history.len() - 1) as nat),
                        ),
                    ),
                ),
            )
        },
    }
}

/// Whether a client holding `snapshot` may take `diff`: a proof comes only to
/// a client with a digest, checked against it; without a proof the client
/// must have had no digest.
pub open spec fn no_rollback<G: Group>(
    snapshot: Option<int>,
    diff: (int, Option<Seq<(Option<(int, int, int)>, int)>>),
) -> bool {
    match (diff.1, snapshot) {
        (Some(p), Some(s)) => chain_ok::<G>(p, diff.0, s),
        (None, None) => true,
        _ => false,
    }
}

/// Whether `witness` shows that `package` is at `revision` in the multiset
/// whose digest the client holds.
pub open spec fn membership_verdict<G: Group>(
    snapshot: Option<int>,
    package: Seq<char>,
    revision: nat,
    witness: (Option<int>, int, int),
) -> bool {
    match (package_prime(package), snapshot) {
        (Some(p), Some(d)) => revision <= u32::MAX && witness_verdict::<G>(d, p, revision, witness),
        _ => false,
    }
}

/// The server: an accumulator of the packages' primes, the primes in the
/// order they were published, and where each digest stands in that order.
#[derive(Debug)]
pub struct Authenticator<G: Group> {
    acc: RsaAccumulator<G>,
    log: Vec<Prime>,
    old_acc_idxs: KeyedMap<Digest<G>, usize>,
}

impl<G: Group> Authenticator<G> {
    /// The accumulator is consistent, and each digest of its history is the
    /// one before raised to a positive exponent.
    pub closed spec fn wf(&self) -> bool {
        &&& self.acc.wf()
        &&& chained::<G>(self.acc.history())
    }

    /// How often each prime was published.
    pub closed spec fn members(&self) -> Map<int, nat> {
        self.acc.members()
    }

    /// The digest of the accumulator.
    pub closed spec fn digest_value(&self) -> int {
        self.acc.digest_value()
    }

    /// The product of the published primes.
    pub closed spec fn exponent(&self) -> int {
        self.acc.exponent()
    }

    /// The accumulator's history of exponents and digests.
    pub closed spec fn history(&self) -> Seq<(int, int)> {
        self.acc.history()
    }

    /// Where each recorded digest stands in the history.
    pub closed spec fn digest_indexes(&self) -> Map<int, usize> {
        self.acc.digest_indexes()
    }

    /// The values with a cached witness of their absence.
    pub closed spec fn cached_nonmembers(&self) -> Map<int, (int, int)> {
        self.acc.cached_nonmember_witnesses()
    }

    /// The cached witness of each member.
    pub closed spec fn cached_witnesses(&self) -> Map<int, (Option<int>, int, int)> {
        self.acc.cached_witnesses()
    }

    /// The primes in the order they were published.
    pub closed spec fn log(&self) -> Seq<int> {
        self.log@.map_values(|p: Prime| p.value())
    }

    /// Where each digest stood in the log when it was current.
    pub closed spec fn log_indexes(&self) -> Map<int, usize> {
        self.old_acc_idxs@
    }

    /// Whether the accumulator can prove that its digest extends `d`.
    pub closed spec fn can_prove_from(&self, d: int) -> bool {
        self.acc.can_prove_append_only(d)
    }

    /// The published primes are pairwise coprime integers above one, as
    /// distinct primes are.
    pub closed spec fn coprime_members(&self) -> bool {
        self.acc.coprime_members()
    }

    /// If the published primes are pairwise coprime, the non-membership part
    /// of every cached witness checks out.
    pub closed spec fn proofs_sound(&self) -> bool {
        self.acc.coprime_members() ==> self.acc.witnesses_sound()
    }

    /// Whether `publish` adds a prime `p`: its count is not full, and a new
    /// prime is coprime to the product of the members.
    pub open spec fn takes(&self, p: int) -> bool {
        &&& count_of(self.members(), p) < u32::MAX
        &&& (count_of(self.members(), p) > 0 || gcd_ext(self.exponent(), p).0 == 1)
    }

    /// An authenticator over `acc`, whose digest stands at the start of the
    /// log.
    pub fn new(acc: RsaAccumulator<G>) -> (r: Self)
        requires
            acc.wf(),
            chained::<G>(acc.history()),
        ensures
            r.wf(),
            r.members() == acc.members(),
            r.digest_value() == acc.digest_value(),
            r.exponent() == acc.exponent(),
            r.history() == acc.history(),
            r.log() == Seq::<int>::empty(),
            r.log_indexes() == Map::<int, usize>::empty().insert(acc.digest_value(), 0),
            r.proofs_sound() == (acc.coprime_members() ==> acc.witnesses_sound()),
    {
        let mut old_acc_idxs: KeyedMap<Digest<G>, usize> = KeyedMap::new();
        old_acc_idxs.insert(acc.digest().duplicate(), 0);
        let r = Authenticator { acc, log: Vec::new(), old_acc_idxs };
        assert(r.log() =~= Seq::<int>::empty());
        assert(r.log_indexes() =~= Map::<int, usize>::empty().insert(acc.digest_value(), 0));
        r
    }

    /// The accumulator built from `primes`, each counted as often as it
    /// occurs, with every member's witness precomputed.
    pub fn import_primes(primes: Vec<Prime>) -> (r: Self)
        requires
            primes@.len() < u32::MAX,
        ensures
            r.wf(),
            forall|p: int| #[trigger] count_of(r.members(), p) == occurrences(primes@, p),
            r.log() == Seq::<int>::empty(),
            r.history().len() == 1,
            r.proofs_sound(),
    {
        let multiset = MultiSet::from(primes);
        let acc = RsaAccumulator::import(multiset);
        proof {
            lemma_wf_history(&acc);
        }
        Self::new(acc)
    }
}

impl<G: Group> Default for Authenticator<G> {
    fn default() -> (r: Self)
        ensures
            r.wf(),
            r.members() == Map::<int, nat>::empty(),
            r.log() == Seq::<int>::empty(),
            r.proofs_sound(),
    {
        let acc = RsaAccumulator::default();
        proof {
            lemma_wf_history(&acc);
        }
        Self::new(acc)
    }
}

/// The digest that a client identifier names, if any.
pub open spec fn id_view<G: Group>(id: Option<Digest<G>>) -> Option<int> {
    match id {
        Some(d) => Some(d.value()),
        None => None,
    }
}

impl<G: Group + DataSized> Authenticator<G> {
    /// The size of what the accumulator has a content-delivery network serve.
    pub closed spec fn served_size(&self) -> nat {
        self.acc.spec_cdn_size()
    }
}

impl<G: Group + DataSized> DataSized for Authenticator<G> {
    /// The accumulator, the log at one identifier each, and the digest index
    /// counted as its first entry.
    closed spec fn spec_size(&self) -> nat {
        self.acc.spec_size() + self.log@.len() * 32 + assumed_map_size(self.old_acc_idxs.entries())
    }

    fn size(&self) -> (r: Information) {
        let size = self.acc.size();
        let size = size.plus(repeated_size(self.log.len(), Information::new_bytes(32)));
        size.plus(assume_data_size_for_map(&self.old_acc_idxs))
    }
}

impl<G: Group + DataSized> super::Authenticator for Authenticator<G> {
    type ClientSnapshot = Snapshot<G>;
    type Id = Option<Digest<G>>;
    type Diff = Diff<G>;
    type Proof = Witness<G>;

    /// A client that holds an older digest must hold one that the history
    /// recorded, with a path in the skip list to the current digest.
    open spec fn can_refresh(&self, snapshot_id: Option<Digest<G>>) -> bool {
        &&& self.wf()
        &&& match snapshot_id {
            Some(s) => s.value() != self.digest_value() ==> self.can_prove_from(s.value()),
            None => true,
        }
    }

    /// The log and the history have room for one more.
    open spec fn can_publish(&self, package: Seq<char>) -> bool {
        &&& self.wf()
        &&& self.log().len() + 1 < usize::MAX
        &&& self.history().len() + 1 < usize::MAX
    }

    /// The package was published.
    open spec fn can_request(&self, snapshot_id: Self::Id, package: Seq<char>) -> bool {
        &&& self.wf()
        &&& match package_prime(package) {
            Some(p) => count_of(self.members(), p) > 0,
            None => false,
        }
    }

    /// Every package hashes to a prime, and no count can overflow.
    open spec fn can_import(packages: Seq<PackageId>) -> bool {
        &&& packages.len() < u32::MAX
        &&& forall|j: int| 0 <= j < packages.len() ==> #[trigger] package_prime(packages[j]@) is Some
    }

    /// A proof comes only to a client that holds a digest.
    open spec fn can_apply(snapshot: Snapshot<G>, diff: Diff<G>) -> bool {
        !(diff@.1 is Some && snapshot@ is None)
    }

    open spec fn can_check(snapshot: Snapshot<G>, diff: Diff<G>) -> bool {
        !(diff@.1 is Some && snapshot@ is None)
    }

    open spec fn can_verify(snapshot: Snapshot<G>, package: Seq<char>) -> bool {
        true
    }

    open spec fn spec_cdn_size(&self) -> nat {
        self.served_size()
    }

    fn name() -> (r: &'static str)
        ensures
            r@ == "rsa"@,
    {
        "rsa"
    }

    fn batch_import(packages: Vec<PackageId>) -> (r: Self)
        ensures
            r.wf(),
            forall|p: int| #[trigger]
                count_of(r.members(), p) == package_occurrences(packages@, p),
            r.log() == Seq::<int>::empty(),
            r.history().len() == 1,
            r.proofs_sound(),
    {
        let primes = hash_packages(&packages).unwrap();
        let ghost ps = primes@;
        let r = Self::import_primes(primes);
        proof {
            assert forall|p: int| #[trigger]
                count_of(r.members(), p) == package_occurrences(packages@, p) by {
                lemma_package_occurrences(packages@, ps, p);
            }
        }
        r
    }

    fn refresh_metadata(&self, snapshot_id: Option<Digest<G>>) -> (r: Option<Diff<G>>)
        ensures
            (match r {
                Some(d) => Some(d@),
                None => None,
            }) == refreshed::<G>(
                self.digest_value(),
                self.history(),
                self.digest_indexes(),
                id_view(snapshot_id),
            ),
    {
        let snap = match snapshot_id {
            // client had no state, they don't need a proof
            None => {
                return Some(Diff::new(self.acc.digest().duplicate(), None));
            },
            Some(s) => s,
        };
        if snap.same(self.acc.digest()) {
            return None;
        }
        let new_digest = self.acc.digest().duplicate();
        let proof = self.acc.prove_append_only(&snap);
        Some(Diff::new(new_digest, Some(proof)))
    }

    fn get_metadata(&self) -> (r: Snapshot<G>)
        ensures
            r@ == Some(self.digest_value()),
    {
        Snapshot::new(self.acc.digest().duplicate())
    }

    fn publish(&mut self, package: PackageId)
        ensures
            final(self).wf(),
            final(self).history().len() <= old(self).history().len() + 1,
            match package_prime(package@) {
                Some(p) => if old(self).takes(p) {
                    &&& final(self).members() == old(self).members().insert(
                        p,
                        count_of(old(self).members(), p) + 1,
                    )
                    &&& final(self).log() == old(self).log().push(p)
                    &&& final(self).digest_value() == G::spec_mul(old(self).digest_value(), p)
                    &&& final(self).exponent() == old(self).exponent() * p
                } else {
                    &&& final(self).members() == old(self).members()
                    &&& final(self).log() == old(self).log()
                    &&& final(self).digest_value() == old(self).digest_value()
                },
                None => {
                    &&& final(self).members() == old(self).members()
                    &&& final(self).log() == old(self).log()
                    &&& final(self).digest_value() == old(self).digest_value()
                },
            },
            old(self).proofs_sound() ==> final(self).proofs_sound(),
    {
        let prime = match hash_package(&package) {
            Ok(p) => p,
            Err(_) => {
                return;
            },
        };
        let count = self.acc.get(&prime);
        if count == u32::MAX {
            return;
        }
        if count == 0 {
            // A new prime must be coprime to the members; the witness of its
            // absence is kept for the update.
            if self.acc.prove_nonmember(&prime).is_none() {
                return;
            }
        }
        let ghost log0 = self.log();
        let ghost h0 = self.history();
        proof {
            lemma_wf_history(&self.acc);
        }
        self.acc.increment(prime.clone());
        proof {
            lemma_chained_push::<G>(h0, prime.value());
        }
        self.log.push(prime);
        assert(self.log() =~= log0.push(prime.value()));
        let len = self.log.len();
        self.old_acc_idxs.insert(self.acc.digest().duplicate(), len);
    }

    fn request_file(&mut self, snapshot_id: Option<Digest<G>>, package: &PackageId) -> (r: (
        Revision,
        Witness<G>,
    ))
        ensures
            final(self).wf(),
            final(self).members() == old(self).members(),
            final(self).digest_value() == old(self).digest_value(),
            final(self).history() == old(self).history(),
            final(self).digest_indexes() == old(self).digest_indexes(),
            final(self).log() == old(self).log(),
            package_prime(package@) matches Some(p) && r.0.value() == count_of(old(self).members(), p)
                && r.1@ == old(self).cached_witnesses()[p],
            package_prime(package@) matches Some(p) && (r.1@.0 matches Some(m) && G::spec_mul(
                m,
                pow(p, r.0.value()),
            ) == old(self).digest_value()),
            old(self).proofs_sound() ==> final(self).proofs_sound(),
            old(self).proofs_sound() && old(self).coprime_members() ==> membership_verdict::<G>(
                Some(old(self).digest_value()),
                package@,
                r.0.value(),
                r.1@,
            ),
    {
        let prime = hash_package(package).unwrap();
        let revision = self.acc.get(&prime);
        let proof = self.acc.prove(&prime, revision).unwrap();
        (Revision::from_nonzero(revision as u64), proof)
    }

    fn id(snapshot: &Snapshot<G>) -> (r: Option<Digest<G>>)
        ensures
            id_view(r) == snapshot@,
    {
        snapshot.digest()
    }

    fn update(snapshot: &mut Snapshot<G>, diff: Diff<G>)
        ensures
            final(snapshot)@ == Some(diff@.0),
    {
        snapshot.digest = Some(diff.digest);
    }

    fn check_no_rollback(snapshot: &Snapshot<G>, diff: &Diff<G>) -> (r: bool)
        ensures
            r == no_rollback::<G>(snapshot@, diff@),
    {
        match (&diff.update, &snapshot.digest) {
            (Some(p), Some(s)) => RsaAccumulator::<G>::verify_append_only(s, p, &diff.digest),
            (Some(_), None) => {
                proof {
                    assert(false);
                }
                false
            },
            (None, None) => true,
            (None, Some(_)) => false,
        }
    }

    fn verify_membership(
        snapshot: &Snapshot<G>,
        package: &PackageId,
        revision: Revision,
        proof: Witness<G>,
    ) -> (r: bool)
        ensures
            r == membership_verdict::<G>(snapshot@, package@, revision.value(), proof@),
    {
        let prime = match hash_package(package) {
            Ok(p) => p,
            Err(_) => {
                return false;
            },
        };
        match &snapshot.digest {
            None => false,
            Some(d) => {
                let revision = revision.get();
                if revision > u32::MAX as u64 {
                    // No count of the accumulator reaches this revision.
                    return false;
                }
                RsaAccumulator::<G>::verify(d, &prime, revision as u32, proof)
            },
        }
    }

    fn cdn_size(&self) -> (r: Information) {
        self.acc.cdn_size()
    }
}

/// An honest server never rolls a client back: a client without a digest gets
/// the server's digest, which `check_no_rollback` accepts; a current client
/// gets nothing; a client holding a digest that the server recorded gets the
/// server's digest with a proof that `check_no_rollback` accepts, whenever
/// every step of that proof was produced.
pub proof fn lemma_refresh_no_rollback<G: Group>(a: &Authenticator<G>, id: Option<int>)
    requires
        a.wf(),
        id matches Some(s) ==> a.digest_indexes().contains_key(s),
    ensures
        match refreshed::<G>(a.digest_value(), a.history(), a.digest_indexes(), id) {
            None => id == Some(a.digest_value()),
            Some(d) => {
                &&& d.0 == a.digest_value()
                &&& d.1 is Some <==> id is Some
                &&& (d.1 matches Some(steps) && forall|k: int| 0 <= k < steps.len() ==> (#[trigger] steps[k]).0 is Some)
                    ==> no_rollback::<G>(id, d)
                &&& id is None ==> no_rollback::<G>(id, d)
            },
        },
{
    lemma_wf_history(&a.acc);
    if let Some(s) = id {
        if s != a.digest_value() {
            let h = a.history();
            let start = a.digest_indexes()[s] as nat;
            let end = (h.len() - 1) as nat;
            assert(h[start as int].1 == s);
            let steps = read_steps::<G>(read_spec::<HistoryEntry<G>>(h, start, end));
            if forall|k: int| 0 <= k < steps.len() ==> (#[trigger] steps[k]).0 is Some {
                lemma_read_chain::<G>(h, start, end);
            }
        }
    }
}

/// What the server serves for a published package checks out against the
/// metadata it hands out: the package's count with its cached witness, the
/// pair that `request_file` returns, is accepted by `verify_membership` on
/// the snapshot from `get_metadata`, when the published primes are pairwise
/// coprime.
pub proof fn lemma_served_proof_verifies<G: Group>(a: &Authenticator<G>, package: Seq<char>)
    requires
        a.wf(),
        a.proofs_sound(),
        a.coprime_members(),
        package_prime(package) is Some,
        0 < count_of(a.members(), package_prime(package).unwrap()) <= u32::MAX,
    ensures
        ({
            let p = package_prime(package).unwrap();
            membership_verdict::<G>(
                Some(a.digest_value()),
                package,
                count_of(a.members(), p),
                a.cached_witnesses()[p],
            )
        }),
{
    let p = package_prime(package).unwrap();
    lemma_cached_witnesses_verify(&a.acc);
    assert(a.acc.members().contains_key(p));
    assert(a.acc.cached_witnesses().contains_key(p));
}

/// A client that takes what refresh hands it holds the server's digest.
pub proof fn lemma_refresh_catches_up<G: Group>(a: &Authenticator<G>, id: Option<int>)
    ensures
        match refreshed::<G>(a.digest_value(), a.history(), a.digest_indexes(), id) {
            None => id == Some(a.digest_value()),
            Some(d) => d.0 == a.digest_value(),
        },
{
}

impl<G: Group + DataSized> super::BatchAuthenticator for Authenticator<G> {
    type BatchProof = BatchWitness<Witness<G>>;

    /// Every package hashes to a prime that is a member or coprime to the
    /// product of the members.
    open spec fn can_batch_prove(&self, packages: Seq<PackageId>) -> bool {
        &&& self.wf()
        &&& forall|j: int|
            0 <= j < packages.len() ==> match #[trigger] package_prime(packages[j]@) {
                Some(p) => count_of(self.members(), p) > 0 || gcd_ext(self.exponent(), p).0 == 1,
                None => false,
            }
    }

    /// The client holds a digest.
    open spec fn can_batch_verify(snapshot: Snapshot<G>) -> bool {
        snapshot@ is Some
    }

    fn batch_prove(&mut self, packages: Vec<PackageId>) -> (r: (PackageMap<u32>, BatchWitness<Witness<G>>))
        ensures
            final(self).wf(),
            final(self).members() == old(self).members(),
            final(self).exponent() == old(self).exponent(),
            final(self).digest_value() == old(self).digest_value(),
            final(self).history() == old(self).history(),
            final(self).digest_indexes() == old(self).digest_indexes(),
            final(self).log() == old(self).log(),
            final(self).cached_witnesses() == old(self).cached_witnesses(),
            old(self).proofs_sound() ==> final(self).proofs_sound(),
            forall|v: int| #[trigger]
                old(self).cached_nonmembers().contains_key(v) ==> final(self).cached_nonmembers().contains_key(v),
            forall|k: Seq<char>| #[trigger]
                r.0@.contains_key(k) <==> exists|j: int| 0 <= j < packages@.len() && packages@[j]@ == k,
            forall|k: Seq<char>| #[trigger]
                r.0@.contains_key(k) ==> (package_prime(k) matches Some(p) && r.0@[k] == count_of(
                    old(self).members(),
                    p,
                ) && r.1@.contains_key(p) && (r.1@[p].0 matches Some(m) ==> G::spec_mul(
                    m,
                    pow(p, r.0@[k] as nat),
                ) == old(self).digest_value())),
            old(self).proofs_sound() && old(self).coprime_members() ==> forall|k: Seq<char>| #[trigger]
                r.0@.contains_key(k) ==> (package_prime(k) matches Some(p) && witness_verdict::<G>(
                    old(self).digest_value(),
                    p,
                    r.0@[k] as nat,
                    r.1@[p],
                )),
            keys_distinct(r.0.entries()),
    {
        let primes = hash_packages(&packages).unwrap();
        let keys = duplicate_primes(&primes);
        proof {
            assert forall|j: int| 0 <= j < keys@.len() implies count_of(self.acc.members(), #[trigger] keys@[j].value()) > 0
                || gcd_ext(self.acc.exponent(), keys@[j].value()).0 == 1 by {
                assert(package_prime(packages@[j]@) == Some(primes@[j].value()));
            }
        }
        let ghost kv = keys@;
        let (counts, proof) = self.acc.prove_batch(keys);
        proof {
            assert forall|p: int| #[trigger] counts@.contains_key(p) <==> exists|k: int|
                0 <= k < primes@.len() && primes@[k].value() == p by {
                if counts@.contains_key(p) {
                    let k = choose|k: int| 0 <= k < kv.len() && kv[k].value() == p;
                    assert(primes@[k].value() == kv[k].value());
                }
                if exists|k: int| 0 <= k < primes@.len() && primes@[k].value() == p {
                    let k = choose|k: int| 0 <= k < primes@.len() && primes@[k].value() == p;
                    assert(kv[k].value() == primes@[k].value());
                }
            }
        }
        let mut package_revisions: PackageMap<u32> = PackageMap::new();
        let mut j: usize = 0;
        while j < packages.len()
            invariant
                j <= packages@.len(),
                primes@.len() == packages@.len(),
                forall|k: int| 0 <= k < packages@.len() ==> package_prime(packages@[k]@) == Some(#[trigger] primes@[k].value()),
                forall|p: int| #[trigger] counts@.contains_key(p) <==> exists|k: int| 0 <= k < primes@.len() && primes@[k].value() == p,
                forall|p: int| #[trigger] counts@.contains_key(p) ==> counts@[p] == count_of(old(self).members(), p),
                forall|k: Seq<char>| #[trigger]
                    package_revisions@.contains_key(k) <==> exists|jj: int| 0 <= jj < j && packages@[jj]@ == k,
                forall|k: Seq<char>| #[trigger]
                    package_revisions@.contains_key(k) ==> (package_prime(k) matches Some(p) && package_revisions@[k]
                        == count_of(old(self).members(), p)),
                keys_distinct(package_revisions.entries()),
            decreases packages@.len() - j,
        {
            proof {
                assert(counts@.contains_key(primes@[j as int].value()));
            }
            let count = *counts.get(&primes[j]).unwrap();
            let ghost before = package_revisions@;
            package_revisions.insert(packages[j].duplicate(), count);
            proof {
                assert forall|k: Seq<char>| #[trigger]
                    package_revisions@.contains_key(k) <==> exists|jj: int| 0 <= jj < j + 1 && packages@[jj]@ == k by {
                    if package_revisions@.contains_key(k) && k != packages@[j as int]@ {
                        assert(before.contains_key(k));
                    }
                    if exists|jj: int| 0 <= jj < j + 1 && packages@[jj]@ == k {
                        let jj = choose|jj: int| 0 <= jj < j + 1 && packages@[jj]@ == k;
                        if jj < j {
                            assert(before.contains_key(k));
                        }
                    }
                }
            }
            j += 1;
        }
        proof {
            assert forall|k: Seq<char>| #[trigger] package_revisions@.contains_key(k) implies package_prime(k) matches Some(p)
                && package_revisions@[k] == count_of(old(self).members(), p) && proof@.contains_key(p) && (proof@[p].0 matches Some(
                m,
            ) ==> G::spec_mul(m, pow(p, package_revisions@[k] as nat)) == old(self).digest_value()) by {
                let jj = choose|jj: int| 0 <= jj < packages@.len() && packages@[jj]@ == k;
                assert(package_prime(packages@[jj]@) == Some(primes@[jj].value()));
                assert(counts@.contains_key(primes@[jj].value()));
            }
            if old(self).proofs_sound() && old(self).coprime_members() {
                assert forall|k: Seq<char>| #[trigger] package_revisions@.contains_key(k) implies (package_prime(k) matches Some(p)
                    && witness_verdict::<G>(old(self).digest_value(), p, package_revisions@[k] as nat, proof@[p])) by {
                    let jj = choose|jj: int| 0 <= jj < packages@.len() && packages@[jj]@ == k;
                    assert(package_prime(packages@[jj]@) == Some(primes@[jj].value()));
                    assert(counts@.contains_key(primes@[jj].value()));
                }
            }
        }
        (package_revisions, proof)
    }

    fn batch_verify(snapshot: &Snapshot<G>, packages: PackageMap<u32>, proof: BatchWitness<Witness<G>>) -> (r: bool)
        ensures
            r == (hashed_counts(packages.entries()) matches Some(m) && RsaAccumulator::<G>::spec_verify_batch(
                snapshot@.unwrap(),
                m,
                proof@,
            )),
    {
        let members = match convert_package_counts(&packages) {
            Some(m) => m,
            None => {
                return false;
            },
        };
        let digest = snapshot.digest().unwrap();
        RsaAccumulator::<G>::verify_batch(&digest, &members, proof)
    }
}

/// A package occurs among `packages` at `j`: its prime is counted there.
proof fn lemma_package_occurs(packages: Seq<PackageId>, j: int, p: int)
    requires
        0 <= j < packages.len(),
        package_prime(packages[j]@) == Some(p),
    ensures
        package_occurrences(packages, p) >= 1,
    decreases packages.len(),
{
    if j < packages.len() - 1 {
        lemma_package_occurs(packages.drop_last(), j, p);
    }
}

/// A copy of a list of packages.
pub fn duplicate_packages(packages: &Vec<PackageId>) -> (r: Vec<PackageId>)
    ensures
        r@ == packages@,
{
    let mut out: Vec<PackageId> = Vec::new();
    let mut j: usize = 0;
    while j < packages.len()
        invariant
            j <= packages@.len(),
            out@ == packages@.subrange(0, j as int),
        decreases packages@.len() - j,
    {
        out.push(packages[j].duplicate());
        j += 1;
        assert(out@ =~= packages@.subrange(0, j as int));
    }
    assert(packages@.subrange(0, packages@.len() as int) =~= packages@);
    out
}

/// What a client of the pool holds: the digest at the start of the day, and
/// the packages published since.
#[derive(Debug)]
pub struct PoolSnapshot<G> {
    inner: Snapshot<G>,
    pool: Vec<PackageId>,
}

impl<G: Group> PoolSnapshot<G> {
    /// The digest the client trusts, if any.
    pub closed spec fn digest_view(&self) -> Option<int> {
        self.inner@
    }

    /// The packages published since that digest, in order.
    pub closed spec fn pool(&self) -> Seq<PackageId> {
        self.pool@
    }
}

impl<G: Group> Clone for PoolSnapshot<G> {
    fn clone(&self) -> (r: Self)
        ensures
            r.digest_view() == self.digest_view(),
            r.pool() == self.pool(),
    {
        PoolSnapshot { inner: self.inner.duplicate(), pool: duplicate_packages(&self.pool) }
    }
}

impl<G: Group> Default for PoolSnapshot<G> {
    fn default() -> (r: Self)
        ensures
            r.digest_view() is None,
            r.pool().len() == 0,
    {
        PoolSnapshot { inner: Snapshot::default(), pool: Vec::new() }
    }
}

impl<G: Group + DataSized> DataSized for PoolSnapshot<G> {
    /// The digest, and the pool counted as its first package.
    closed spec fn spec_size(&self) -> nat {
        self.inner.spec_size() + assumed_vec_size(self.pool@)
    }

    fn size(&self) -> (r: Information) {
        self.inner.size().plus(assume_data_size_for_vec(&self.pool))
    }
}

/// What brings a client to the end of a day: the digest at its end, the
/// revisions at its start of the packages published during it, witnesses of
/// those revisions at the start and (one higher for each publication) at the
/// end, and a proof that the end extends the start.
#[derive(Debug)]
pub struct CatchUpToEODProof<G> {
    eod_digest: Digest<G>,
    bod_package_counts: PackageMap<u32>,
    bod_package_membership_witness: BatchWitness<Witness<G>>,
    eod_package_membership_witness: BatchWitness<Witness<G>>,
    bod_to_eod: AppendOnlyWitness<G>,
}

impl<G: Group> CatchUpToEODProof<G> {
    /// The digest at the end of the day.
    pub closed spec fn eod(&self) -> int {
        self.eod_digest.value()
    }

    /// The revisions at the start of the day.
    pub closed spec fn bod_counts(&self) -> Seq<(PackageId, u32)> {
        self.bod_package_counts.entries()
    }

    /// The witnesses of the revisions at the start of the day.
    pub closed spec fn bod_witness(&self) -> Map<int, (Option<int>, int, int)> {
        self.bod_package_membership_witness@
    }

    /// The witnesses of the revisions at the end of the day.
    pub closed spec fn eod_witness(&self) -> Map<int, (Option<int>, int, int)> {
        self.eod_package_membership_witness@
    }

    /// The proof that the end of the day extends its start.
    pub closed spec fn bod_to_eod(&self) -> Seq<(Option<(int, int, int)>, int)> {
        self.bod_to_eod@
    }

    /// The proof for `epoch`, ending at `next_digest`.
    fn from_epoch(epoch: Epoch<G>, next_digest: Digest<G>) -> (r: Self)
        ensures
            r.eod() == next_digest.value(),
            r.bod_counts() == epoch.bod_counts(),
            r.bod_witness() == epoch.bod_witness(),
            r.eod_witness() == epoch.eod_witness(),
            r.bod_to_eod() == epoch.bod_to_eod(),
    {
        CatchUpToEODProof {
            eod_digest: next_digest,
            bod_package_counts: epoch.bod_package_counts,
            bod_package_membership_witness: epoch.bod_package_membership_witness,
            eod_package_membership_witness: epoch.eod_package_membership_witness,
            bod_to_eod: epoch.bod_to_eod,
        }
    }

    /// A copy of this proof.
    pub fn duplicate(&self) -> (r: Self)
        ensures
            r.eod() == self.eod(),
            r.bod_counts() == self.bod_counts(),
            r.bod_witness() == self.bod_witness(),
            r.eod_witness() == self.eod_witness(),
            r.bod_to_eod() == self.bod_to_eod(),
    {
        CatchUpToEODProof {
            eod_digest: self.eod_digest.duplicate(),
            bod_package_counts: self.bod_package_counts.duplicate(),
            bod_package_membership_witness: self.bod_package_membership_witness.duplicate(),
            eod_package_membership_witness: self.eod_package_membership_witness.duplicate(),
            bod_to_eod: self.bod_to_eod.duplicate(),
        }
    }
}

impl<G: Group + DataSized> DataSized for CatchUpToEODProof<G> {
    /// The revisions counted as the first with its count, the witnesses, the
    /// proof and the digest.
    closed spec fn spec_size(&self) -> nat {
        (self.bod_package_counts.entries().len() * (STRING_BYTES + 4) + self.bod_package_membership_witness.spec_size()
            + self.eod_package_membership_witness.spec_size() + self.bod_to_eod.spec_size()
            + self.eod_digest.spec_size()) as nat
    }

    fn size(&self) -> (r: Information) {
        let counts = repeated_size(self.bod_package_counts.len(), Information::new_bytes(STRING_BYTES + 4));
        counts.plus(self.bod_package_membership_witness.size()).plus(
            self.eod_package_membership_witness.size(),
        ).plus(self.bod_to_eod.size()).plus(self.eod_digest.size())
    }
}

/// What brings a pool client up to date: the rest of its day's
/// publications, and, if its day has ended, the proof for the end of that
/// day, the latest digest with a proof that it extends that end if they
/// differ, and the publications since; for a client with nothing, the digest
/// and the publications since.
#[derive(Debug)]
pub struct PoolDiff<G> {
    rest_of_current_day: Vec<PackageId>,
    current_day_final_digest: Option<CatchUpToEODProof<G>>,
    latest_digest: Option<(Digest<G>, AppendOnlyWitness<G>)>,
    latest_pool: Vec<PackageId>,
    initial_digest: Option<Digest<G>>,
}

impl<G: Group> PoolDiff<G> {
    /// The rest of the client's day.
    pub closed spec fn rest(&self) -> Seq<PackageId> {
        self.rest_of_current_day@
    }

    /// The proof for the end of the client's day, if it has ended.
    pub closed spec fn catch_up(&self) -> Option<CatchUpToEODProof<G>> {
        self.current_day_final_digest
    }

    /// The latest digest and the proof that it extends the end of the
    /// client's day, if they differ.
    pub closed spec fn latest(&self) -> Option<(int, Seq<(Option<(int, int, int)>, int)>)> {
        match self.latest_digest {
            Some((d, w)) => Some((d.value(), w@)),
            None => None,
        }
    }

    /// The publications of the current day.
    pub closed spec fn latest_pool(&self) -> Seq<PackageId> {
        self.latest_pool@
    }

    /// The digest for a client that had none.
    pub closed spec fn initial_view(&self) -> Option<int> {
        match self.initial_digest {
            Some(d) => Some(d.value()),
            None => None,
        }
    }

    fn initial(digest: Digest<G>, latest_pool: Vec<PackageId>) -> (r: Self)
        ensures
            r.initial_view() == Some(digest.value()),
            r.latest_pool() == latest_pool@,
            r.rest().len() == 0,
            r.catch_up() is None,
            r.latest() is None,
    {
        PoolDiff {
            initial_digest: Some(digest),
            latest_pool,
            rest_of_current_day: Vec::new(),
            current_day_final_digest: None,
            latest_digest: None,
        }
    }

    fn for_current_day(rest_of_current_day: Vec<PackageId>) -> (r: Self)
        ensures
            r.rest() == rest_of_current_day@,
            r.catch_up() is None,
            r.latest() is None,
            r.latest_pool().len() == 0,
            r.initial_view() is None,
    {
        PoolDiff {
            rest_of_current_day,
            current_day_final_digest: None,
            latest_digest: None,
            latest_pool: Vec::new(),
            initial_digest: None,
        }
    }

    fn for_next_day(
        rest_of_current_day: Vec<PackageId>,
        current_day_final_digest: CatchUpToEODProof<G>,
        latest_pool: Vec<PackageId>,
    ) -> (r: Self)
        ensures
            r.rest() == rest_of_current_day@,
            r.catch_up() == Some(current_day_final_digest),
            r.latest_pool() == latest_pool@,
            r.latest() is None,
            r.initial_view() is None,
    {
        PoolDiff {
            rest_of_current_day,
            current_day_final_digest: Some(current_day_final_digest),
            latest_pool,
            latest_digest: None,
            initial_digest: None,
        }
    }

    fn for_latter_day(
        rest_of_current_day: Vec<PackageId>,
        current_day_final_digest: CatchUpToEODProof<G>,
        latest_digest: (Digest<G>, AppendOnlyWitness<G>),
        latest_pool: Vec<PackageId>,
    ) -> (r: Self)
        ensures
            r.rest() == rest_of_current_day@,
            r.catch_up() == Some(current_day_final_digest),
            r.latest() == Some((latest_digest.0.value(), latest_digest.1@)),
            r.latest_pool() == latest_pool@,
            r.initial_view() is None,
    {
        PoolDiff {
            rest_of_current_day,
            current_day_final_digest: Some(current_day_final_digest),
            latest_digest: Some(latest_digest),
            latest_pool,
            initial_digest: None,
        }
    }
}

impl<G: Group> Default for PoolDiff<G> {
    fn default() -> (r: Self)
        ensures
            r.rest().len() == 0,
            r.catch_up() is None,
            r.latest() is None,
            r.latest_pool().len() == 0,
            r.initial_view() is None,
    {
        PoolDiff {
            rest_of_current_day: Vec::new(),
            current_day_final_digest: None,
            latest_digest: None,
            latest_pool: Vec::new(),
            initial_digest: None,
        }
    }
}

impl<G: Group + DataSized> DataSized for PoolDiff<G> {
    /// The package lists at one identifier each, the latest digest and its
    /// proof, the proof for the end of the day and the initial digest.
    closed spec fn spec_size(&self) -> nat {
        (self.rest_of_current_day@.len() * STRING_BYTES + self.latest_pool@.len() * STRING_BYTES + (
        match self.latest_digest {
            Some((d, a)) => d.spec_size() + a.spec_size(),
            None => 0,
        }) + self.current_day_final_digest.spec_size() + self.initial_digest.spec_size()) as nat
    }

    fn size(&self) -> (r: Information) {
        let size = repeated_size(self.rest_of_current_day.len(), Information::new_bytes(STRING_BYTES));
        let size = size.plus(repeated_size(self.latest_pool.len(), Information::new_bytes(STRING_BYTES)));
        let size = match &self.latest_digest {
            Some((d, a)) => size.plus(d.size().plus(a.size())),
            None => size,
        };
        size.plus(self.current_day_final_digest.size()).plus(self.initial_digest.size())
    }
}

/// One day of the pool: the packages published during it, the digest at its
/// end, the revisions of those packages at its start and end with their
/// witnesses, and the proof that its end extends its start.
#[derive(Debug)]
pub struct Epoch<G> {
    packages: Vec<PackageId>,
    eod_digest: Digest<G>,
    bod_package_counts: PackageMap<u32>,
    eod_package_counts: PackageMap<u32>,
    bod_package_membership_witness: BatchWitness<Witness<G>>,
    eod_package_membership_witness: BatchWitness<Witness<G>>,
    bod_to_eod: AppendOnlyWitness<G>,
}

impl<G: Group> Epoch<G> {
    /// The packages published during the day.
    pub closed spec fn packages(&self) -> Seq<PackageId> {
        self.packages@
    }

    /// The digest at the end of the day.
    pub closed spec fn eod(&self) -> int {
        self.eod_digest.value()
    }

    /// The revisions at the start of the day.
    pub closed spec fn bod_counts(&self) -> Seq<(PackageId, u32)> {
        self.bod_package_counts.entries()
    }

    /// The revisions at the end of the day.
    pub closed spec fn eod_counts(&self) -> Seq<(PackageId, u32)> {
        self.eod_package_counts.entries()
    }

    /// The witnesses of the revisions at the start of the day.
    pub closed spec fn bod_witness(&self) -> Map<int, (Option<int>, int, int)> {
        self.bod_package_membership_witness@
    }

    /// The witnesses of the revisions at the end of the day.
    pub closed spec fn eod_witness(&self) -> Map<int, (Option<int>, int, int)> {
        self.eod_package_membership_witness@
    }

    /// The proof that the end of the day extends its start.
    pub closed spec fn bod_to_eod(&self) -> Seq<(Option<(int, int, int)>, int)> {
        self.bod_to_eod@
    }

    /// A copy of this epoch.
    pub fn duplicate(&self) -> (r: Self)
        ensures
            r.packages() == self.packages(),
            r.eod() == self.eod(),
            r.bod_counts() == self.bod_counts(),
            r.eod_counts() == self.eod_counts(),
            r.bod_witness() == self.bod_witness(),
            r.eod_witness() == self.eod_witness(),
            r.bod_to_eod() == self.bod_to_eod(),
    {
        Epoch {
            packages: duplicate_packages(&self.packages),
            eod_digest: self.eod_digest.duplicate(),
            bod_package_counts: self.bod_package_counts.duplicate(),
            eod_package_counts: self.eod_package_counts.duplicate(),
            bod_package_membership_witness: self.bod_package_membership_witness.duplicate(),
            eod_package_membership_witness: self.eod_package_membership_witness.duplicate(),
            bod_to_eod: self.bod_to_eod.duplicate(),
        }
    }
}

impl<G: Group + DataSized> DataSized for Epoch<G> {
    /// The digest, the witnesses and the proof, the packages at one
    /// identifier each, and the revisions counted as the first with a
    /// machine word.
    closed spec fn spec_size(&self) -> nat {
        (self.eod_digest.spec_size() + self.bod_package_membership_witness.spec_size()
            + self.eod_package_membership_witness.spec_size() + self.bod_to_eod.spec_size()
            + self.packages@.len() * STRING_BYTES + self.bod_package_counts.entries().len() * (STRING_BYTES + 8)
            + self.eod_package_counts.entries().len() * (STRING_BYTES + 8)) as nat
    }

    fn size(&self) -> (r: Information) {
        let size = self.eod_digest.size().plus(self.bod_package_membership_witness.size()).plus(
            self.eod_package_membership_witness.size(),
        ).plus(self.bod_to_eod.size());
        let size = size.plus(repeated_size(self.packages.len(), Information::new_bytes(STRING_BYTES)));
        let size = size.plus(
            repeated_size(self.bod_package_counts.len(), Information::new_bytes(STRING_BYTES + 8)),
        );
        size.plus(repeated_size(self.eod_package_counts.len(), Information::new_bytes(STRING_BYTES + 8)))
    }
}

/// A pool client's proof for a package: a witness of its revision at the
/// start of the day, or of its absence then.
#[derive(Debug)]
pub enum PoolWitness<G> {
    Member(Witness<G>),
    Nonmember(NonMembershipWitness<G>),
}

impl<G: Group + DataSized> DataSized for PoolWitness<G> {
    closed spec fn spec_size(&self) -> nat {
        match self {
            PoolWitness::Member(inner) => inner.spec_size(),
            PoolWitness::Nonmember(inner) => inner.spec_size(),
        }
    }

    fn size(&self) -> (r: Information) {
        match self {
            PoolWitness::Member(inner) => inner.size(),
            PoolWitness::Nonmember(inner) => inner.size(),
        }
    }
}

/// The entries with the count of `package` one higher; `None` if it is
/// missing or its count is full.
pub open spec fn bump(entries: Seq<(PackageId, u32)>, package: Seq<char>) -> Option<Seq<(PackageId, u32)>> {
    if exists|i: int| 0 <= i < entries.len() && #[trigger] entries[i].0@ == package {
        let i = choose|i: int| 0 <= i < entries.len() && #[trigger] entries[i].0@ == package;
        if entries[i].1 == u32::MAX {
            None
        } else {
            Some(entries.update(i, (entries[i].0, (entries[i].1 + 1) as u32)))
        }
    } else {
        None
    }
}

/// The entries with the count of each of `packages` one higher for each time
/// it occurs; `None` if one is missing or a count overflows.
pub open spec fn bump_all(entries: Seq<(PackageId, u32)>, packages: Seq<PackageId>) -> Option<
    Seq<(PackageId, u32)>,
>
    decreases packages.len(),
{
    if packages.len() == 0 {
        Some(entries)
    } else {
        match bump_all(entries, packages.drop_last()) {
            Some(e) => bump(e, packages.last()@),
            None => None,
        }
    }
}

/// The entries with the count of `package` one lower, if it is there; `None`
/// if that count is already zero.
pub open spec fn debump(entries: Seq<(PackageId, u32)>, package: Seq<char>) -> Option<Seq<(PackageId, u32)>> {
    if exists|i: int| 0 <= i < entries.len() && #[trigger] entries[i].0@ == package {
        let i = choose|i: int| 0 <= i < entries.len() && #[trigger] entries[i].0@ == package;
        if entries[i].1 == 0 {
            None
        } else {
            Some(entries.update(i, (entries[i].0, (entries[i].1 - 1) as u32)))
        }
    } else {
        Some(entries)
    }
}

/// The entries with the count of each of `packages` that is there one lower
/// for each time it occurs; `None` if a count would go below zero.
pub open spec fn debump_all(entries: Seq<(PackageId, u32)>, packages: Seq<PackageId>) -> Option<
    Seq<(PackageId, u32)>,
>
    decreases packages.len(),
{
    if packages.len() == 0 {
        Some(entries)
    } else {
        match debump_all(entries, packages.drop_last()) {
            Some(e) => debump(e, packages.last()@),
            None => None,
        }
    }
}

/// Whether a catch-up proof holds for a client at `bod` that has seen
/// `packages` published: the revisions at the start of the day are
/// witnessed against `bod`, the same revisions raised once for each
/// publication are witnessed against `eod`, and `eod` extends `bod`.
pub open spec fn catch_up_valid<G: Group>(
    bod: int,
    packages: Seq<PackageId>,
    counts: Seq<(PackageId, u32)>,
    bod_witness: Map<int, (Option<int>, int, int)>,
    eod: int,
    eod_witness: Map<int, (Option<int>, int, int)>,
    steps: Seq<(Option<(int, int, int)>, int)>,
) -> bool {
    &&& hashed_counts(counts) matches Some(m) && RsaAccumulator::<G>::spec_verify_batch(bod, m, bod_witness)
    &&& bump_all(counts, packages) matches Some(c) && (hashed_counts(c) matches Some(m)
        && RsaAccumulator::<G>::spec_verify_batch(eod, m, eod_witness))
    &&& chain_ok::<G>(steps, eod, bod)
}

/// Raises the count of `package` by one.
fn bump_count(counts: &mut PackageMap<u32>, package: &PackageId) -> (r: bool)
    ensures
        match bump(old(counts).entries(), package@) {
            Some(e) => r && final(counts).entries() == e,
            None => !r,
        },
{
    let n = counts.len();
    let ghost s = counts.entries();
    match counts.find(package) {
        Some(i) => {
            proof {
                let j = choose|j: int| 0 <= j < s.len() && #[trigger] s[j].0@ == package@;
                assert(s[i as int].0@ == package@);
                assert(i == j);
            }
            let c = counts.value_at(i);
            if c == u32::MAX {
                return false;
            }
            counts.set_value(i, c + 1);
            true
        },
        None => {
            proof {
                crate::authenticator::package_map::lemma_entries_map_dom(s, package@);
            }
            false
        },
    }
}

/// Lowers the count of `package` by one, if it is there.
fn debump_count(counts: &mut PackageMap<u32>, package: &PackageId) -> (r: bool)
    ensures
        match debump(old(counts).entries(), package@) {
            Some(e) => r && final(counts).entries() == e,
            None => !r,
        },
{
    let n = counts.len();
    let ghost s = counts.entries();
    match counts.find(package) {
        Some(i) => {
            proof {
                let j = choose|j: int| 0 <= j < s.len() && #[trigger] s[j].0@ == package@;
                assert(s[i as int].0@ == package@);
                assert(i == j);
            }
            let c = counts.value_at(i);
            if c == 0 {
                // The pool holds the package more often than the count says.
                return false;
            }
            counts.set_value(i, c - 1);
            true
        },
        None => {
            proof {
                crate::authenticator::package_map::lemma_entries_map_dom(s, package@);
            }
            true
        },
    }
}

impl<G: Group> PoolSnapshot<G> {
    /// The digest at the end of the client's day, if `catch_up_proof` holds
    /// for it with the rest of that day's publications.
    pub fn validate_catch_up_proof(
        &self,
        catch_up_proof: &CatchUpToEODProof<G>,
        rest_of_current_day: &Vec<PackageId>,
    ) -> (r: Result<Digest<G>, ()>)
        requires
            self.digest_view() is Some,
        ensures
            r is Ok <==> catch_up_valid::<G>(
                self.digest_view().unwrap(),
                self.pool() + rest_of_current_day@,
                catch_up_proof.bod_counts(),
                catch_up_proof.bod_witness(),
                catch_up_proof.eod(),
                catch_up_proof.eod_witness(),
                catch_up_proof.bod_to_eod(),
            ),
            r matches Ok(d) ==> d.value() == catch_up_proof.eod(),
    {
        let bod = self.inner.digest().unwrap();
        let ghost counts0 = catch_up_proof.bod_counts();
        let ghost seen = self.pool@ + rest_of_current_day@;
        let hashed = match convert_package_counts(&catch_up_proof.bod_package_counts) {
            Some(h) => h,
            None => {
                return Err(());
            },
        };
        if !RsaAccumulator::<G>::verify_batch(
            &bod,
            &hashed,
            catch_up_proof.bod_package_membership_witness.duplicate(),
        ) {
            return Err(());
        }
        let mut package_counts = catch_up_proof.bod_package_counts.duplicate();
        let mut i: usize = 0;
        while i < self.pool.len()
            invariant
                i <= self.pool@.len(),
                seen == self.pool@ + rest_of_current_day@,
                counts0 == catch_up_proof.bod_counts(),
                bump_all(counts0, self.pool@.subrange(0, i as int)) == Some(package_counts.entries()),
            decreases self.pool@.len() - i,
        {
            assert(self.pool@.subrange(0, i + 1).drop_last() =~= self.pool@.subrange(0, i as int));
            if !bump_count(&mut package_counts, &self.pool[i]) {
                proof {
                    assert(seen.subrange(0, i + 1) =~= self.pool@.subrange(0, i + 1));
                    lemma_bump_all_none(counts0, seen, i + 1);
                }
                return Err(()); // missing from current_revisions
            }
            i += 1;
        }
        proof {
            assert(self.pool@.subrange(0, i as int) =~= self.pool@);
            assert(seen.subrange(0, i as int) =~= self.pool@);
        }
        let mut j: usize = 0;
        while j < rest_of_current_day.len()
            invariant
                i == self.pool@.len(),
                seen == self.pool@ + rest_of_current_day@,
                counts0 == catch_up_proof.bod_counts(),
                j <= rest_of_current_day@.len(),
                bump_all(counts0, seen.subrange(0, i + j)) == Some(package_counts.entries()),
            decreases rest_of_current_day@.len() - j,
        {
            assert(seen.subrange(0, i + j + 1).drop_last() =~= seen.subrange(0, i + j));
            assert(seen.subrange(0, i + j + 1).last() == rest_of_current_day@[j as int]);
            if !bump_count(&mut package_counts, &rest_of_current_day[j]) {
                proof {
                    lemma_bump_all_none(counts0, seen, i + j + 1);
                }
                return Err(()); // missing from current_revisions
            }
            j += 1;
        }
        proof {
            assert(self.pool@.subrange(0, i as int) =~= self.pool@);
            assert(seen.subrange(0, i + j) =~= seen);
        }
        let hashed = match convert_package_counts(&package_counts) {
            Some(h) => h,
            None => {
                return Err(());
            },
        };
        if !RsaAccumulator::<G>::verify_batch(
            &catch_up_proof.eod_digest,
            &hashed,
            catch_up_proof.eod_package_membership_witness.duplicate(),
        ) {
            return Err(());
        }
        if !RsaAccumulator::<G>::verify_append_only(&bod, &catch_up_proof.bod_to_eod, &catch_up_proof.eod_digest) {
            return Err(());
        }
        Ok(catch_up_proof.eod_digest.duplicate())
    }

    /// Whether `proof` shows each of `packages` at its revision, where the
    /// revisions count the client's pool: each is lowered once for every
    /// time its package occurs in the pool, and checked against the digest.
    pub fn batch_verify(&self, packages: PackageMap<u32>, proof: BatchWitness<Witness<G>>) -> (r: bool)
        requires
            self.digest_view() is Some,
        ensures
            r == (debump_all(packages.entries(), self.pool()) matches Some(e) && (hashed_counts(e) matches Some(m)
                && RsaAccumulator::<G>::spec_verify_batch(self.digest_view().unwrap(), m, proof@))),
    {
        let ghost counts0 = packages.entries();
        let mut counts = packages;
        // Subtract out the packages that appear in the pool so that the
        // counts can be checked against the digest.
        let mut i: usize = 0;
        while i < self.pool.len()
            invariant
                i <= self.pool@.len(),
                counts0 == packages.entries(),
                debump_all(counts0, self.pool@.subrange(0, i as int)) == Some(counts.entries()),
            decreases self.pool@.len() - i,
        {
            assert(self.pool@.subrange(0, i + 1).drop_last() =~= self.pool@.subrange(0, i as int));
            if !debump_count(&mut counts, &self.pool[i]) {
                // The package appears more times in the pool than its count
                // allows.
                proof {
                    lemma_debump_all_none(counts0, self.pool@, i + 1);
                }
                return false;
            }
            i += 1;
        }
        assert(self.pool@.subrange(0, i as int) =~= self.pool@);
        let members = match convert_package_counts(&counts) {
            Some(m) => m,
            None => {
                return false;
            },
        };
        let digest = self.inner.digest().unwrap();
        RsaAccumulator::<G>::verify_batch(&digest, &members, proof)
    }
}

proof fn lemma_bump_all_none(entries: Seq<(PackageId, u32)>, packages: Seq<PackageId>, j: int)
    requires
        0 <= j <= packages.len(),
        bump_all(entries, packages.subrange(0, j)) is None,
    ensures
        bump_all(entries, packages) is None,
    decreases packages.len() - j,
{
    if j < packages.len() {
        assert(packages.subrange(0, j + 1).drop_last() =~= packages.subrange(0, j));
        lemma_bump_all_none(entries, packages, j + 1);
    } else {
        assert(packages.subrange(0, j) =~= packages);
    }
}

proof fn lemma_debump_all_none(entries: Seq<(PackageId, u32)>, packages: Seq<PackageId>, j: int)
    requires
        0 <= j <= packages.len(),
        debump_all(entries, packages.subrange(0, j)) is None,
    ensures
        debump_all(entries, packages) is None,
    decreases packages.len() - j,
{
    if j < packages.len() {
        assert(packages.subrange(0, j + 1).drop_last() =~= packages.subrange(0, j));
        lemma_debump_all_none(entries, packages, j + 1);
    } else {
        assert(packages.subrange(0, j) =~= packages);
    }
}

/// How many of `pool` are `package`.
pub open spec fn pool_count(pool: Seq<PackageId>, package: Seq<char>) -> nat
    decreases pool.len(),
{
    if pool.len() == 0 {
        0
    } else {
        pool_count(pool.drop_last(), package) + (if pool.last()@ == package {
            1nat
        } else {
            0nat
        })
    }
}

/// A package occurs no more often than its prime.
proof fn lemma_pool_count_bound(pool: Seq<PackageId>, package: Seq<char>, p: int)
    requires
        package_prime(package) == Some(p),
    ensures
        pool_count(pool, package) <= package_occurrences(pool, p),
    decreases pool.len(),
{
    if pool.len() > 0 {
        lemma_pool_count_bound(pool.drop_last(), package, p);
    }
}

/// A package is counted once for each time it occurs.
proof fn lemma_pool_count_positive(pool: Seq<PackageId>, j: int)
    requires
        0 <= j < pool.len(),
    ensures
        pool_count(pool, pool[j]@) >= 1,
    decreases pool.len(),
{
    if j < pool.len() - 1 {
        lemma_pool_count_positive(pool.drop_last(), j);
    }
}

/// A package that is counted occurs somewhere.
proof fn lemma_pool_count_witness(pool: Seq<PackageId>, package: Seq<char>)
    requires
        pool_count(pool, package) > 0,
    ensures
        exists|j: int| 0 <= j < pool.len() && #[trigger] pool[j]@ == package,
    decreases pool.len(),
{
    if pool.last()@ != package {
        lemma_pool_count_witness(pool.drop_last(), package);
        let j = choose|j: int| 0 <= j < pool.drop_last().len() && #[trigger] pool.drop_last()[j]@ == package;
        assert(pool[j]@ == package);
    } else {
        assert(pool[pool.len() - 1]@ == package);
    }
}

/// No more of `packages` stand for a prime than there are packages.
proof fn lemma_package_occurrences_bound(packages: Seq<PackageId>, p: int)
    ensures
        package_occurrences(packages, p) <= packages.len(),
    decreases packages.len(),
{
    if packages.len() > 0 {
        lemma_package_occurrences_bound(packages.drop_last(), p);
    }
}

/// A prime at `j` of `s` occurs in `s`.
proof fn lemma_occurs_at(s: Seq<Prime>, j: int)
    requires
        0 <= j < s.len(),
    ensures
        occurrences(s, s[j].value()) >= 1,
    decreases s.len(),
{
    if j < s.len() - 1 {
        lemma_occurs_at(s.drop_last(), j);
    }
}

/// The packages of `v` from `start` on.
fn packages_from(v: &Vec<PackageId>, start: usize) -> (r: Vec<PackageId>)
    requires
        start <= v@.len(),
    ensures
        r@ == v@.subrange(start as int, v@.len() as int),
{
    let mut out: Vec<PackageId> = Vec::new();
    let mut j: usize = start;
    while j < v.len()
        invariant
            start <= j <= v@.len(),
            out@ == v@.subrange(start as int, j as int),
        decreases v@.len() - j,
    {
        out.push(v[j].duplicate());
        j += 1;
        assert(out@ =~= v@.subrange(start as int, j as int));
    }
    out
}

/// How many of `pool` are `package`.
fn count_in_pool(pool: &Vec<PackageId>, package: &PackageId) -> (r: usize)
    ensures
        r == pool_count(pool@, package@),
{
    let mut count: usize = 0;
    let mut j: usize = 0;
    while j < pool.len()
        invariant
            j <= pool@.len(),
            count == pool_count(pool@.subrange(0, j as int), package@),
            count <= j,
        decreases pool@.len() - j,
    {
        assert(pool@.subrange(0, j + 1).drop_last() =~= pool@.subrange(0, j as int));
        if pool[j].same(package) {
            count += 1;
        }
        j += 1;
    }
    assert(pool@.subrange(0, pool@.len() as int) =~= pool@);
    count
}

/// A server that gathers the publications of a day in a pool, proves the
/// revisions of those packages against the digest at the start of the day,
/// and adds the pool as one batch at its end.
pub struct PoolAuthenticator<G: Group> {
    inner: Authenticator<G>,
    past_epochs: Vec<Epoch<G>>,
    epoch_idxs_by_digest: KeyedMap<Digest<G>, usize>,
    current_pool: Vec<PackageId>,
    /// A bound on how often any prime has been added, pool included.
    bound: Ghost<nat>,
}

impl<G: Group> PoolAuthenticator<G> {
    /// The accumulator is consistent; every pooled package has a prime that
    /// is a member or has a cached witness of its absence; no count can
    /// overflow; every recorded digest names an epoch.
    pub closed spec fn wf(&self) -> bool {
        &&& self.inner.wf()
        &&& self.bound@ < u32::MAX
        &&& self.current_pool@.len() <= self.bound@
        &&& forall|j: int|
            0 <= j < self.current_pool@.len() ==> match #[trigger] package_prime(self.current_pool@[j]@) {
                Some(p) => count_of(self.inner.members(), p) > 0 || self.inner.cached_nonmembers().contains_key(p),
                None => false,
            }
        &&& forall|p: int| #[trigger]
            count_of(self.inner.members(), p) + package_occurrences(self.current_pool@, p) <= self.bound@
        &&& forall|d: int| #[trigger]
            self.epoch_idxs_by_digest@.contains_key(d) ==> self.epoch_idxs_by_digest@[d] < self.past_epochs@.len()
    }

    /// The authenticator of the days so far.
    pub closed spec fn inner(&self) -> Authenticator<G> {
        self.inner
    }

    /// The days so far.
    pub closed spec fn epochs(&self) -> Seq<Epoch<G>> {
        self.past_epochs@
    }

    /// The epoch that starts at each recorded digest.
    pub closed spec fn epoch_indexes(&self) -> Map<int, usize> {
        self.epoch_idxs_by_digest@
    }

    /// The packages published today.
    pub closed spec fn pool(&self) -> Seq<PackageId> {
        self.current_pool@
    }

    /// The bound on how often a prime has been added.
    pub closed spec fn bound(&self) -> nat {
        self.bound@
    }
}

impl<G: Group> Default for PoolAuthenticator<G> {
    fn default() -> (r: Self)
        ensures
            r.wf(),
            r.inner().members() == Map::<int, nat>::empty(),
            r.epochs().len() == 0,
            r.pool().len() == 0,
    {
        let r = PoolAuthenticator {
            inner: Authenticator::default(),
            past_epochs: Vec::new(),
            epoch_idxs_by_digest: KeyedMap::new(),
            current_pool: Vec::new(),
            bound: Ghost(0),
        };
        r
    }
}

impl<G: Group + DataSized> PoolAuthenticator<G> {
    /// The size of what a content-delivery network serves.
    pub closed spec fn served_size(&self) -> nat {
        self.inner.served_size() + self.current_pool@.len() * 32
    }
}

impl<G: Group + DataSized> DataSized for PoolAuthenticator<G> {
    /// The authenticator, the epochs at one hash each, the digest index
    /// counted as its first entry, and the pool at one identifier each.
    closed spec fn spec_size(&self) -> nat {
        self.inner.spec_size() + self.past_epochs@.len() * 32 + assumed_map_size(
            self.epoch_idxs_by_digest.entries(),
        ) + assumed_vec_size(self.current_pool@)
    }

    fn size(&self) -> (r: Information) {
        let size = self.inner.size();
        let size = size.plus(repeated_size(self.past_epochs.len(), Information::new_bytes(32)));
        let size = size.plus(assume_data_size_for_map(&self.epoch_idxs_by_digest));
        size.plus(assume_data_size_for_vec(&self.current_pool))
    }
}

/// Whether a pool client holding `bod` and `pool` may take a diff whose
/// proof for the end of its day is `catch_up` and whose latest digest is
/// `latest`.
/// Some package of `s` is `k`.
pub open spec fn listed(s: Seq<PackageId>, k: Seq<char>) -> bool {
    exists|j: int| 0 <= j < s.len() && s[j]@ == k
}

/// The keys of a map of counts of the pool, taken in order, list the same
/// packages as the pool.
proof fn lemma_pool_packages(pool: Seq<PackageId>, entries: Seq<(PackageId, usize)>, pp: Seq<PackageId>)
    requires
        pp.len() == entries.len(),
        forall|m: int| 0 <= m < pp.len() ==> #[trigger] pp[m]@ == entries[m].0@,
        forall|k: Seq<char>| #[trigger]
            entries_map(entries).contains_key(k) ==> exists|j: int| 0 <= j < pool.len() && pool[j]@ == k,
        forall|j: int| 0 <= j < pool.len() ==> entries_map(entries).contains_key(#[trigger] pool[j]@),
    ensures
        forall|k: Seq<char>| #![trigger listed(pp, k)] #![trigger listed(pool, k)] listed(pp, k) <==> listed(pool, k),
{
    assert forall|k: Seq<char>| #![trigger listed(pp, k)] #![trigger listed(pool, k)] listed(pp, k) <==> listed(
        pool,
        k,
    ) by {
        crate::authenticator::package_map::lemma_entries_map_dom(entries, k);
        if listed(pool, k) {
            let j = choose|j: int| 0 <= j < pool.len() && pool[j]@ == k;
            assert(entries_map(entries).contains_key(pool[j]@));
            let m = choose|m: int| 0 <= m < entries.len() && #[trigger] entries[m].0@ == k;
            assert(pp[m]@ == k);
        }
        if listed(pp, k) {
            let m = choose|m: int| 0 <= m < pp.len() && pp[m]@ == k;
            assert(entries[m].0@ == k);
        }
    }
}

/// What `batch_prove` answers for the packages `pk` of a day is in order for
/// the pool, when `pk` lists the same packages.
proof fn lemma_day_counts<G: Group>(
    counts: PackageMap<u32>,
    witness: BatchWitness<Witness<G>>,
    pk: Seq<PackageId>,
    pool: Seq<PackageId>,
    members: Map<int, nat>,
    digest: int,
)
    requires
        forall|k: Seq<char>| #[trigger]
            counts@.contains_key(k) <==> exists|j: int| 0 <= j < pk.len() && pk[j]@ == k,
        forall|k: Seq<char>| #[trigger]
            counts@.contains_key(k) ==> (package_prime(k) matches Some(p) && counts@[k] == count_of(members, p)
                && witness@.contains_key(p) && (witness@[p].0 matches Some(m) ==> G::spec_mul(
                m,
                pow(p, counts@[k] as nat),
            ) == digest)),
        forall|k: Seq<char>| #![trigger listed(pk, k)] #![trigger listed(pool, k)] listed(pk, k) <==> listed(pool, k),
    ensures
        day_counts_ok::<G>(counts.entries(), pool, members, witness@, digest),
{
    reveal(day_counts_ok);
    assert(counts@ == entries_map(counts.entries()));
    assert forall|k: Seq<char>| #[trigger]
        entries_map(counts.entries()).contains_key(k) <==> exists|j: int| 0 <= j < pool.len() && pool[j]@ == k by {
        assert(counts@.contains_key(k) <==> listed(pk, k));
        assert(listed(pk, k) <==> listed(pool, k));
    }
    assert forall|k: Seq<char>| #[trigger] entries_map(counts.entries()).contains_key(k) implies (package_prime(k) matches Some(p)
        && entries_map(counts.entries())[k] == count_of(members, p) && witness@.contains_key(p) && (witness@[p].0 matches Some(m)
        ==> G::spec_mul(m, pow(p, entries_map(counts.entries())[k] as nat)) == digest)) by {
        assert(counts@.contains_key(k));
    }
}

/// The catch-up proof that `epoch` records checks out for a day that
/// started at `bod` with `pool` published.
#[verifier::opaque]
pub open spec fn epoch_catch_up_valid<G: Group>(bod: int, pool: Seq<PackageId>, epoch: Epoch<G>) -> bool {
    catch_up_valid::<G>(
        bod,
        pool,
        epoch.bod_counts(),
        epoch.bod_witness(),
        epoch.eod(),
        epoch.eod_witness(),
        epoch.bod_to_eod(),
    )
}

/// A day processed as `batch_process` does it has a catch-up proof that
/// checks out, where the start-of-day witnesses were sound, the members stay
/// pairwise coprime, the pool's packages hash to distinct primes, no
/// package of a pool of more than one was a member before, and every step of
/// the proof from the start to the end of the day was found.
proof fn lemma_batch_catch_up<G: Group>(
    d0: int,
    d1: int,
    pool: Seq<PackageId>,
    pv: Seq<Prime>,
    bod_counts: Seq<(PackageId, u32)>,
    bod_witness: Map<int, (Option<int>, int, int)>,
    eod_counts: Seq<(PackageId, u32)>,
    eod_witness: Map<int, (Option<int>, int, int)>,
    steps: Seq<(Option<(int, int, int)>, int)>,
    members0: Map<int, nat>,
    members1: Map<int, nat>,
    sound0: bool,
    sound1: bool,
)
    requires
        pv.len() == pool.len(),
        forall|j: int| 0 <= j < pool.len() ==> package_prime(pool[j]@) == Some(#[trigger] pv[j].value()),
        members1 == crate::accumulator::rsa::add_occurrences(members0, pv),
        day_counts_ok::<G>(bod_counts, pool, members0, bod_witness, d0),
        day_counts_ok::<G>(eod_counts, pool, members1, eod_witness, d1),
        sound0 && crate::accumulator::rsa::coprime_keys(members0) ==> forall|k: Seq<char>| #[trigger]
            entries_map(bod_counts).contains_key(k) ==> (package_prime(k) matches Some(p) && witness_verdict::<G>(
                d0,
                p,
                entries_map(bod_counts)[k] as nat,
                bod_witness[p],
            )),
        sound1 && crate::accumulator::rsa::coprime_keys(members1) ==> forall|k: Seq<char>| #[trigger]
            entries_map(eod_counts).contains_key(k) ==> (package_prime(k) matches Some(p) && witness_verdict::<G>(
                d1,
                p,
                entries_map(eod_counts)[k] as nat,
                eod_witness[p],
            )),
        (pv.len() == 1 || (forall|j: int| 0 <= j < pv.len() ==> !members0.contains_key(#[trigger] pv[j].value())))
            ==> (sound0 ==> sound1),
        keys_distinct(bod_counts),
        forall|p: int| #[trigger] count_of(members1, p) == count_of(members0, p) + package_occurrences(pool, p),
        forall|j: int|
            0 <= j < pv.len() ==> count_of(members0, #[trigger] pv[j].value()) + occurrences(pv, pv[j].value())
                <= u32::MAX,
        (forall|k: int| 0 <= k < steps.len() ==> (#[trigger] steps[k]).0 is Some) ==> chain_ok::<G>(steps, d1, d0),
    ensures
        sound0 && crate::accumulator::rsa::coprime_keys(members1) && primes_distinct(pool) && (pool.len() == 1
            || forall|j: int| 0 <= j < pool.len() ==> !members0.contains_key(package_prime(#[trigger] pool[j]@).unwrap()))
            && (forall|k: int| 0 <= k < steps.len() ==> (#[trigger] steps[k]).0 is Some) ==> catch_up_valid::<G>(
            d0,
            pool,
            bod_counts,
            bod_witness,
            d1,
            eod_witness,
            steps,
        ),
{
    if sound0 && crate::accumulator::rsa::coprime_keys(members1) && primes_distinct(pool) && (pool.len() == 1
        || forall|j: int| 0 <= j < pool.len() ==> !members0.contains_key(package_prime(#[trigger] pool[j]@).unwrap()))
        && (forall|k: int| 0 <= k < steps.len() ==> (#[trigger] steps[k]).0 is Some) {
        lemma_coprime_keys_add(members0, pv);
        if pool.len() != 1 {
            assert forall|j: int| 0 <= j < pv.len() implies !members0.contains_key(#[trigger] pv[j].value()) by {
                assert(package_prime(pool[j]@) == Some(pv[j].value()));
            }
        }
        assert(sound1);
        assert forall|j: int| 0 <= j < pool.len() implies (package_prime(#[trigger] pool[j]@) matches Some(p)
            && count_of(members1, p) <= u32::MAX) by {
            assert(package_prime(pool[j]@) == Some(pv[j].value()));
            lemma_package_occurrences(pool, pv, pv[j].value());
        }
        lemma_day_catch_up::<G>(d0, pool, bod_counts, bod_witness, d1, eod_counts, eod_witness, steps, members0, members1);
    }
}

/// Each package of `pool` once, in the order of first publication.
fn distinct_packages(pool: &Vec<PackageId>) -> (r: Vec<PackageId>)
    ensures
        forall|k: Seq<char>| #![trigger listed(r@, k)] #![trigger listed(pool@, k)] listed(r@, k) <==> listed(pool@, k),
        forall|m: int| 0 <= m < r@.len() ==> listed(pool@, #[trigger] r@[m]@),
{
    let mut pool_counts: PackageMap<usize> = PackageMap::new();
    let mut i: usize = 0;
    while i < pool.len()
        invariant
            i <= pool@.len(),
            forall|k: Seq<char>| #[trigger]
                pool_counts@.contains_key(k) ==> pool_counts@[k] <= i && exists|j: int|
                    0 <= j < i && pool@[j]@ == k,
            forall|j: int| 0 <= j < i ==> pool_counts@.contains_key(#[trigger] pool@[j]@),
        decreases pool@.len() - i,
    {
        let package = &pool[i];
        let count = match pool_counts.get(package) {
            Some(c) => c + 1,
            None => 1,
        };
        let ghost before = pool_counts@;
        pool_counts.insert(package.duplicate(), count);
        proof {
            assert forall|k: Seq<char>| #[trigger] pool_counts@.contains_key(k) implies pool_counts@[k] <= i + 1
                && exists|j: int| 0 <= j < i + 1 && pool@[j]@ == k by {
                if k != package@ {
                    assert(before.contains_key(k));
                    let j = choose|j: int| 0 <= j < i && pool@[j]@ == k;
                    assert(0 <= j < i + 1 && pool@[j]@ == k);
                } else {
                    assert(pool@[i as int]@ == k);
                }
            }
            assert forall|j: int| 0 <= j < i + 1 implies pool_counts@.contains_key(
                #[trigger] pool@[j]@,
            ) by {
                if j < i {
                    assert(before.contains_key(pool@[j]@));
                }
            }
        }
        i += 1;
    }
    let mut pool_packages: Vec<PackageId> = Vec::new();
    let n = pool_counts.len();
    let mut i: usize = 0;
    while i < n
        invariant
            n == pool_counts.entries().len(),
            i <= n,
            pool_packages@.len() == i,
            forall|k: Seq<char>| #[trigger]
                pool_counts@.contains_key(k) ==> exists|j: int| 0 <= j < pool@.len() && pool@[j]@ == k,
            forall|m: int| 0 <= m < i ==> pool_counts@.contains_key(#[trigger] pool_packages@[m]@),
            forall|m: int| 0 <= m < i ==> #[trigger] pool_packages@[m]@ == pool_counts.entries()[m].0@,
        decreases n - i,
    {
        pool_packages.push(pool_counts.key_at(i).duplicate());
        i += 1;
    }
    proof {
        lemma_pool_packages(pool@, pool_counts.entries(), pool_packages@);
        assert forall|m: int| 0 <= m < pool_packages@.len() implies listed(pool@, #[trigger] pool_packages@[m]@) by {
            assert(pool_counts@.contains_key(pool_packages@[m]@));
        }
    }
    pool_packages
}

/// Two packages of `pool` with the same prime are the same package.
pub open spec fn primes_distinct(pool: Seq<PackageId>) -> bool {
    forall|i: int, j: int|
        0 <= i < pool.len() && 0 <= j < pool.len() && #[trigger] package_prime(pool[i]@) == #[trigger] package_prime(
            pool[j]@,
        ) ==> pool[i]@ == pool[j]@
}

/// Where no other package of `pool` shares its prime `p`, `k` occurs in the
/// pool as often as `p` does.
proof fn lemma_pool_count_occurrences(pool: Seq<PackageId>, k: Seq<char>, p: int)
    requires
        package_prime(k) == Some(p),
        forall|j: int| 0 <= j < pool.len() && package_prime(#[trigger] pool[j]@) == Some(p) ==> pool[j]@ == k,
    ensures
        pool_count(pool, k) == package_occurrences(pool, p),
    decreases pool.len(),
{
    if pool.len() > 0 {
        let d = pool.drop_last();
        assert forall|j: int| 0 <= j < d.len() && package_prime(#[trigger] d[j]@) == Some(p) implies d[j]@ == k by {
            assert(d[j] == pool[j]);
        }
        lemma_pool_count_occurrences(d, k, p);
        assert(pool[pool.len() - 1] == pool.last());
    }
}

/// Entries whose counts are those of `members` hash to the map from each
/// of their primes to its count.
proof fn lemma_hashed_counts_of(entries: Seq<(PackageId, u32)>, members: Map<int, nat>)
    requires
        forall|i: int|
            0 <= i < entries.len() ==> (package_prime(#[trigger] entries[i].0@) matches Some(p) && entries[i].1
                == count_of(members, p)),
    ensures
        hashed_counts(entries) matches Some(m) && forall|p: int| #[trigger]
            m.contains_key(p) ==> m[p] == count_of(members, p) && exists|i: int|
                0 <= i < entries.len() && package_prime(entries[i].0@) == Some(p),
    decreases entries.len(),
{
    if entries.len() > 0 {
        let d = entries.drop_last();
        assert forall|i: int| 0 <= i < d.len() implies (package_prime(#[trigger] d[i].0@) matches Some(p) && d[i].1
            == count_of(members, p)) by {
            assert(d[i] == entries[i]);
        }
        lemma_hashed_counts_of(d, members);
        let last = entries.len() - 1;
        assert(entries[last] == entries.last());
        assert(package_prime(entries[last].0@) is Some);
        let m0 = hashed_counts(d).unwrap();
        let pl = package_prime(entries.last().0@).unwrap();
        let m = hashed_counts(entries).unwrap();
        assert(m == m0.insert(pl, entries.last().1));
        assert forall|p: int| #[trigger] m.contains_key(p) implies m[p] == count_of(members, p) && exists|i: int|
            0 <= i < entries.len() && package_prime(entries[i].0@) == Some(p) by {
            if p == pl {
                assert(package_prime(entries[last].0@) == Some(p));
            } else {
                assert(m0.contains_key(p));
                let i = choose|i: int| 0 <= i < d.len() && package_prime(d[i].0@) == Some(p);
                assert(d[i] == entries[i]);
            }
        }
    }
}

/// Raising the counts of distinct entries once for each time their package
/// occurs in `pool`, every package of the pool being there and no count
/// overflowing.
proof fn lemma_bump_all(entries: Seq<(PackageId, u32)>, pool: Seq<PackageId>)
    requires
        keys_distinct(entries),
        forall|j: int| 0 <= j < pool.len() ==> exists|i: int| 0 <= i < entries.len() && entries[i].0@ == #[trigger] pool[j]@,
        forall|i: int| 0 <= i < entries.len() ==> #[trigger] entries[i].1 + pool_count(pool, entries[i].0@) <= u32::MAX,
    ensures
        bump_all(entries, pool) matches Some(c) && c.len() == entries.len() && forall|i: int|
            0 <= i < entries.len() ==> #[trigger] c[i].0 == entries[i].0 && c[i].1 == entries[i].1 + pool_count(
                pool,
                entries[i].0@,
            ),
    decreases pool.len(),
{
    if pool.len() == 0 {
        assert forall|i: int| 0 <= i < entries.len() implies #[trigger] entries[i].0 == entries[i].0 && entries[i].1
            == entries[i].1 + pool_count(pool, entries[i].0@) by {}
    } else {
        let d = pool.drop_last();
        assert forall|j: int| 0 <= j < d.len() implies exists|i: int| 0 <= i < entries.len() && entries[i].0@ == #[trigger] d[j]@ by {
            assert(d[j] == pool[j]);
            assert(exists|i: int| 0 <= i < entries.len() && entries[i].0@ == pool[j]@);
        }
        assert forall|i: int| 0 <= i < entries.len() implies #[trigger] entries[i].1 + pool_count(d, entries[i].0@) <= u32::MAX by {
            assert(entries[i].1 + pool_count(pool, entries[i].0@) <= u32::MAX);
        }
        lemma_bump_all(entries, d);
        let c0 = bump_all(entries, d).unwrap();
        let k = pool.last()@;
        assert(pool[pool.len() - 1] == pool.last());
        let i0 = choose|i: int| 0 <= i < entries.len() && entries[i].0@ == pool[pool.len() - 1]@;
        assert(c0[i0].0@ == k);
        assert(exists|i: int| 0 <= i < c0.len() && #[trigger] c0[i].0@ == k);
        let i = choose|i: int| 0 <= i < c0.len() && #[trigger] c0[i].0@ == k;
        assert(entries[i].0@ == k);
        assert(i == i0);
        assert(entries[i].1 + pool_count(pool, entries[i].0@) <= u32::MAX);
        assert(pool_count(pool, k) == pool_count(d, k) + 1);
        assert(c0[i].0 == entries[i].0);
        assert(c0[i].1 != u32::MAX);
        let c = c0.update(i, (c0[i].0, (c0[i].1 + 1) as u32));
        assert(bump_all(entries, pool) == Some(c));
        assert forall|ii: int| 0 <= ii < entries.len() implies #[trigger] c[ii].0 == entries[ii].0 && c[ii].1
            == entries[ii].1 + pool_count(pool, entries[ii].0@) by {
            assert(c0[ii].0 == entries[ii].0);
            if ii != i {
                assert(entries[ii].0@ != k);
                assert(pool_count(pool, entries[ii].0@) == pool_count(d, entries[ii].0@));
            }
        }
    }
}

/// A day's catch-up proof checks out when its start-of-day and end-of-day
/// witnesses do, the pool's packages hash to distinct primes, and the day
/// raised each count by the package's publications.
proof fn lemma_day_catch_up<G: Group>(
    bod: int,
    pool: Seq<PackageId>,
    counts: Seq<(PackageId, u32)>,
    bod_witness: Map<int, (Option<int>, int, int)>,
    eod: int,
    eod_counts: Seq<(PackageId, u32)>,
    eod_witness: Map<int, (Option<int>, int, int)>,
    steps: Seq<(Option<(int, int, int)>, int)>,
    old_members: Map<int, nat>,
    new_members: Map<int, nat>,
)
    requires
        day_counts_ok::<G>(counts, pool, old_members, bod_witness, bod),
        forall|k: Seq<char>| #[trigger]
            entries_map(counts).contains_key(k) ==> (package_prime(k) matches Some(p) && witness_verdict::<G>(
                bod,
                p,
                entries_map(counts)[k] as nat,
                bod_witness[p],
            )),
        day_counts_ok::<G>(eod_counts, pool, new_members, eod_witness, eod),
        forall|k: Seq<char>| #[trigger]
            entries_map(eod_counts).contains_key(k) ==> (package_prime(k) matches Some(p) && witness_verdict::<G>(
                eod,
                p,
                entries_map(eod_counts)[k] as nat,
                eod_witness[p],
            )),
        keys_distinct(counts),
        primes_distinct(pool),
        forall|p: int| #[trigger] count_of(new_members, p) == count_of(old_members, p) + package_occurrences(pool, p),
        forall|j: int|
            0 <= j < pool.len() ==> (package_prime(#[trigger] pool[j]@) matches Some(p) && count_of(new_members, p)
                <= u32::MAX),
        chain_ok::<G>(steps, eod, bod),
    ensures
        catch_up_valid::<G>(bod, pool, counts, bod_witness, eod, eod_witness, steps),
{
    reveal(day_counts_ok);
    // The start of the day.
    assert forall|i: int| 0 <= i < counts.len() implies (package_prime(#[trigger] counts[i].0@) matches Some(p)
        && counts[i].1 == count_of(old_members, p)) by {
        crate::authenticator::package_map::lemma_entries_map_index(counts, i);
    }
    lemma_hashed_counts_of(counts, old_members);
    let m = hashed_counts(counts).unwrap();
    assert forall|p: int| #[trigger] m.contains_key(p) implies bod_witness.contains_key(p) && witness_verdict::<G>(
        bod,
        p,
        m[p] as nat,
        bod_witness[p],
    ) by {
        let i = choose|i: int| 0 <= i < counts.len() && package_prime(counts[i].0@) == Some(p);
        crate::authenticator::package_map::lemma_entries_map_index(counts, i);
        assert(entries_map(counts).contains_key(counts[i].0@));
    }
    // Every package of the pool has an entry, each key is a package of the
    // pool, and it occurs as often as its prime.
    assert forall|j: int| 0 <= j < pool.len() implies exists|i: int|
        0 <= i < counts.len() && counts[i].0@ == #[trigger] pool[j]@ by {
        assert(exists|jj: int| 0 <= jj < pool.len() && pool[jj]@ == pool[j]@);
        assert(entries_map(counts).contains_key(pool[j]@));
        crate::authenticator::package_map::lemma_entries_map_dom(counts, pool[j]@);
    }
    assert forall|i: int| 0 <= i < counts.len() implies (package_prime(#[trigger] counts[i].0@) matches Some(p)
        && pool_count(pool, counts[i].0@) == package_occurrences(pool, p) && count_of(new_members, p) <= u32::MAX) by {
        crate::authenticator::package_map::lemma_entries_map_index(counts, i);
        let k = counts[i].0@;
        assert(entries_map(counts).contains_key(k));
        let j0 = choose|j: int| 0 <= j < pool.len() && pool[j]@ == k;
        let p = package_prime(k).unwrap();
        assert(package_prime(pool[j0]@) matches Some(q) && count_of(new_members, q) <= u32::MAX);
        assert forall|j: int| 0 <= j < pool.len() && package_prime(#[trigger] pool[j]@) == Some(p) implies pool[j]@
            == k by {
            assert(package_prime(pool[j]@) == package_prime(pool[j0]@));
        }
        lemma_pool_count_occurrences(pool, k, p);
    }
    assert forall|i: int| 0 <= i < counts.len() implies #[trigger] counts[i].1 + pool_count(pool, counts[i].0@)
        <= u32::MAX by {
        let p = package_prime(counts[i].0@).unwrap();
        assert(count_of(new_members, p) == count_of(old_members, p) + package_occurrences(pool, p));
    }
    // The end of the day.
    lemma_bump_all(counts, pool);
    let c = bump_all(counts, pool).unwrap();
    assert forall|i: int| 0 <= i < c.len() implies (package_prime(#[trigger] c[i].0@) matches Some(p) && c[i].1
        == count_of(new_members, p)) by {
        assert(c[i].0 == counts[i].0);
        let p = package_prime(counts[i].0@).unwrap();
        assert(count_of(new_members, p) == count_of(old_members, p) + package_occurrences(pool, p));
    }
    lemma_hashed_counts_of(c, new_members);
    let m2 = hashed_counts(c).unwrap();
    assert forall|p: int| #[trigger] m2.contains_key(p) implies eod_witness.contains_key(p) && witness_verdict::<G>(
        eod,
        p,
        m2[p] as nat,
        eod_witness[p],
    ) by {
        let i = choose|i: int| 0 <= i < c.len() && package_prime(c[i].0@) == Some(p);
        assert(c[i].0 == counts[i].0);
        let k = counts[i].0@;
        crate::authenticator::package_map::lemma_entries_map_index(counts, i);
        assert(entries_map(counts).contains_key(k));
        assert(exists|j: int| 0 <= j < pool.len() && pool[j]@ == k);
        assert(entries_map(eod_counts).contains_key(k));
    }
}

/// The revisions `counts` of a day name each package of `pool` once, at
/// its count in `members`, with a witness in `witness` whose membership
/// part checks out against `digest`.
#[verifier::opaque]
pub open spec fn day_counts_ok<G: Group>(
    counts: Seq<(PackageId, u32)>,
    pool: Seq<PackageId>,
    members: Map<int, nat>,
    witness: Map<int, (Option<int>, int, int)>,
    digest: int,
) -> bool {
    &&& forall|k: Seq<char>| #[trigger]
        entries_map(counts).contains_key(k) <==> exists|j: int| 0 <= j < pool.len() && pool[j]@ == k
    &&& forall|k: Seq<char>| #[trigger]
        entries_map(counts).contains_key(k) ==> (package_prime(k) matches Some(p) && entries_map(counts)[k]
            == count_of(members, p) && witness.contains_key(p) && (witness[p].0 matches Some(m) ==> G::spec_mul(
            m,
            pow(p, entries_map(counts)[k] as nat),
        ) == digest))
}

pub open spec fn pool_no_rollback<G: Group>(
    bod: Option<int>,
    pool: Seq<PackageId>,
    rest: Seq<PackageId>,
    catch_up: Option<CatchUpToEODProof<G>>,
    latest: Option<(int, Seq<(Option<(int, int, int)>, int)>)>,
) -> bool {
    match (catch_up, latest) {
        (Some(c), Some((d, steps))) => catch_up_valid::<G>(
            bod.unwrap(),
            pool + rest,
            c.bod_counts(),
            c.bod_witness(),
            c.eod(),
            c.eod_witness(),
            c.bod_to_eod(),
        ) && chain_ok::<G>(steps, d, c.eod()),
        (Some(c), None) => catch_up_valid::<G>(
            bod.unwrap(),
            pool + rest,
            c.bod_counts(),
            c.bod_witness(),
            c.eod(),
            c.eod_witness(),
            c.bod_to_eod(),
        ),
        (None, None) => true,
        (None, Some(_)) => false,
    }
}

impl<G: Group + DataSized> super::PoolAuthenticator for PoolAuthenticator<G> {
    /// The history has room for one more batch.
    /// The pool holds at least one publication.
    open spec fn can_batch_process(&self) -> bool {
        &&& self.wf()
        &&& self.pool().len() > 0
        &&& self.inner().history().len() + 1 < isize::MAX
    }

    /// Ends the day: adds the pool to the accumulator and records the day
    /// with the revisions of its packages at its start and end, their
    /// witnesses, and the proof that its end extends its start.
    #[verifier::spinoff_prover]
    #[verifier::rlimit(100)]
    fn batch_process(&mut self)
        ensures
            final(self).wf(),
            forall|p: int| #[trigger]
                count_of(final(self).inner().members(), p) == count_of(old(self).inner().members(), p)
                    + package_occurrences(old(self).pool(), p),
            final(self).pool().len() == 0,
            final(self).bound() == old(self).bound(),
            final(self).epochs().len() == old(self).epochs().len() + 1,
            forall|i: int| 0 <= i < old(self).epochs().len() ==> #[trigger] final(self).epochs()[i] == old(self).epochs()[i],
            final(self).epochs().last().packages() == old(self).pool(),
            final(self).epochs().last().eod() == final(self).inner().digest_value(),
            final(self).epoch_indexes() == old(self).epoch_indexes().insert(
                old(self).inner().digest_value(),
                old(self).epochs().len() as usize,
            ),
            final(self).inner().history().len() == old(self).inner().history().len() + 1,
            final(self).inner().history().last().1 == final(self).inner().digest_value(),
            day_counts_ok::<G>(
                final(self).epochs().last().bod_counts(),
                old(self).pool(),
                old(self).inner().members(),
                final(self).epochs().last().bod_witness(),
                old(self).inner().digest_value(),
            ),
            day_counts_ok::<G>(
                final(self).epochs().last().eod_counts(),
                old(self).pool(),
                final(self).inner().members(),
                final(self).epochs().last().eod_witness(),
                final(self).inner().digest_value(),
            ),
            (forall|k: int| 0 <= k < final(self).epochs().last().bod_to_eod().len()
                ==> (#[trigger] final(self).epochs().last().bod_to_eod()[k]).0 is Some) ==> chain_ok::<G>(
                final(self).epochs().last().bod_to_eod(),
                final(self).epochs().last().eod(),
                old(self).inner().digest_value(),
            ),
            old(self).inner().proofs_sound() && final(self).inner().coprime_members() && primes_distinct(old(self).pool())
                && (old(self).pool().len() == 1 || forall|j: int|
                0 <= j < old(self).pool().len() ==> !old(self).inner().members().contains_key(
                    package_prime(#[trigger] old(self).pool()[j]@).unwrap(),
                )) && (forall|k: int| 0 <= k < final(self).epochs().last().bod_to_eod().len()
                ==> (#[trigger] final(self).epochs().last().bod_to_eod()[k]).0 is Some) ==> epoch_catch_up_valid::<G>(
                old(self).inner().digest_value(),
                old(self).pool(),
                final(self).epochs().last(),
            ),
    {
        let ghost pool0 = self.current_pool@;
        let ghost members0 = self.inner.members();
        // How often each package occurs in the pool.
        let pool_packages = distinct_packages(&self.current_pool);
        proof {
            lemma_wf_history(&self.inner.acc);
            assert forall|m: int| 0 <= m < pool_packages@.len() implies match #[trigger] package_prime(
                pool_packages@[m]@,
            ) {
                Some(p) => count_of(self.inner.members(), p) > 0 || gcd_ext(self.inner.exponent(), p).0 == 1,
                None => false,
            } by {
                assert(listed(pool0, pool_packages@[m]@));
                let j = choose|j: int| 0 <= j < pool0.len() && pool0[j]@ == pool_packages@[m]@;
                assert(package_prime(pool0[j]@) is Some);
            }
        }
        let bod_digest = self.inner.acc.digest().duplicate();
        let ghost inner0 = self.inner;
        let dup = duplicate_packages(&pool_packages);
        let (bod_package_counts, bod_batch_witness) = super::BatchAuthenticator::batch_prove(
            &mut self.inner,
            dup,
        );
        let ghost bod_counts = bod_package_counts.entries();
        let ghost bod_witness = bod_batch_witness@;
        proof {
            lemma_day_counts::<G>(
                bod_package_counts,
                bod_batch_witness,
                dup@,
                pool0,
                inner0.members(),
                inner0.digest_value(),
            );
            assert(bod_package_counts@ == entries_map(bod_counts));
            assert(inner0.proofs_sound() && inner0.coprime_members() ==> forall|k: Seq<char>| #[trigger]
                entries_map(bod_counts).contains_key(k) ==> (package_prime(k) matches Some(p) && witness_verdict::<G>(
                    inner0.digest_value(),
                    p,
                    entries_map(bod_counts)[k] as nat,
                    bod_witness[p],
                )));
        }
        let primes = hash_packages(&self.current_pool).unwrap();
        let ghost pv = primes@;
        proof {
            lemma_wf_history(&self.inner.acc);
            assert forall|j: int| 0 <= j < pv.len() implies count_of(self.inner.acc.members(), #[trigger] pv[j].value())
                + occurrences(pv, pv[j].value()) <= u32::MAX by {
                lemma_package_occurrences(pool0, pv, pv[j].value());
                assert(count_of(members0, pv[j].value()) + package_occurrences(pool0, pv[j].value()) <= self.bound@);
            }
            assert forall|j: int| 0 <= j < pv.len() implies (count_of(self.inner.acc.members(), #[trigger] pv[j].value())
                > 0 || self.inner.acc.cached_nonmember_witnesses().contains_key(pv[j].value())) by {
                assert(package_prime(pool0[j]@) == Some(pv[j].value()));
            }
        }
        let ghost h0 = self.inner.acc.history();
        let ghost d0 = self.inner.acc.digest_value();
        let appended = self.inner.acc.increment_batch(primes);
        let ghost d1 = self.inner.acc.digest_value();
        let bod_to_eod = match appended {
            Some(w) => w,
            None => AppendOnlyWitness::default(),
        };
        proof {
            assert((forall|k: int| 0 <= k < bod_to_eod@.len() ==> (#[trigger] bod_to_eod@[k]).0 is Some)
                ==> chain_ok::<G>(bod_to_eod@, d1, d0));
        }
        proof {
            lemma_chained_push::<G>(h0, crate::accumulator::rsa::prime_product(pv));
            lemma_wf_history(&self.inner.acc);
            assert forall|m: int| 0 <= m < pool_packages@.len() implies match #[trigger] package_prime(
                pool_packages@[m]@,
            ) {
                Some(p) => count_of(self.inner.members(), p) > 0 || gcd_ext(self.inner.exponent(), p).0 == 1,
                None => false,
            } by {
                assert(listed(pool0, pool_packages@[m]@));
                let j = choose|j: int| 0 <= j < pool0.len() && pool0[j]@ == pool_packages@[m]@;
                assert(package_prime(pool0[j]@) == Some(pv[j].value()));
                lemma_occurs_at(pv, j);
            }
        }
        let eod_digest = self.inner.acc.digest().duplicate();
        let ghost inner1 = self.inner;
        let ghost pp = pool_packages@;
        let (eod_package_counts, eod_batch_witness) = super::BatchAuthenticator::batch_prove(
            &mut self.inner,
            pool_packages,
        );
        let ghost eod_counts = eod_package_counts.entries();
        let ghost eod_witness = eod_batch_witness@;
        proof {
            lemma_day_counts::<G>(
                eod_package_counts,
                eod_batch_witness,
                pp,
                pool0,
                inner1.members(),
                inner1.digest_value(),
            );
            assert(eod_package_counts@ == entries_map(eod_counts));
            assert(inner1.proofs_sound() && inner1.coprime_members() ==> forall|k: Seq<char>| #[trigger]
                entries_map(eod_counts).contains_key(k) ==> (package_prime(k) matches Some(p) && witness_verdict::<G>(
                    inner1.digest_value(),
                    p,
                    entries_map(eod_counts)[k] as nat,
                    eod_witness[p],
                )));
        }
        let mut packages: Vec<PackageId> = Vec::new();
        std::mem::swap(&mut packages, &mut self.current_pool);
        let epoch = Epoch {
            packages,
            eod_digest,
            bod_package_counts,
            eod_package_counts,
            bod_package_membership_witness: bod_batch_witness,
            eod_package_membership_witness: eod_batch_witness,
            bod_to_eod,
        };
        let len = self.past_epochs.len();
        self.epoch_idxs_by_digest.insert(bod_digest, len);
        self.past_epochs.push(epoch);
        proof {
            let last = self.past_epochs@.last();
            assert(last.bod_counts() == bod_counts);
            assert(last.eod_counts() == eod_counts);
            assert(last.bod_witness() == bod_witness);
            assert(last.eod_witness() == eod_witness);
            assert(last.bod_to_eod() == bod_to_eod@);
            assert forall|p: int| #[trigger]
                count_of(self.inner.members(), p) == count_of(members0, p) + package_occurrences(pool0, p) by {
                lemma_package_occurrences(pool0, pv, p);
            }
            assert forall|p: int| #[trigger]
                count_of(self.inner.members(), p) + package_occurrences(self.current_pool@, p) <= self.bound@ by {
                lemma_package_occurrences(pool0, pv, p);
                assert(count_of(members0, p) + package_occurrences(pool0, p) <= self.bound@);
            }
        }
        proof {
            assert(pv.len() == pool0.len());
            assert(self.inner.members() == crate::accumulator::rsa::add_occurrences(members0, pv));
            assert(inner0.coprime_members() == crate::accumulator::rsa::coprime_keys(members0));
            assert(inner1.coprime_members() == crate::accumulator::rsa::coprime_keys(self.inner.members()));
            assert(inner0.digest_value() == d0);
            assert(inner1.digest_value() == d1);
            lemma_batch_catch_up::<G>(
                d0,
                d1,
                pool0,
                pv,
                bod_counts,
                bod_witness,
                eod_counts,
                eod_witness,
                bod_to_eod@,
                members0,
                self.inner.members(),
                inner0.proofs_sound(),
                inner1.proofs_sound(),
            );
            reveal(epoch_catch_up_valid);
        }
    }
}

impl<G: Group + DataSized> super::Authenticator for PoolAuthenticator<G> {
    type ClientSnapshot = PoolSnapshot<G>;
    type Id = Option<(Digest<G>, usize)>;
    type Diff = PoolDiff<G>;
    type Proof = PoolWitness<G>;

    /// A client at the current digest is at most as far as the pool; a
    /// client at an older digest holds the start of an epoch before the
    /// last one, is at most as far as its packages, and, two days back or
    /// more, the end of its next epoch has a path to the current digest.
    open spec fn can_refresh(&self, snapshot_id: Option<(Digest<G>, usize)>) -> bool {
        &&& self.wf()
        &&& match snapshot_id {
            None => true,
            Some((d, idx)) => d.value() == self.inner().digest_value() || {
                &&& self.epoch_indexes().contains_key(d.value())
                &&& self.epoch_indexes()[d.value()] + 1 != self.epochs().len()
                &&& idx <= self.epochs()[self.epoch_indexes()[d.value()] as int].packages().len()
                &&& self.epoch_indexes()[d.value()] + 2 != self.epochs().len() ==> self.inner().can_prove_from(
                    self.epochs()[self.epoch_indexes()[d.value()] + 1].eod(),
                )
            },
        }
    }

    /// The bound has room for one more.
    open spec fn can_publish(&self, package: Seq<char>) -> bool {
        &&& self.wf()
        &&& self.bound() + 1 < u32::MAX
    }

    /// The client names its snapshot, and the package was added before
    /// today or published today.
    open spec fn can_request(&self, snapshot_id: Self::Id, package: Seq<char>) -> bool {
        &&& self.wf()
        &&& snapshot_id is Some
        &&& match package_prime(package) {
            Some(p) => count_of(self.inner().members(), p) > 0 || pool_count(self.pool(), package) > 0,
            None => false,
        }
    }

    /// Every package hashes to a prime, and no count can overflow.
    open spec fn can_import(packages: Seq<PackageId>) -> bool {
        &&& packages.len() < u32::MAX
        &&& forall|j: int| 0 <= j < packages.len() ==> #[trigger] package_prime(packages[j]@) is Some
    }

    /// A proof for the end of a day comes only to a client with a digest.
    open spec fn can_apply(snapshot: PoolSnapshot<G>, diff: PoolDiff<G>) -> bool {
        diff.catch_up() is Some ==> snapshot.digest_view() is Some
    }

    open spec fn can_check(snapshot: PoolSnapshot<G>, diff: PoolDiff<G>) -> bool {
        diff.catch_up() is Some ==> snapshot.digest_view() is Some
    }

    open spec fn can_verify(snapshot: PoolSnapshot<G>, package: Seq<char>) -> bool {
        true
    }

    open spec fn spec_cdn_size(&self) -> nat {
        self.served_size()
    }

    fn name() -> (r: &'static str)
        ensures
            r@ == "rsa_pool"@,
    {
        "rsa_pool"
    }

    fn batch_import(packages: Vec<PackageId>) -> (r: Self)
        ensures
            r.wf(),
            forall|p: int| #[trigger]
                count_of(r.inner().members(), p) == package_occurrences(packages@, p),
            r.epochs().len() == 1,
            r.epochs()[0].packages() == packages@,
            r.pool().len() == 0,
    {
        let mut inner = Authenticator::<G>::batch_import(duplicate_packages(&packages));
        proof {
            assert forall|j: int| 0 <= j < packages@.len() implies match #[trigger] package_prime(packages@[j]@) {
                Some(p) => count_of(inner.members(), p) > 0 || gcd_ext(inner.exponent(), p).0 == 1,
                None => false,
            } by {
                let p = package_prime(packages@[j]@).unwrap();
                lemma_package_occurs(packages@, j, p);
            }
        }
        let (eod_package_counts, eod_package_membership_witness) = super::BatchAuthenticator::batch_prove(
            &mut inner,
            duplicate_packages(&packages),
        );
        let epoch = Epoch {
            packages,
            eod_digest: Digest::default(),
            bod_package_counts: PackageMap::new(),
            eod_package_counts,
            // The witnesses at the start of the import stand in for the
            // missing day before it.
            bod_package_membership_witness: eod_package_membership_witness.duplicate(),
            eod_package_membership_witness,
            bod_to_eod: AppendOnlyWitness::default(),
        };
        let mut epoch_idxs_by_digest: KeyedMap<Digest<G>, usize> = KeyedMap::new();
        epoch_idxs_by_digest.insert(epoch.eod_digest.duplicate(), 0);
        let ghost n = epoch.packages@.len();
        let mut past_epochs: Vec<Epoch<G>> = Vec::new();
        past_epochs.push(epoch);
        let r = PoolAuthenticator {
            inner,
            past_epochs,
            epoch_idxs_by_digest,
            current_pool: Vec::new(),
            bound: Ghost(n),
        };
        proof {
            assert forall|p: int| #[trigger]
                count_of(r.inner.members(), p) + package_occurrences(r.current_pool@, p) <= r.bound@ by {
                lemma_package_occurrences_bound(r.past_epochs@[0].packages@, p);
            }
        }
        r
    }

    fn refresh_metadata(&self, snapshot_id: Option<(Digest<G>, usize)>) -> (r: Option<PoolDiff<G>>)
        ensures
            match snapshot_id {
                None => r matches Some(d) && d.initial_view() == Some(self.inner().digest_value())
                    && d.latest_pool() == self.pool() && d.rest().len() == 0 && d.catch_up() is None
                    && d.latest() is None,
                Some((s, idx)) => if s.value() == self.inner().digest_value() {
                    if idx == self.pool().len() {
                        r is None
                    } else {
                        r matches Some(d) && d.rest() == self.pool() && d.catch_up() is None && d.latest() is None
                            && d.latest_pool().len() == 0 && d.initial_view() is None
                    }
                } else {
                    let i = self.epoch_indexes()[s.value()] as int;
                    let e = self.epochs()[i];
                    &&& r matches Some(d)
                    &&& d.rest() == e.packages().subrange(idx as int, e.packages().len() as int)
                    &&& d.latest_pool() == self.pool()
                    &&& d.initial_view() is None
                    &&& d.catch_up() matches Some(c) && c.bod_counts() == e.bod_counts() && c.bod_witness()
                        == e.bod_witness() && c.eod_witness() == e.eod_witness() && c.bod_to_eod()
                        == e.bod_to_eod()
                    &&& if i + 2 == self.epochs().len() {
                        &&& d.catch_up().unwrap().eod() == self.inner().digest_value()
                        &&& d.latest() is None
                    } else {
                        let next = self.epochs()[i + 1].eod();
                        &&& d.catch_up().unwrap().eod() == next
                        &&& d.latest() == Some(
                            (
                                self.inner().digest_value(),
                                read_steps::<G>(
                                    read_spec::<HistoryEntry<G>>(
                                        self.inner().history(),
                                        self.inner().digest_indexes()[next] as nat,
                                        (self.inner().history().len() - 1) as nat,
                                    ),
                                ),
                            ),
                        )
                    }
                },
            },
    {
        let (digest, id_idx) = match snapshot_id {
            None => {
                let diff = super::Authenticator::refresh_metadata(&self.inner, None).unwrap();
                return Some(PoolDiff::initial(diff.digest, duplicate_packages(&self.current_pool)));
            },
            Some(id) => id,
        };
        if self.inner.acc.digest().same(&digest) {
            if id_idx == self.current_pool.len() {
                return None;
            }
            return Some(PoolDiff::for_current_day(duplicate_packages(&self.current_pool)));
        }
        let epoch_idx = *self.epoch_idxs_by_digest.get(&digest).unwrap();
        let epoch = &self.past_epochs[epoch_idx];
        let rest_of_current_day = packages_from(&epoch.packages, id_idx);
        let remaining = self.past_epochs.len() - epoch_idx;
        if remaining == 2 {
            // one day behind
            let next_digest = self.inner.acc.digest().duplicate();
            let current_day_final_digest = CatchUpToEODProof::from_epoch(epoch.duplicate(), next_digest);
            Some(
                PoolDiff::for_next_day(
                    rest_of_current_day,
                    current_day_final_digest,
                    duplicate_packages(&self.current_pool),
                ),
            )
        } else {
            // more than one day behind: the latest digest extends the end of
            // the next day
            let next_digest = &self.past_epochs[epoch_idx + 1].eod_digest;
            let append_only_witness = self.inner.acc.prove_append_only(next_digest);
            let latest_digest = (self.inner.acc.digest().duplicate(), append_only_witness);
            Some(
                PoolDiff::for_latter_day(
                    rest_of_current_day,
                    CatchUpToEODProof::from_epoch(epoch.duplicate(), next_digest.duplicate()),
                    latest_digest,
                    duplicate_packages(&self.current_pool),
                ),
            )
        }
    }

    fn get_metadata(&self) -> (r: PoolSnapshot<G>)
        ensures
            r.digest_view() == Some(self.inner().digest_value()),
            r.pool() == self.pool(),
    {
        PoolSnapshot {
            inner: Snapshot::new(self.inner.acc.digest().duplicate()),
            pool: duplicate_packages(&self.current_pool),
        }
    }

    fn publish(&mut self, package: PackageId)
        ensures
            final(self).wf(),
            final(self).inner().members() == old(self).inner().members(),
            final(self).inner().digest_value() == old(self).inner().digest_value(),
            final(self).inner().history() == old(self).inner().history(),
            final(self).epochs() == old(self).epochs(),
            match package_prime(package@) {
                Some(p) => if count_of(old(self).inner().members(), p) > 0 || gcd_ext(
                    old(self).inner().exponent(),
                    p,
                ).0 == 1 {
                    final(self).pool() == old(self).pool().push(package)
                } else {
                    final(self).pool() == old(self).pool()
                },
                None => final(self).pool() == old(self).pool(),
            },
    {
        // A new package needs a witness of its absence from the digest of
        // the day; computing it caches it.
        let value = match hash_package(&package) {
            Ok(v) => v,
            Err(_) => {
                return;
            },
        };
        let ghost pool0 = self.current_pool@;
        let cached = self.inner.acc.prove_nonmember(&value);
        if cached.is_none() && self.inner.acc.get(&value) == 0 {
            return;
        }
        self.current_pool.push(package);
        self.bound = Ghost(self.bound@ + 1);
        proof {
            let pool = self.current_pool@;
            assert(pool.drop_last() =~= pool0);
            assert forall|j: int| 0 <= j < pool.len() implies match #[trigger] package_prime(pool[j]@) {
                Some(p) => count_of(self.inner.members(), p) > 0 || self.inner.cached_nonmembers().contains_key(p),
                None => false,
            } by {
                if j < pool0.len() {
                    assert(pool[j] == pool0[j]);
                    assert(package_prime(pool0[j]@) is Some);
                }
            }
        }
    }

    fn request_file(&mut self, snapshot_id: Option<(Digest<G>, usize)>, package: &PackageId) -> (r: (
        Revision,
        PoolWitness<G>,
    ))
        ensures
            final(self).wf(),
            final(self).inner().members() == old(self).inner().members(),
            final(self).inner().digest_value() == old(self).inner().digest_value(),
            final(self).inner().history() == old(self).inner().history(),
            final(self).pool() == old(self).pool(),
            final(self).epochs() == old(self).epochs(),
            package_prime(package@) matches Some(p) && r.0.value() == count_of(old(self).inner().members(), p)
                + pool_count(old(self).pool(), package@),
            package_prime(package@) matches Some(p) && (count_of(old(self).inner().members(), p) > 0 ==> (r.1 matches PoolWitness::Member(w)
                && w@ == old(self).inner().cached_witnesses()[p])),
            package_prime(package@) matches Some(p) && (count_of(old(self).inner().members(), p) == 0 ==> (r.1 matches PoolWitness::Nonmember(w)
                && (w.exp(), w.base()) == crate::accumulator::rsa::fresh_nonmember::<G>(old(self).inner().exponent(), p))),
    {
        let value = hash_package(package).unwrap();
        let mut revision = self.inner.acc.get(&value);
        proof {
            lemma_wf_history(&self.inner.acc);
            if revision == 0 {
                lemma_pool_count_witness(self.current_pool@, package@);
                let j = choose|j: int| 0 <= j < self.current_pool@.len() && #[trigger] self.current_pool@[j]@ == package@;
                assert(package_prime(self.current_pool@[j]@) is Some);
            }
        }
        let witness = if revision > 0 {
            PoolWitness::Member(self.inner.acc.prove(&value, revision).unwrap())
        } else {
            PoolWitness::Nonmember(self.inner.acc.prove_nonmember(&value).unwrap())
        };
        let count = count_in_pool(&self.current_pool, package);
        proof {
            lemma_pool_count_bound(self.current_pool@, package@, value.value());
            assert(count_of(self.inner.members(), value.value()) + package_occurrences(self.current_pool@, value.value())
                <= self.bound@);
        }
        revision = revision + count as u32;
        (Revision::from_nonzero(revision as u64), witness)
    }

    fn id(snapshot: &PoolSnapshot<G>) -> (r: Option<(Digest<G>, usize)>)
        ensures
            match snapshot.digest_view() {
                Some(d) => r matches Some(id) && id.0.value() == d && id.1 == snapshot.pool().len(),
                None => r is None,
            },
    {
        match snapshot.inner.digest() {
            Some(d) => Some((d, snapshot.pool.len())),
            None => None,
        }
    }

    fn update(snapshot: &mut PoolSnapshot<G>, diff: PoolDiff<G>)
        ensures
            match diff.catch_up() {
                None => final(snapshot).digest_view() == old(snapshot).digest_view() && final(snapshot).pool()
                    == old(snapshot).pool() + diff.rest(),
                Some(c) => final(snapshot).digest_view() == Some(
                    match diff.latest() {
                        Some((d, _)) => d,
                        None => c.eod(),
                    },
                ) && final(snapshot).pool() == diff.latest_pool(),
            },
    {
        let mut diff = diff;
        let eod_digest = match diff.current_day_final_digest {
            // The next digest is ready; the client may move to it.
            Some(catch_up_proof) => catch_up_proof.eod_digest,
            None => {
                // Still in the same day. No new digest.
                snapshot.pool.append(&mut diff.rest_of_current_day);
                return;
            },
        };
        snapshot.inner = Snapshot::new(
            match diff.latest_digest {
                Some((d, _)) => d,
                None => eod_digest,
            },
        );
        // The latest pool applies against either the end of the day or the
        // latest digest.
        snapshot.pool = diff.latest_pool;
    }

    fn check_no_rollback(snapshot: &PoolSnapshot<G>, diff: &PoolDiff<G>) -> (r: bool)
        ensures
            r == pool_no_rollback::<G>(
                snapshot.digest_view(),
                snapshot.pool(),
                diff.rest(),
                diff.catch_up(),
                diff.latest(),
            ),
    {
        match (&diff.current_day_final_digest, &diff.latest_digest) {
            (Some(catch_up_proof), Some(latest_digest)) => {
                match snapshot.validate_catch_up_proof(catch_up_proof, &diff.rest_of_current_day) {
                    Ok(eod_digest) => {
                        let eod_snapshot = Snapshot::new(eod_digest);
                        let (d, w) = latest_digest;
                        let latest = Diff::new(d.duplicate(), Some(w.duplicate()));
                        if !Authenticator::<G>::check_no_rollback(&eod_snapshot, &latest) {
                            return false;
                        }
                    },
                    Err(_) => {
                        return false;
                    },
                }
            },
            (Some(catch_up_proof), None) => {
                if snapshot.validate_catch_up_proof(catch_up_proof, &diff.rest_of_current_day).is_err() {
                    return false;
                }
            },
            (None, None) => {},
            (None, Some(_)) => {
                return false;
            },
        }
        true
    }

    fn verify_membership(
        snapshot: &PoolSnapshot<G>,
        package: &PackageId,
        revision: Revision,
        witness: PoolWitness<G>,
    ) -> (r: bool)
        ensures
            r == (witness matches PoolWitness::Member(w) && revision.value() > pool_count(snapshot.pool(), package@)
                && membership_verdict::<G>(
                snapshot.digest_view(),
                package@,
                (revision.value() - pool_count(snapshot.pool(), package@)) as nat,
                w@,
            )),
    {
        let count = count_in_pool(&snapshot.pool, package);
        let revision = revision.get();
        if revision <= count as u64 {
            // No revision before the pool: only a witness of absence fits.
            return false;
        }
        let bod_revision = Revision::from_nonzero(revision - count as u64);
        match witness {
            PoolWitness::Member(w) => Authenticator::<G>::verify_membership(
                &snapshot.inner,
                package,
                bod_revision,
                w,
            ),
            PoolWitness::Nonmember(_) => false,
        }
    }

    fn cdn_size(&self) -> (r: Information) {
        let pool = repeated_size(self.current_pool.len(), Information::new_bytes(STRING_BYTES));
        self.inner.cdn_size().plus(pool)
    }
}

impl<G: Group + DataSized> Authenticator<G> {
    /// `request_file` where the package was published; `None` where it was
    /// not, or has no prime.
    pub fn try_request_file(&mut self, snapshot_id: Option<Digest<G>>, package: &PackageId) -> (r: Option<
        (Revision, Witness<G>),
    >)
        requires
            old(self).wf(),
        ensures
            final(self).wf(),
            final(self).members() == old(self).members(),
            final(self).digest_value() == old(self).digest_value(),
            r is Some <==> old(self).can_request(snapshot_id, package@),
            r matches Some(rw) ==> (package_prime(package@) matches Some(p) && rw.0.value() == count_of(
                old(self).members(),
                p,
            ) && rw.1@ == old(self).cached_witnesses()[p]),
    {
        let prime = match hash_package(package) {
            Ok(p) => p,
            Err(_) => {
                return None;
            },
        };
        if self.acc.get(&prime) == 0 {
            return None;
        }
        Some(self.request_file(snapshot_id, package))
    }

    /// `batch_import` where every package has a prime; `None` otherwise.
    pub fn try_batch_import(packages: Vec<PackageId>) -> (r: Option<Self>)
        requires
            packages@.len() < u32::MAX,
        ensures
            r is Some <==> forall|j: int| 0 <= j < packages@.len() ==> #[trigger] package_prime(packages@[j]@) is Some,
            r matches Some(a) ==> a.wf() && forall|p: int| #[trigger]
                count_of(a.members(), p) == package_occurrences(packages@, p),
    {
        match hash_packages(&packages) {
            Some(_) => Some(Self::batch_import(packages)),
            None => None,
        }
    }

    /// `batch_prove` where every package has a prime that is a member or
    /// coprime to the members; `None` otherwise.
    pub fn try_batch_prove(&mut self, packages: Vec<PackageId>) -> (r: Option<
        (PackageMap<u32>, BatchWitness<Witness<G>>),
    >)
        requires
            old(self).wf(),
        ensures
            final(self).wf(),
            final(self).members() == old(self).members(),
            final(self).digest_value() == old(self).digest_value(),
            r is Some <==> old(self).can_batch_prove(packages@),
            r matches Some(pw) ==> forall|k: Seq<char>| #[trigger]
                pw.0@.contains_key(k) <==> exists|j: int| 0 <= j < packages@.len() && packages@[j]@ == k,
    {
        let primes = match hash_packages(&packages) {
            Some(ps) => ps,
            None => {
                return None;
            },
        };
        let ghost e = self.exponent();
        let ghost m = self.members();
        let mut j: usize = 0;
        while j < primes.len()
            invariant
                j <= primes@.len(),
                primes@.len() == packages@.len(),
                forall|k: int| 0 <= k < packages@.len() ==> package_prime(packages@[k]@) == Some(#[trigger] primes@[k].value()),
                self.wf(),
                self.members() == m,
                self.exponent() == e,
                self.digest_value() == old(self).digest_value(),
                m == old(self).members(),
                e == old(self).exponent(),
                forall|k: int| 0 <= k < j ==> count_of(m, #[trigger] primes@[k].value()) > 0 || gcd_ext(e, primes@[k].value()).0 == 1,
            decreases primes@.len() - j,
        {
            if self.acc.get(&primes[j]) == 0 {
                if self.acc.prove_nonmember(&primes[j]).is_none() {
                    proof {
                        assert(package_prime(packages@[j as int]@) == Some(primes@[j as int].value()));
                    }
                    return None;
                }
            }
            proof {
                lemma_wf_history(&self.acc);
            }
            j += 1;
        }
        proof {
            assert forall|k: int| 0 <= k < packages@.len() implies match #[trigger] package_prime(packages@[k]@) {
                Some(p) => count_of(m, p) > 0 || gcd_ext(e, p).0 == 1,
                None => false,
            } by {
                assert(package_prime(packages@[k]@) == Some(primes@[k].value()));
            }
        }
        Some(super::BatchAuthenticator::batch_prove(self, packages))
    }
}

impl<G: Group + DataSized> PoolAuthenticator<G> {
    /// `request_file` where the client names its snapshot and the package was
    /// published; `None` where not, or where the package has no prime.
    pub fn try_request_file(&mut self, snapshot_id: Option<(Digest<G>, usize)>, package: &PackageId) -> (r: Option<
        (Revision, PoolWitness<G>),
    >)
        requires
            old(self).wf(),
        ensures
            final(self).wf(),
            final(self).pool() == old(self).pool(),
            r is Some <==> old(self).can_request(snapshot_id, package@),
            r matches Some(rw) ==> (package_prime(package@) matches Some(p) && rw.0.value() == count_of(
                old(self).inner().members(),
                p,
            ) + pool_count(old(self).pool(), package@)),
    {
        let prime = match hash_package(package) {
            Ok(p) => p,
            Err(_) => {
                return None;
            },
        };
        if snapshot_id.is_none() || (self.inner.acc.get(&prime) == 0 && count_in_pool(&self.current_pool, package) == 0) {
            return None;
        }
        Some(self.request_file(snapshot_id, package))
    }

    /// `batch_import` where every package has a prime; `None` otherwise.
    pub fn try_batch_import(packages: Vec<PackageId>) -> (r: Option<Self>)
        requires
            packages@.len() < u32::MAX,
        ensures
            r is Some <==> forall|j: int| 0 <= j < packages@.len() ==> #[trigger] package_prime(packages@[j]@) is Some,
            r matches Some(a) ==> a.wf() && forall|p: int| #[trigger]
                count_of(a.inner().members(), p) == package_occurrences(packages@, p),
    {
        match hash_packages(&packages) {
            Some(_) => Some(Self::batch_import(packages)),
            None => None,
        }
    }
}

} // verus!
