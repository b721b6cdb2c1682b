//! An authenticator over a sparse Merkle tree.
//!
//! Each package is a leaf of a tree of height 256: its position is the
//! SHA3-256 digest of its name, and the leaf holds the digest of its
//! revision number. A client holds the root; a proof of membership is the
//! siblings along the path from the root to the leaf.
use crate::authenticator::package_map::PackageMap;
use crate::authenticator::Revision;
use crate::log::PackageId;
use crate::util::{repeated_size, DataSized, FixedDataSized, Information, STRING_BYTES};
use sha3::Sha3_256;
use smtree::index::TreeIndex;
use smtree::node_template::HashNodeSmt;
use smtree::pad_secret::ALL_ZEROS_SECRET;
use smtree::proof::MerkleProof;
use smtree::traits::{InclusionProvable, Serializable};
use smtree::tree::SparseMerkleTree;
use vstd::prelude::*;
use vstd::utf8::encode_utf8;

verus! {

#[verifier::external_type_specification]
#[verifier::external_body]
#[verifier::reject_recursive_types(P)]
pub struct ExSparseMerkleTree<P>(SparseMerkleTree<P>);

#[verifier::external_type_specification]
#[verifier::external_body]
#[verifier::reject_recursive_types(D)]
pub struct ExHashNodeSmt<D>(HashNodeSmt<D>);

#[verifier::external_type_specification]
#[verifier::external_body]
pub struct ExSha3_256(Sha3_256);

/// The tree: SHA3-256 nodes.
pub type Smt = SparseMerkleTree<HashNodeSmt<Sha3_256>>;

/// The height of the tree: one level for each bit of a digest.
pub const TREE_HEIGHT: usize = 256;

/// The number of bytes of a SHA3-256 digest.
pub const DIGEST_BYTES: u64 = 32;

/// SHA3-256 of `data`.
pub uninterp spec fn sha3_256_digest(data: Seq<u8>) -> Seq<u8>;

/// The leaves of a tree: the node written at each 32-byte position, as
/// bytes.
pub uninterp spec fn smt_leaves(tree: Smt) -> Map<Seq<u8>, Seq<u8>>;

/// The node at the root of a tree, as bytes.
pub uninterp spec fn smt_root(tree: Smt) -> Seq<u8>;

/// The siblings of the nodes on the path from the root of a tree down to
/// `path`, the root's child first, as bytes.
pub uninterp spec fn smt_siblings(tree: Smt, path: Seq<u8>) -> Seq<Seq<u8>>;

/// Whether hashing `leaf` up the path to `path` with `siblings` gives
/// `root`.
pub uninterp spec fn merkle_path_verifies(
    path: Seq<u8>,
    siblings: Seq<Seq<u8>>,
    leaf: Seq<u8>,
    root: Seq<u8>,
) -> bool;

/// The number of nodes that a tree stores.
pub uninterp spec fn smt_node_count(tree: Smt) -> nat;

/// The number of internal nodes reachable from the root of a tree.
pub uninterp spec fn smt_internal_count(tree: Smt) -> nat;

/// The number of padding nodes reachable from the root of a tree.
pub uninterp spec fn smt_padding_count(tree: Smt) -> nat;

/// SHA3-256 of `data` (`sha3::Sha3_256` through `digest::Digest::digest`),
/// whose output has 32 bytes.
#[verifier::external_body]
fn sha3_256(data: &[u8]) -> (r: [u8; 32])
    ensures
        r@ == sha3_256_digest(data@),
{
    let mut r = [0u8; 32];
    r.copy_from_slice(&<Sha3_256 as digest::Digest>::digest(data));
    r
}

/// An empty tree of height 256 (`SparseMerkleTree::new`); it has no leaves.
#[verifier::external_body]
fn new_tree() -> (r: Smt)
    ensures
        smt_leaves(r).dom() == Set::<Seq<u8>>::empty(),
{
    SparseMerkleTree::new(TREE_HEIGHT)
}

/// Writes the node `leaf` at position `path` (`SparseMerkleTree::update`,
/// with the all-zeros padding secret). The leaves at other positions stay.
#[verifier::external_body]
fn write_leaf(tree: &mut Smt, path: [u8; 32], leaf: Vec<u8>)
    ensures
        smt_leaves(*final(tree)) == smt_leaves(*old(tree)).insert(path@, leaf@),
{
    tree.update(&TreeIndex::new(TREE_HEIGHT, path), HashNodeSmt::new(leaf), &ALL_ZEROS_SECRET);
}

/// The root of `tree` (`SparseMerkleTree::get_root`), as bytes
/// (`Serializable::serialize`).
#[verifier::external_body]
fn root_digest(tree: &Smt) -> (r: Vec<u8>)
    ensures
        r@ == smt_root(*tree),
{
    tree.get_root().serialize()
}

/// The siblings on the path to `path`, as bytes, from the proof that
/// `MerkleProof::generate_inclusion_proof` makes for that one position. A
/// position where a leaf was written has one; and such a proof checks out
/// (`MerkleProof::verify`) against the root with the leaf written there.
/// Of the other positions nothing is said.
#[verifier::external_body]
fn path_siblings(tree: &Smt, path: [u8; 32]) -> (r: Option<Vec<Vec<u8>>>)
    ensures
        r is Some ==> r->0.deep_view() == smt_siblings(*tree, path@),
        smt_leaves(*tree).contains_key(path@) ==> r is Some,
        r is Some && smt_leaves(*tree).contains_key(path@) ==> merkle_path_verifies(path@, smt_siblings(*tree, path@), smt_leaves(*tree)[path@], smt_root(*tree)),
{
    let index = TreeIndex::new(TREE_HEIGHT, path);
    match MerkleProof::<HashNodeSmt<Sha3_256>>::generate_inclusion_proof(tree, &[index]) {
        Some(proof) => {
            let mut siblings = Vec::new();
            for node in proof.get_path_siblings() {
                siblings.push(node.serialize());
            }
            Some(siblings)
        },
        None => None,
    }
}

/// Whether the one-position proof for `path` with `siblings` shows `leaf`
/// under `root` (`MerkleProof::verify`).
#[verifier::external_body]
fn verify_path(path: [u8; 32], siblings: &Vec<Vec<u8>>, leaf: &Vec<u8>, root: &Vec<u8>) -> (r: bool)
    ensures
        r == merkle_path_verifies(path@, siblings.deep_view(), leaf@, root@),
{
    let mut proof = MerkleProof::<HashNodeSmt<Sha3_256>>::new(TreeIndex::new(TREE_HEIGHT, path));
    let mut nodes = Vec::new();
    for node in siblings {
        nodes.push(HashNodeSmt::new(node.clone()));
    }
    proof.set_siblings(nodes);
    proof.verify(&HashNodeSmt::new(leaf.clone()), &HashNodeSmt::new(root.clone()))
}

/// The number of leaves reachable from the root (`SparseMerkleTree::get_leaves`):
/// one for each position written.
#[verifier::external_body]
fn leaf_count(tree: &Smt) -> (r: usize)
    ensures
        r == smt_leaves(*tree).len(),
{
    tree.get_leaves().len()
}

/// The number of internal nodes (`SparseMerkleTree::get_internals`).
#[verifier::external_body]
fn internal_count(tree: &Smt) -> (r: usize)
    ensures
        r == smt_internal_count(*tree),
{
    tree.get_internals().len()
}

/// The number of padding nodes (`SparseMerkleTree::get_paddings`).
#[verifier::external_body]
fn padding_count(tree: &Smt) -> (r: usize)
    ensures
        r == smt_padding_count(*tree),
{
    tree.get_paddings().len()
}

/// The number of nodes stored (`SparseMerkleTree::get_nodes_num`).
#[verifier::external_body]
fn node_count(tree: &Smt) -> (r: usize)
    ensures
        r == smt_node_count(*tree),
{
    tree.get_nodes_num()
}

/// `n` as `count` big-endian bytes.
pub open spec fn be_bytes(n: nat, count: nat) -> Seq<u8>
    decreases count,
{
    if count == 0 {
        Seq::empty()
    } else {
        be_bytes(n / 256, (count - 1) as nat).push((n % 256) as u8)
    }
}

/// The position of `package`'s leaf: the digest of its name.
pub open spec fn leaf_path(package: Seq<char>) -> Seq<u8> {
    sha3_256_digest(encode_utf8(package))
}

/// What the leaf of a package holds at `revision`: the digest of the
/// revision number as eight big-endian bytes.
pub open spec fn leaf_value(revision: nat) -> Seq<u8> {
    sha3_256_digest(be_bytes(revision, 8))
}

/// `n` as eight big-endian bytes.
pub fn revision_bytes(n: u64) -> (r: Vec<u8>)
    ensures
        r@ == be_bytes(n as nat, 8),
{
    let mut out: Vec<u8> = Vec::new();
    let mut m: u64 = n;
    let mut i: usize = 0;
    while i < 8
        invariant
            i <= 8,
            be_bytes(m as nat, (8 - i) as nat) + out@ == be_bytes(n as nat, 8),
        decreases 8 - i,
    {
        let ghost before = out@;
        let ghost rest = be_bytes((m / 256) as nat, (8 - i - 1) as nat);
        assert(be_bytes(m as nat, (8 - i) as nat) == rest.push((m % 256) as u8));
        out.insert(0, (m % 256) as u8);
        assert(rest + out@ =~= rest.push((m % 256) as u8) + before);
        m = m / 256;
        i += 1;
    }
    assert(be_bytes(m as nat, 0) + out@ =~= out@);
    out
}

/// The position of `package`'s leaf.
pub fn package_path(package: &PackageId) -> (r: [u8; 32])
    ensures
        r@ == leaf_path(package@),
{
    sha3_256(package.0.as_str().as_bytes())
}

/// The leaf of a package at `revision`.
pub fn revision_leaf(revision: Revision) -> (r: Vec<u8>)
    ensures
        r@ == leaf_value(revision.value()),
{
    let bytes = revision_bytes(revision.get());
    let digest = sha3_256(bytes.as_slice());
    let mut out: Vec<u8> = Vec::new();
    let mut i: usize = 0;
    while i < 32
        invariant
            i <= 32,
            digest@.len() == 32,
            out@ == digest@.subrange(0, i as int),
        decreases 32 - i,
    {
        out.push(digest[i]);
        i += 1;
        assert(out@ =~= digest@.subrange(0, i as int));
    }
    assert(out@ =~= digest@);
    out
}

/// Whether two positions are the same.
pub fn same_path(a: &[u8; 32], b: &[u8; 32]) -> (r: bool)
    ensures
        r == (a@ == b@),
{
    let mut i: usize = 0;
    while i < 32
        invariant
            i <= 32,
            a@.len() == 32,
            b@.len() == 32,
            forall|j: int| 0 <= j < i ==> a@[j] == b@[j],
        decreases 32 - i,
    {
        if a[i] != b[i] {
            return false;
        }
        i += 1;
    }
    assert(a@ =~= b@);
    true
}

/// Whether two byte strings are the same.
pub fn same_bytes(a: &Vec<u8>, b: &Vec<u8>) -> (r: bool)
    ensures
        r == (a@ == b@),
{
    if a.len() != b.len() {
        return false;
    }
    let mut i: usize = 0;
    while i < a.len()
        invariant
            i <= a@.len(),
            a@.len() == b@.len(),
            forall|j: int| 0 <= j < i ==> a@[j] == b@[j],
        decreases a@.len() - i,
    {
        if a[i] != b[i] {
            return false;
        }
        i += 1;
    }
    assert(a@ =~= b@);
    true
}

/// What a client holds: the root of the tree.
#[derive(Debug)]
pub struct Snapshot {
    root: Vec<u8>,
}

impl Snapshot {
    /// The root, as bytes.
    pub closed spec fn root(&self) -> Seq<u8> {
        self.root@
    }

    pub fn new(root: Vec<u8>) -> (r: Self)
        ensures
            r.root() == root@,
    {
        Snapshot { root }
    }
}

impl Clone for Snapshot {
    fn clone(&self) -> (r: Self)
        ensures
            r.root() == self.root(),
    {
        let root = self.root.clone();
        assert(root@ =~= self.root@);
        Snapshot { root }
    }
}

impl Default for Snapshot {
    fn default() -> (r: Self)
        ensures
            r.root() == Seq::<u8>::empty(),
    {
        Snapshot { root: Vec::new() }
    }
}

impl DataSized for Snapshot {
    open spec fn spec_size(&self) -> nat {
        DIGEST_BYTES as nat
    }

    fn size(&self) -> (r: Information) {
        Information::new_bytes(DIGEST_BYTES)
    }
}

/// A proof that leaves are in the tree: their positions, and the siblings
/// along the paths to them.
#[derive(Debug)]
pub struct Proof {
    indexes: Vec<[u8; 32]>,
    siblings: Vec<Vec<u8>>,
}

/// The positions `indexes`, as byte strings.
pub open spec fn index_paths(indexes: Seq<[u8; 32]>) -> Seq<Seq<u8>> {
    indexes.map_values(|a: [u8; 32]| a@)
}

impl Proof {
    /// The positions proved.
    pub closed spec fn indexes(&self) -> Seq<Seq<u8>> {
        index_paths(self.indexes@)
    }

    /// The siblings along the paths.
    pub closed spec fn siblings(&self) -> Seq<Seq<u8>> {
        self.siblings.deep_view()
    }
}

/// The number of bytes counted for a position: a height and 32 bytes.
pub const INDEX_BYTES: u64 = 40;

impl DataSized for Proof {
    open spec fn spec_size(&self) -> nat {
        self.siblings().len() * (DIGEST_BYTES as nat) + self.indexes().len() * (INDEX_BYTES as nat)
    }

    fn size(&self) -> (r: Information) {
        let siblings = repeated_size(self.siblings.len(), Information::new_bytes(DIGEST_BYTES));
        let indexes = repeated_size(self.indexes.len(), Information::new_bytes(INDEX_BYTES));
        siblings.plus(indexes)
    }
}

/// The answer to a client holding `id` when the root is `root`: nothing if
/// it already has the root, else the root.
pub open spec fn refreshed(root: Seq<u8>, id: Seq<u8>) -> Option<Seq<u8>> {
    if id == root {
        None
    } else {
        Some(root)
    }
}

/// Whether a proof with `indexes` and `siblings` shows that `package` is at
/// `revision` under `root`: it proves the one position of the package,
/// and its path leads from the leaf of that revision to the root.
pub open spec fn membership_verdict(
    root: Seq<u8>,
    package: Seq<char>,
    revision: nat,
    indexes: Seq<Seq<u8>>,
    siblings: Seq<Seq<u8>>,
) -> bool {
    &&& indexes.len() == 1
    &&& indexes[0] == leaf_path(package)
    &&& merkle_path_verifies(leaf_path(package), siblings, leaf_value(revision), root)
}

/// No other package of `revisions` has the leaf position of `package`.
pub open spec fn sole_owner(revisions: Map<Seq<char>, Revision>, package: Seq<char>) -> bool {
    forall|q: Seq<char>|
        #[trigger] revisions.contains_key(q) && leaf_path(q) == leaf_path(package) ==> q == package
}

/// The revision that publishing `package` gives it.
pub open spec fn next_revision(revisions: Map<Seq<char>, Revision>, package: Seq<char>) -> nat {
    if revisions.contains_key(package) {
        revisions[package].value() + 1
    } else {
        1
    }
}

/// The server: the tree and the latest revision of every package.
pub struct Authenticator {
    tree: Smt,
    revisions: PackageMap<Revision>,
}

impl Authenticator {
    /// The latest revision of every package.
    pub closed spec fn revisions(&self) -> Map<Seq<char>, Revision> {
        self.revisions@
    }

    /// The number of packages.
    pub closed spec fn num_packages(&self) -> nat {
        self.revisions.entries().len()
    }

    /// The tree.
    pub closed spec fn tree(&self) -> Smt {
        self.tree
    }

    /// The leaves of the tree.
    pub open spec fn leaves(&self) -> Map<Seq<u8>, Seq<u8>> {
        smt_leaves(self.tree())
    }

    /// The root of the tree.
    pub open spec fn root(&self) -> Seq<u8> {
        smt_root(self.tree())
    }

    /// Every package has a leaf, and a package whose position no other
    /// package shares has the leaf of its latest revision there.
    pub open spec fn wf(&self) -> bool {
        &&& forall|p: Seq<char>| #[trigger]
            self.revisions().contains_key(p) ==> self.leaves().contains_key(leaf_path(p))
        &&& forall|p: Seq<char>|
            #[trigger] self.revisions().contains_key(p) && sole_owner(self.revisions(), p)
                ==> self.leaves()[leaf_path(p)] == leaf_value(self.revisions()[p].value())
    }
}

impl Default for Authenticator {
    fn default() -> (r: Self)
        ensures
            r.wf(),
            r.revisions() == Map::<Seq<char>, Revision>::empty(),
            r.leaves().dom() == Set::<Seq<u8>>::empty(),
    {
        Authenticator { tree: new_tree(), revisions: PackageMap::new() }
    }
}

impl DataSized for Authenticator {
    open spec fn spec_size(&self) -> nat {
        vstd::layout::size_of::<Authenticator>() + self.num_packages() * (STRING_BYTES as nat + 8)
            + (self.leaves().len() + smt_internal_count(self.tree()) + smt_padding_count(
            self.tree(),
        )) * (DIGEST_BYTES as nat)
    }

    fn size(&self) -> (r: Information) {
        let own = std::mem::size_of::<Authenticator>();
        let entry = Information::new_bytes(STRING_BYTES).plus(Information::new_bytes(8));
        let hash = Information::new_bytes(DIGEST_BYTES);
        let leaves = leaf_count(&self.tree);
        let internals = internal_count(&self.tree);
        let paddings = padding_count(&self.tree);
        let packages = self.revisions.len();
        assert((leaves + internals + paddings) * DIGEST_BYTES == leaves * DIGEST_BYTES + internals
            * DIGEST_BYTES + paddings * DIGEST_BYTES) by (nonlinear_arith);
        Information::new_bytes(own as u64).plus(repeated_size(packages, entry)).plus(
            repeated_size(leaves, hash),
        ).plus(repeated_size(internals, hash)).plus(repeated_size(paddings, hash))
    }
}

impl super::Authenticator for Authenticator {
    type ClientSnapshot = Snapshot;
    type Id = Vec<u8>;
    type Diff = Snapshot;
    type Proof = Proof;

    open spec fn can_refresh(&self, snapshot_id: Vec<u8>) -> bool {
        true
    }

    /// A later revision of a known package must still be a `u64`.
    open spec fn can_publish(&self, package: Seq<char>) -> bool {
        self.revisions().contains_key(package) ==> self.revisions()[package].value() < u64::MAX
    }

    /// The package is known, and has its leaf.
    open spec fn can_request(&self, snapshot_id: Self::Id, package: Seq<char>) -> bool {
        &&& self.revisions().contains_key(package)
        &&& self.leaves().contains_key(leaf_path(package))
    }

    open spec fn can_import(packages: Seq<PackageId>) -> bool {
        true
    }

    open spec fn can_apply(snapshot: Snapshot, diff: Snapshot) -> bool {
        true
    }

    open spec fn can_check(snapshot: Snapshot, diff: Snapshot) -> bool {
        true
    }

    open spec fn can_verify(snapshot: Snapshot, package: Seq<char>) -> bool {
        true
    }

    /// Each leaf counts a package identifier, a `usize` and a digest; each
    /// node stored counts three `usize`s and a digest.
    open spec fn spec_cdn_size(&self) -> nat {
        self.leaves().len() * (STRING_BYTES as nat + 8 + DIGEST_BYTES as nat) + smt_node_count(
            self.tree(),
        ) * (3 * 8 + DIGEST_BYTES as nat)
    }

    fn name() -> (r: &'static str)
        ensures
            r@ == "sparse_merkle"@,
    {
        "sparse_merkle"
    }

    fn batch_import(packages: Vec<PackageId>) -> (r: Self)
        ensures
            r.wf(),
            forall|p: Seq<char>| #[trigger]
                r.revisions().contains_key(p) <==> exists|i: int|
                    0 <= i < packages@.len() && packages@[i]@ == p,
            forall|p: Seq<char>| #[trigger]
                r.revisions().contains_key(p) ==> r.revisions()[p].value() == 1,
            forall|k: Seq<u8>| #[trigger]
                r.leaves().contains_key(k) <==> exists|i: int|
                    0 <= i < packages@.len() && leaf_path(packages@[i]@) == k,
            forall|k: Seq<u8>| #[trigger] r.leaves().contains_key(k) ==> r.leaves()[k] == leaf_value(1),
    {
        let mut tree = new_tree();
        let mut revisions: PackageMap<Revision> = PackageMap::new();
        let first = Revision::default();
        let leaf = revision_leaf(first);
        let mut i: usize = 0;
        while i < packages.len()
            invariant
                i <= packages@.len(),
                first.value() == 1,
                leaf@ == leaf_value(1),
                forall|p: Seq<char>| #[trigger]
                    revisions@.contains_key(p) <==> exists|j: int| 0 <= j < i && packages@[j]@ == p,
                forall|p: Seq<char>| #[trigger] revisions@.contains_key(p) ==> revisions@[p] == first,
                forall|k: Seq<u8>| #[trigger]
                    smt_leaves(tree).contains_key(k) <==> exists|j: int|
                        0 <= j < i && leaf_path(packages@[j]@) == k,
                forall|k: Seq<u8>| #[trigger]
                    smt_leaves(tree).contains_key(k) ==> smt_leaves(tree)[k] == leaf_value(1),
            decreases packages@.len() - i,
        {
            let path = package_path(&packages[i]);
            revisions.insert(packages[i].duplicate(), first);
            write_leaf(&mut tree, path, leaf.clone());
            proof {
                assert forall|p: Seq<char>| #[trigger] revisions@.contains_key(p) implies exists|
                    j: int,
                | 0 <= j < i + 1 && packages@[j]@ == p by {
                    if p == packages@[i as int]@ {
                        assert(packages@[i as int]@ == p);
                    }
                }
                assert forall|k: Seq<u8>| #[trigger] smt_leaves(tree).contains_key(k) implies exists|
                    j: int,
                | 0 <= j < i + 1 && leaf_path(packages@[j]@) == k by {
                    if k == leaf_path(packages@[i as int]@) {
                        assert(leaf_path(packages@[i as int]@) == k);
                    }
                }
            }
            i += 1;
        }
        let r = Authenticator { tree, revisions };
        proof {
            assert forall|p: Seq<char>| #[trigger] r.revisions().contains_key(p) implies r.leaves().contains_key(
                leaf_path(p),
            ) by {
                let j = choose|j: int| 0 <= j < packages@.len() && packages@[j]@ == p;
                assert(leaf_path(packages@[j]@) == leaf_path(p));
            }
        }
        r
    }

    fn refresh_metadata(&self, snapshot_id: Vec<u8>) -> (r: Option<Snapshot>)
        ensures
            match refreshed(self.root(), snapshot_id@) {
                None => r is None,
                Some(root) => r matches Some(d) && d.root() == root,
            },
    {
        let my_root = root_digest(&self.tree);
        if same_bytes(&snapshot_id, &my_root) {
            return None;
        }
        Some(Snapshot::new(my_root))
    }

    fn publish(&mut self, package: PackageId)
        ensures
            final(self).revisions() == old(self).revisions().insert(
                package@,
                final(self).revisions()[package@],
            ),
            final(self).revisions()[package@].value() == next_revision(old(self).revisions(), package@),
            final(self).leaves() == old(self).leaves().insert(
                leaf_path(package@),
                leaf_value(next_revision(old(self).revisions(), package@)),
            ),
            old(self).wf() ==> final(self).wf(),
    {
        let path = package_path(&package);
        let revision = match self.revisions.get(&package) {
            Some(r) => r.plus(1),
            None => Revision::default(),
        };
        let ghost before = *self;
        let ghost name = package@;
        self.revisions.insert(package, revision);
        write_leaf(&mut self.tree, path, revision_leaf(revision));
        proof {
            if before.wf() {
                assert forall|p: Seq<char>| #[trigger] self.revisions().contains_key(p) implies self.leaves().contains_key(
                    leaf_path(p),
                ) by {
                    if p != name {
                        assert(before.revisions().contains_key(p));
                    }
                }
                assert forall|p: Seq<char>| #[trigger]
                    self.revisions().contains_key(p) && sole_owner(self.revisions(), p) implies self.leaves()[leaf_path(
                    p,
                )] == leaf_value(self.revisions()[p].value()) by {
                    if p != name {
                        assert(before.revisions().contains_key(p));
                        assert(self.revisions().contains_key(name));
                        assert(leaf_path(p) != leaf_path(name));
                        assert forall|q: Seq<char>| #[trigger]
                            before.revisions().contains_key(q) && leaf_path(q) == leaf_path(p) implies q
                            == p by {
                            assert(self.revisions().contains_key(q));
                        }
                    }
                }
            }
        }
    }

    fn request_file(&mut self, snapshot_id: Vec<u8>, package: &PackageId) -> (r: (Revision, Proof))
        ensures
            *final(self) == *old(self),
            r.0 == old(self).revisions()[package@],
            r.1.indexes() == seq![leaf_path(package@)],
            r.1.siblings() == smt_siblings(old(self).tree(), leaf_path(package@)),
            old(self).wf() && sole_owner(old(self).revisions(), package@) ==> membership_verdict(
                old(self).root(),
                package@,
                r.0.value(),
                r.1.indexes(),
                r.1.siblings(),
            ),
    {
        let revision = self.revisions.get(package).unwrap();
        let path = package_path(package);
        let siblings = path_siblings(&self.tree, path).unwrap();
        let proof = Proof { indexes: vec![path], siblings };
        assert(proof.indexes() =~= seq![leaf_path(package@)]);
        (revision, proof)
    }

    fn get_metadata(&self) -> (r: Snapshot)
        ensures
            r.root() == self.root(),
    {
        Snapshot::new(root_digest(&self.tree))
    }

    fn id(snapshot: &Snapshot) -> (r: Vec<u8>)
        ensures
            r@ == snapshot.root(),
    {
        let r = snapshot.root.clone();
        assert(r@ =~= snapshot.root@);
        r
    }

    fn update(snapshot: &mut Snapshot, diff: Snapshot)
        ensures
            final(snapshot).root() == diff.root(),
    {
        snapshot.root = diff.root;
    }

    /// Every new root is accepted.
    fn check_no_rollback(snapshot: &Snapshot, diff: &Snapshot) -> (r: bool)
        ensures
            r,
    {
        true
    }

    fn verify_membership(
        snapshot: &Snapshot,
        package_id: &PackageId,
        revision: Revision,
        proof: Proof,
    ) -> (r: bool)
        ensures
            r == membership_verdict(
                snapshot.root(),
                package_id@,
                revision.value(),
                proof.indexes(),
                proof.siblings(),
            ),
    {
        let expected = package_path(package_id);
        let leaf = revision_leaf(revision);
        if proof.indexes.len() != 1 {
            return false;
        }
        if !same_path(&proof.indexes[0], &expected) {
            return false;
        }
        verify_path(proof.indexes[0], &proof.siblings, &leaf, &snapshot.root)
    }

    fn cdn_size(&self) -> (r: Information) {
        let hash = Information::new_bytes(DIGEST_BYTES);
        let leaf_size = PackageId::fixed_size().plus(usize::fixed_size()).plus(hash);
        let internal_size = usize::fixed_size().times(3).plus(hash);
        let leaves = leaf_count(&self.tree);
        let nodes = node_count(&self.tree);
        repeated_size(leaves, leaf_size).plus(repeated_size(nodes, internal_size))
    }
}

/// A client that takes what `refresh_metadata` hands it holds the root of
/// the tree: it gets nothing only when it already has the root, and
/// otherwise it gets the root.
pub proof fn lemma_refresh_catches_up(root: Seq<u8>, id: Seq<u8>)
    ensures
        match refreshed(root, id) {
            None => id == root,
            Some(d) => d == root,
        },
{
}

} // verus!
