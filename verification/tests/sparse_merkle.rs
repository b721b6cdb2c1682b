use digest::Digest;
use sssim::authenticator::sparse_merkle::{package_path, revision_bytes, revision_leaf, same_bytes, same_path};
use sssim::authenticator::{Authenticator, Revision, SparseMerkle};
use sssim::log::PackageId;
use sssim::util::DataSized;

fn package(name: &str) -> PackageId {
    PackageId(name.to_string())
}

fn sync(server: &SparseMerkle, client: &mut <SparseMerkle as Authenticator>::ClientSnapshot) {
    if let Some(diff) = server.refresh_metadata(SparseMerkle::id(client)) {
        assert!(SparseMerkle::check_no_rollback(client, &diff));
        SparseMerkle::update(client, diff);
    }
}

#[test]
fn sparse_merkle_round_trip() {
    let mut server = SparseMerkle::default();
    let mut client = Default::default();
    server.publish(package("a"));
    server.publish(package("b"));
    server.publish(package("a"));
    sync(&server, &mut client);
    let (revision, proof) = server.request_file(SparseMerkle::id(&client), &package("a"));
    assert_eq!(revision.get(), 2);
    assert!(SparseMerkle::verify_membership(&client, &package("a"), revision, proof));
    assert_eq!(SparseMerkle::name(), "sparse_merkle");
}

#[test]
fn sparse_merkle_rejects_wrong_revision_and_package() {
    let mut server = SparseMerkle::batch_import(vec![package("a"), package("b")]);
    let client = server.get_metadata();
    let (revision, proof) = server.request_file(SparseMerkle::id(&client), &package("a"));
    assert_eq!(revision.get(), 1);
    assert!(!SparseMerkle::verify_membership(&client, &package("a"), Revision::from(2), proof));
    let (revision, proof) = server.request_file(SparseMerkle::id(&client), &package("a"));
    assert!(!SparseMerkle::verify_membership(&client, &package("b"), revision, proof));
}

#[test]
fn sparse_merkle_stale_client_fails_then_catches_up() {
    let mut server = SparseMerkle::batch_import(vec![package("a")]);
    let mut client = server.get_metadata();
    assert!(server.refresh_metadata(SparseMerkle::id(&client)).is_none());
    server.publish(package("a"));
    let (revision, proof) = server.request_file(SparseMerkle::id(&client), &package("a"));
    assert_eq!(revision.get(), 2);
    assert!(!SparseMerkle::verify_membership(&client, &package("a"), revision, proof));
    let diff = server.refresh_metadata(SparseMerkle::id(&client)).expect("new root");
    SparseMerkle::update(&mut client, diff);
    assert!(server.refresh_metadata(SparseMerkle::id(&client)).is_none());
    let (revision, proof) = server.request_file(SparseMerkle::id(&client), &package("a"));
    assert!(SparseMerkle::verify_membership(&client, &package("a"), revision, proof));
}

#[test]
fn sparse_merkle_sizes() {
    let mut server = SparseMerkle::default();
    server.publish(package("a"));
    let client = server.get_metadata();
    assert_eq!(client.size().get_bytes(), 32);
    let (_, proof) = server.request_file(SparseMerkle::id(&client), &package("a"));
    assert_eq!(proof.size().get_bytes(), 256 * 32 + 40);
    // One leaf: the root and two children on each of the 256 levels.
    assert_eq!(server.cdn_size().get_bytes(), 72 + 56 * 513);
}

#[test]
fn sparse_merkle_leaf_encoding() {
    assert_eq!(revision_bytes(258), vec![0, 0, 0, 0, 0, 0, 1, 2]);
    let expected: Vec<u8> = sha3::Sha3_256::digest(&[0u8, 0, 0, 0, 0, 0, 0, 7]).to_vec();
    assert_eq!(revision_leaf(Revision::from(7)), expected);
    let name: Vec<u8> = sha3::Sha3_256::digest(b"serde").to_vec();
    assert_eq!(package_path(&package("serde")).to_vec(), name);
    assert!(same_path(&package_path(&package("x")), &package_path(&package("x"))));
    assert!(!same_path(&package_path(&package("x")), &package_path(&package("y"))));
    assert!(same_bytes(&vec![1, 2], &vec![1, 2]));
    assert!(!same_bytes(&vec![1, 2], &vec![1]));
}
