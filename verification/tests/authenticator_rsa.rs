use sssim::authenticator::rsa::{hash_package, Authenticator as RsaAuthenticator, PoolAuthenticator};
use sssim::authenticator::{Authenticator, BatchAuthenticator, PoolAuthenticator as _, Revision};
use sssim::log::PackageId;
use sssim::primitives::RsaGroup;

type Rsa = RsaAuthenticator<RsaGroup>;
type Pool = PoolAuthenticator<RsaGroup>;

fn package(name: &str) -> PackageId {
    PackageId(name.to_string())
}

#[test]
fn hash_package_is_stable_and_distinct() {
    let a = hash_package(&package("serde")).unwrap();
    let b = hash_package(&package("serde")).unwrap();
    let c = hash_package(&package("rand")).unwrap();
    assert!(a.same(&b));
    assert!(!a.same(&c));
}

#[test]
fn published_packages_verify() {
    let mut server = Rsa::batch_import(vec![package("a"), package("b")]);
    server.publish(package("a"));
    let snapshot = server.get_metadata();
    let id = Rsa::id(&snapshot);
    let (revision, proof) = server.request_file(id, &package("a"));
    assert_eq!(revision.get(), 2);
    assert!(Rsa::verify_membership(&snapshot, &package("a"), revision, proof));
    let id = Rsa::id(&snapshot);
    let (revision, proof) = server.request_file(id, &package("b"));
    assert_eq!(revision.get(), 1);
    assert!(!Rsa::verify_membership(&snapshot, &package("b"), Revision::from_nonzero(2), proof));
}

#[test]
fn refresh_catches_client_up_without_rollback() {
    let mut server = Rsa::batch_import(vec![package("a")]);
    let mut client = server.get_metadata();
    server.publish(package("b"));
    server.publish(package("a"));
    let diff = server.refresh_metadata(Rsa::id(&client)).unwrap();
    assert!(Rsa::check_no_rollback(&client, &diff));
    Rsa::update(&mut client, diff);
    assert!(server.refresh_metadata(Rsa::id(&client)).is_none());
    let (revision, proof) = server.request_file(Rsa::id(&client), &package("a"));
    assert!(Rsa::verify_membership(&client, &package("a"), revision, proof));
}

#[test]
fn fresh_client_gets_digest() {
    let server = Rsa::batch_import(vec![package("a")]);
    let client = sssim::authenticator::rsa::Snapshot::<RsaGroup>::default();
    let diff = server.refresh_metadata(Rsa::id(&client)).unwrap();
    assert!(Rsa::check_no_rollback(&client, &diff));
}

#[test]
fn try_request_file_refuses_unpublished() {
    let mut server = Rsa::batch_import(vec![package("a")]);
    assert!(server.try_request_file(None, &package("zzz")).is_none());
    assert!(server.try_request_file(None, &package("a")).is_some());
}

#[test]
fn batch_proofs_verify() {
    let mut server = Rsa::batch_import(vec![package("a"), package("b"), package("a")]);
    let snapshot = server.get_metadata();
    let (counts, proof) = server.batch_prove(vec![package("a"), package("b")]);
    assert_eq!(counts.get(&package("a")), Some(2));
    assert_eq!(counts.get(&package("b")), Some(1));
    assert!(Rsa::batch_verify(&snapshot, counts, proof));
}

#[test]
fn pool_publication_is_counted_and_processed() {
    let mut server = Pool::batch_import(vec![package("a"), package("b")]);
    let mut client = server.get_metadata();
    server.publish(package("a"));
    server.publish(package("c"));
    let (revision, _) = server.request_file(Pool::id(&client), &package("a"));
    assert_eq!(revision.get(), 2);
    let (revision, _) = server.request_file(Pool::id(&client), &package("c"));
    assert_eq!(revision.get(), 1);
    // The same day: the client learns the pool.
    let diff = server.refresh_metadata(Pool::id(&client)).unwrap();
    assert!(Pool::check_no_rollback(&client, &diff));
    Pool::update(&mut client, diff);
    assert!(server.refresh_metadata(Pool::id(&client)).is_none());
    let (revision, proof) = server.request_file(Pool::id(&client), &package("b"));
    assert!(Pool::verify_membership(&client, &package("b"), revision, proof));
    server.batch_process();
    let fresh = server.get_metadata();
    let (revision, proof) = server.request_file(Pool::id(&client), &package("a"));
    assert_eq!(revision.get(), 2);
    let (revision, proof) = server.request_file(Pool::id(&fresh), &package("c"));
    assert_eq!(revision.get(), 1);
    assert!(Pool::verify_membership(&fresh, &package("c"), revision, proof));
    let (revision, proof) = server.request_file(Pool::id(&fresh), &package("b"));
    assert!(Pool::verify_membership(&fresh, &package("b"), revision, proof));
}

#[test]
fn pool_snapshot_batch_verify_subtracts_pool() {
    let mut server = Pool::batch_import(vec![package("a")]);
    server.publish(package("a"));
    let client = server.get_metadata();
    let inner_counts = {
        let mut inner = Rsa::batch_import(vec![package("a")]);
        inner.batch_prove(vec![package("a")])
    };
    // Counts of 2 (1 before, 1 in the pool) check against the start of day.
    let mut counts = sssim::authenticator::package_map::PackageMap::<u32>::new();
    counts.insert(package("a"), 2);
    assert!(client.batch_verify(counts, inner_counts.1));
}

#[test]
fn every_served_proof_verifies() {
    let names = ["a", "a", "b", "c", "d", "e"];
    let mut server = Rsa::batch_import(names.iter().map(|n| package(n)).collect());
    server.publish(package("c"));
    server.publish(package("f"));
    server.publish(package("a"));
    let snapshot = server.get_metadata();
    for (name, expected) in [("a", 3), ("b", 1), ("c", 2), ("d", 1), ("e", 1), ("f", 1)] {
        let (revision, proof) = server.request_file(Rsa::id(&snapshot), &package(name));
        assert_eq!(revision.get(), expected);
        assert!(Rsa::verify_membership(&snapshot, &package(name), revision, proof), "{name}");
    }
}

#[test]
fn pool_request_without_snapshot_is_refused() {
    let mut server = Pool::batch_import(vec![package("a")]);
    assert!(server.try_request_file(None, &package("a")).is_none());
    let client = server.get_metadata();
    assert!(server.try_request_file(Pool::id(&client), &package("a")).is_some());
}
