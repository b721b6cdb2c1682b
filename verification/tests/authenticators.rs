use sssim::authenticator::{Authenticator, Hackage, Insecure, MercuryDiff, VanillaTuf};
use sssim::log::PackageId;

fn package(name: &str) -> PackageId {
    PackageId(name.to_string())
}

fn exercise<A: Authenticator>(mut server: A)
where
    A::ClientSnapshot: Default,
{
    let mut client = A::ClientSnapshot::default();
    server.publish(package("a"));
    server.publish(package("b"));
    server.publish(package("a"));
    if let Some(diff) = server.refresh_metadata(A::id(&client)) {
        assert!(A::check_no_rollback(&client, &diff));
        A::update(&mut client, diff);
    }
    if let Some(diff) = server.refresh_metadata(A::id(&client)) {
        assert!(A::check_no_rollback(&client, &diff));
        A::update(&mut client, diff);
    }
    let (revision, proof) = server.request_file(A::id(&client), &package("a"));
    assert_eq!(revision.get(), 2);
    assert!(A::verify_membership(&client, &package("a"), revision, proof));
}

#[test]
fn vanilla_tuf_round_trip() {
    exercise(VanillaTuf::batch_import(vec![]));
}

#[test]
fn mercury_diff_round_trip() {
    exercise(MercuryDiff::batch_import(vec![]));
}

#[test]
fn hackage_round_trip() {
    exercise(Hackage::batch_import(vec![]));
}

#[test]
fn insecure_accepts_everything() {
    let mut server = Insecure::batch_import(vec![package("a")]);
    let client = server.get_metadata();
    let (revision, proof) = server.request_file(Insecure::id(&client), &package("zzz"));
    assert!(Insecure::verify_membership(&client, &package("zzz"), revision, proof));
    assert_eq!(Insecure::name(), "insecure");
}

#[test]
fn vanilla_tuf_import_starts_at_revision_one() {
    let mut server = VanillaTuf::batch_import(vec![package("a"), package("b")]);
    let client = server.get_metadata();
    let (revision, _) = server.request_file(VanillaTuf::id(&client), &package("b"));
    assert_eq!(revision.get(), 1);
}

#[test]
fn mercury_diff_rejects_rollback() {
    let mut server = MercuryDiff::batch_import(vec![package("a")]);
    let mut client = server.get_metadata();
    server.publish(package("a"));
    let newer = server.get_metadata();
    let diff = server.refresh_metadata(MercuryDiff::id(&client)).unwrap();
    assert!(MercuryDiff::check_no_rollback(&client, &diff));
    MercuryDiff::update(&mut client, diff);
    assert_eq!(MercuryDiff::id(&client), MercuryDiff::id(&newer));
}
