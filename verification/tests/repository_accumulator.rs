use sssim::bigint::{from_u64, BigInt};
use sssim::repository::rsa_accumulator::{RsaAccumulator, RsaAccumulatorDigest};

fn decimal(b: &BigInt) -> String {
    String::from_utf8(b.to_decimal()).unwrap()
}

#[test]
fn rsa_accumulator_test_rsa_accumulator() {
    let mut acc = RsaAccumulator::default();
    assert_eq!(decimal(acc.digest().inner()), "65537");
    assert!(acc.proove(&from_u64(5)).is_none());
    acc.add(from_u64(5));
    let witness = acc.proove(&from_u64(5)).unwrap();
    assert!(acc.digest().verify(&from_u64(5), witness));
}

#[test]
fn repository_accumulator_witnesses_for_several_members() {
    let mut acc = RsaAccumulator::default();
    for v in [3u64, 5, 7, 11] {
        acc.add(from_u64(v));
    }
    for v in [3u64, 5, 7, 11] {
        let witness = acc.proove(&from_u64(v)).unwrap();
        assert!(acc.digest().verify(&from_u64(v), witness));
    }
    let witness = acc.proove(&from_u64(3)).unwrap();
    assert!(!acc.digest().verify(&from_u64(5), witness));
    assert!(acc.proove(&from_u64(13)).is_none());
    // Adding a member a second time raises the digest again, and the
    // witnesses computed from the set no longer match it.
    acc.add(from_u64(5));
    let witness = acc.proove(&from_u64(3)).unwrap();
    assert!(!acc.digest().verify(&from_u64(3), witness));
    let digest = RsaAccumulatorDigest::from(from_u64(65537));
    assert_eq!(decimal(digest.inner()), "65537");
}
