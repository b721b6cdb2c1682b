use sssim::accumulator::rsa::{multiply_stuff, multiply_stuff2, Accumulator as RsaAccumulator};
use sssim::accumulator::{Accumulator, BatchAccumulator};
use sssim::bigint::{from_u64, BigInt};
use sssim::keyed_map::KeyedMap;
use sssim::multiset::MultiSet;
use sssim::primitives::{Prime, RsaGroup};

type Acc = RsaAccumulator<RsaGroup>;

fn prime(v: u64) -> Prime {
    Prime::try_from(from_u64(v)).unwrap()
}

fn decimal(b: &BigInt) -> String {
    String::from_utf8(b.to_decimal()).unwrap()
}

fn decimals(v: &[BigInt]) -> Vec<String> {
    v.iter().map(decimal).collect()
}

#[test]
fn test_multiply_stuff() {
    let values: Vec<BigInt> = vec![from_u64(2), from_u64(3)];
    let counts: Vec<u32> = vec![1, 1];
    let (each, total) = multiply_stuff(&values, &counts);
    assert_eq!(decimals(&each), vec!["3".to_string(), "2".to_string()]);
    assert_eq!(decimal(&total), "6");
}

#[test]
fn multiply_stuff_agrees_with_division() {
    let values: Vec<BigInt> = vec![from_u64(2), from_u64(9), from_u64(5), from_u64(1)];
    let counts: Vec<u32> = vec![3, 1, 2, 7];
    let (each, total) = multiply_stuff(&values, &counts);
    let (each2, total2) = multiply_stuff2(&values, &counts);
    assert_eq!(decimals(&each), decimals(&each2));
    assert_eq!(decimal(&total), decimal(&total2));
    // 2^3 * 9 * 5^2 * 1 = 1800
    assert_eq!(decimal(&total), "1800");
    assert_eq!(decimals(&each), vec!["225", "200", "72", "1800"]);
}

#[test]
fn imported_members_verify() {
    let mut multiset = MultiSet::<Prime>::default();
    multiset.insert(prime(3));
    multiset.insert(prime(5));
    multiset.insert(prime(5));
    let mut acc = Acc::import(multiset);
    assert_eq!(acc.get(&prime(3)), 1);
    assert_eq!(acc.get(&prime(5)), 2);
    assert_eq!(acc.get(&prime(7)), 0);
    let digest = acc.digest().duplicate();
    let witness = acc.prove(&prime(5), 2).unwrap();
    assert!(Acc::verify(&digest, &prime(5), 2, witness));
    let witness = acc.prove(&prime(5), 2).unwrap();
    assert!(!Acc::verify(&digest, &prime(5), 1, witness));
    // A proof is only given for the right count.
    assert!(acc.prove(&prime(5), 1).is_none());
}

#[test]
fn nonmember_proof_verifies_with_count_zero() {
    let mut multiset = MultiSet::<Prime>::default();
    multiset.insert(prime(3));
    let mut acc = Acc::import(multiset);
    let digest = acc.digest().duplicate();
    let witness = acc.prove(&prime(11), 0).unwrap();
    assert!(Acc::verify(&digest, &prime(11), 0, witness));
    assert!(acc.prove_nonmember(&prime(3)).is_none());
    assert!(acc.prove_nonmember(&prime(11)).is_some());
}

#[test]
fn increments_keep_witnesses_valid() {
    let mut acc = Acc::default();
    acc.increment(prime(3));
    acc.increment(prime(7));
    acc.increment(prime(3));
    assert_eq!(acc.get(&prime(3)), 2);
    assert_eq!(acc.get(&prime(7)), 1);
    let digest = acc.digest().duplicate();
    let witness = acc.prove(&prime(3), 2).unwrap();
    assert!(Acc::verify(&digest, &prime(3), 2, witness));
    let witness = acc.prove(&prime(7), 1).unwrap();
    assert!(Acc::verify(&digest, &prime(7), 1, witness));
}

#[test]
fn append_only_proof_verifies() {
    let mut acc = Acc::default();
    // The skip list holds long hops from the first digest.
    let old = acc.digest().duplicate();
    acc.increment(prime(3));
    acc.increment(prime(5));
    acc.increment(prime(7));
    acc.increment(prime(11));
    let new = acc.digest().duplicate();
    let proof = acc.prove_append_only(&old);
    assert!(Acc::verify_append_only(&old, &proof, &new));
    // The same proof does not lead from another digest.
    assert!(!Acc::verify_append_only(&new, &proof, &old));
}

#[test]
fn batch_increment_and_proofs() {
    let mut acc = Acc::default();
    acc.increment(prime(3));
    let before = acc.digest().duplicate();
    // New members need their witnesses of absence first.
    assert!(acc.prove_nonmember(&prime(5)).is_some());
    assert!(acc.prove_nonmember(&prime(13)).is_some());
    let proof = acc.increment_batch(vec![prime(5), prime(13), prime(5)]).unwrap();
    let after = acc.digest().duplicate();
    assert!(Acc::verify_append_only(&before, &proof, &after));
    assert_eq!(acc.get(&prime(5)), 2);
    assert_eq!(acc.get(&prime(3)), 1);
    let (counts, witness) = acc.prove_batch(vec![prime(5), prime(13), prime(3)]);
    assert_eq!(*counts.get(&prime(13)).unwrap(), 1);
    assert!(Acc::verify_batch(&after, &counts, witness));
    let mut wrong: KeyedMap<Prime, u32> = KeyedMap::new();
    wrong.insert(prime(5), 1);
    let (_, witness) = acc.prove_batch(vec![prime(5)]);
    assert!(!Acc::verify_batch(&after, &wrong, witness));
}

#[test]
fn batch_of_new_members_from_empty() {
    let mut acc = Acc::import(MultiSet::default());
    assert!(acc.prove_nonmember(&prime(2)).is_some());
    assert!(acc.prove_nonmember(&prime(3)).is_some());
    let old = acc.digest().duplicate();
    let w = acc.increment_batch(vec![prime(2), prime(3), prime(2)]).unwrap();
    assert_eq!(acc.get(&prime(2)), 2);
    assert_eq!(acc.get(&prime(3)), 1);
    let mut expected = MultiSet::<Prime>::default();
    expected.insert(prime(2));
    expected.insert(prime(2));
    expected.insert(prime(3));
    assert!(acc.digest().same(Acc::import(expected).digest()));
    let digest = acc.digest().duplicate();
    let witness = acc.prove(&prime(2), 2).unwrap();
    assert!(Acc::verify(&digest, &prime(2), 2, witness));
    assert!(Acc::verify_append_only(&old, &w, &digest));
}

#[test]
fn batch_keeps_witnesses_of_members_left_out_and_of_a_lone_repeat() {
    let mut members = MultiSet::<Prime>::default();
    members.insert(prime(2));
    members.insert(prime(5));
    let mut acc = Acc::import(members);
    assert!(acc.prove_nonmember(&prime(3)).is_some());
    assert!(acc.increment_batch(vec![prime(3), prime(3)]).is_some());
    let digest = acc.digest().duplicate();
    for (p, c) in [(2u64, 1u32), (5, 1), (3, 2)] {
        let witness = acc.prove(&prime(p), c).unwrap();
        assert!(Acc::verify(&digest, &prime(p), c, witness));
    }
    assert!(acc.increment_batch(vec![prime(5)]).is_some());
    let digest = acc.digest().duplicate();
    for (p, c) in [(2u64, 1u32), (5, 2), (3, 2)] {
        let witness = acc.prove(&prime(p), c).unwrap();
        assert!(Acc::verify(&digest, &prime(p), c, witness));
    }
}

#[test]
fn difference_ignores_members_only_in_other() {
    let mut a = MultiSet::<Prime>::default();
    a.insert(prime(3));
    a.insert(prime(3));
    a.insert(prime(5));
    let mut b = MultiSet::<Prime>::default();
    b.insert(prime(3));
    b.insert(prime(7));
    let mut d: Vec<(String, u32)> = a.difference(&b).iter().map(|(p, c)| (decimal(p.inner()), *c)).collect();
    d.sort();
    assert_eq!(d, vec![("3".to_string(), 1), ("5".to_string(), 1)]);
}
