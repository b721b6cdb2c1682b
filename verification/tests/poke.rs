use sssim::bigint::from_u64;
use sssim::poke::{Instance, Witness, ZKUniverse};
use sssim::primitives::{Group, RsaGroup};

#[test]
fn proof_of_knowledge_of_exponent_verifies() {
    let u = RsaGroup::one();
    let x = from_u64(123_456_789);
    let w = u.mul(&x);
    let zku = ZKUniverse::<RsaGroup>::default();
    let proof = zku
        .prove(Instance { w: w.duplicate(), u: u.duplicate() }, Witness { x })
        .unwrap();
    assert!(zku.verify(Instance { w: w.duplicate(), u: u.duplicate() }, proof));
    // A proof for another exponent does not verify for this instance.
    let other = zku
        .prove(Instance { w: u.mul(&from_u64(5)), u: u.duplicate() }, Witness { x: from_u64(5) })
        .unwrap();
    assert!(!zku.verify(Instance { w, u }, other));
}
