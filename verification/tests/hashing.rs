use sssim::repository::hash_to_prime::{hash_to_prime as hash_below, pick_prime_below};
use rug::Complete;
use digest::{ExtendableOutput, Update, XofReader};
use sssim::bigint::{
    div_rem, extended_gcd, from_u64, less_than, multiply, pow_mod, power, probably_prime, BigInt,
};
use sssim::hash_to_prime::{hash_to_prime, IntegerHasher};

fn decimal(b: &BigInt) -> String {
    String::from_utf8(b.to_decimal()).unwrap()
}

fn expected_prime(data: &[u8]) -> rug::Integer {
    let mut hasher = sha3::Shake256::default();
    hasher.update(data);
    let mut reader = hasher.finalize_xof();
    loop {
        let mut block = [0u8; 32];
        reader.read(&mut block);
        let x = rug::Integer::from_digits(&block, rug::integer::Order::Lsf);
        if x > 0 && x.is_probably_prime(30) != rug::integer::IsPrime::No {
            return x;
        }
    }
}

#[test]
fn hash_to_prime_matches_shake256() {
    for data in [&b"hello"[..], &b""[..], &b"sssim"[..]] {
        let p = hash_to_prime(data).unwrap();
        assert_eq!(decimal(p.inner()), expected_prime(data).to_string());
    }
}

#[test]
fn integer_hasher_reads_successive_blocks() {
    let mut hasher = sha3::Shake256::default();
    hasher.update(b"abc");
    let mut reader = hasher.finalize_xof();
    let mut ours = IntegerHasher::new(b"abc", 5);
    for _ in 0..4 {
        let mut block = [0u8; 5];
        reader.read(&mut block);
        let x = rug::Integer::from_digits(&block, rug::integer::Order::Lsf);
        assert_eq!(decimal(&ours.hash()), x.to_string());
    }
}

#[test]
fn integer_operations() {
    let a = from_u64(1_000_003);
    let b = from_u64(97);
    assert_eq!(decimal(&multiply(&a, &b)), "97000291");
    let (q, r) = div_rem(&a, &b);
    assert_eq!(decimal(&q), "10309");
    assert_eq!(decimal(&r), "30");
    assert_eq!(decimal(&power(&b, 3)), "912673");
    assert_eq!(decimal(&pow_mod(&from_u64(4), &from_u64(13), &from_u64(497))), "445");
    let (g, s, t) = extended_gcd(&from_u64(240), &from_u64(46));
    assert_eq!(decimal(&g), "2");
    let combined = sssim::bigint::plus(&multiply(&from_u64(240), &s), &multiply(&from_u64(46), &t));
    assert_eq!(decimal(&combined), "2");
    assert!(probably_prime(&from_u64(1_000_003)));
    assert!(!probably_prime(&from_u64(1_000_001)));
    assert!(less_than(&b, &a));
}

fn expected_below(data: &[u8], modulus: &rug::Integer) -> Option<rug::Integer> {
    let mut hasher = sha3::Shake256::default();
    hasher.update(data);
    let mut reader = hasher.finalize_xof();
    let mut result: Vec<u8> = vec![0; modulus.significant_digits::<u8>()];
    let bits: u32 = (modulus.significant_digits::<u8>() * 8) as u32;
    let s = modulus;
    let (t, _) = ((rug::Integer::from(2) << bits) - s).div_rem_ref(s).complete();
    for _ in 0..3 {
        reader.read(&mut result);
        let mut x = rug::Integer::from_digits(&result, rug::integer::Order::Lsf);
        let mut m = x * s;
        let mut l = m.clone().keep_bits(bits);
        if &l < s {
            while l < t {
                reader.read(&mut result);
                x = rug::Integer::from_digits(&result, rug::integer::Order::Lsf);
                m = x * s;
                l = m.clone().keep_bits(bits);
            }
        }
        let candidate = m >> bits;
        if candidate.is_probably_prime(30) == rug::integer::IsPrime::No {
            continue;
        }
        return Some(candidate);
    }
    None
}

#[test]
fn hash_to_prime_below_modulus() {
    let mut found = 0;
    for (i, data) in [&b"data"[..], &b"more"[..], &b"x"[..], &b""[..], &b"sssim"[..], &b"tuf"[..]].iter().enumerate() {
        let value = 200 + 1000 * i as u64;
        let modulus = from_u64(value);
        let ours = sssim::repository::hash_to_prime::hash_to_prime(data, &modulus);
        let theirs = expected_below(data, &rug::Integer::from(value));
        match (ours, theirs) {
            (Ok(p), Some(q)) => {
                assert_eq!(decimal(&p), q.to_string());
                assert!(less_than(&p, &modulus));
                assert!(probably_prime(&p));
                found += 1;
            }
            (Err(_), None) => {}
            (ours, theirs) => panic!("disagree: {:?} {:?}", ours.is_ok(), theirs),
        }
    }
    assert!(found > 0);
}

#[test]
fn extended_gcd_normalized_coefficients() {
    let (g, s, t) = extended_gcd(&from_u64(4), &from_u64(6));
    assert_eq!((decimal(&g), decimal(&s), decimal(&t)), ("2".to_string(), "-1".to_string(), "1".to_string()));
    let (g, s, t) = extended_gcd(&from_u64(1), &from_u64(5));
    assert_eq!((decimal(&g), decimal(&s), decimal(&t)), ("1".to_string(), "1".to_string(), "0".to_string()));
    let (g, s, t) = extended_gcd(&from_u64(1), &from_u64(2));
    assert_eq!((decimal(&g), decimal(&s), decimal(&t)), ("1".to_string(), "1".to_string(), "0".to_string()));
    let (g, s, t) = extended_gcd(&from_u64(3), &from_u64(3));
    assert_eq!((decimal(&g), decimal(&s), decimal(&t)), ("3".to_string(), "0".to_string(), "1".to_string()));
}

#[test]
fn pick_prime_below_exact_values() {
    let modulus = from_u64(200);
    assert_eq!(decimal(&pick_prime_below(&[10], &modulus).unwrap()), "7");
    assert_eq!(decimal(&pick_prime_below(&[1, 3], &modulus).unwrap()), "2");
    assert!(pick_prime_below(&[], &modulus).is_err());
    assert!(pick_prime_below(&[1], &modulus).is_err());
}

#[test]
fn pick_prime_below_agrees_with_hash_to_prime() {
    for (i, data) in [&b"data"[..], &b"more"[..], &b"x"[..], &b"sssim"[..]].iter().enumerate() {
        let modulus = from_u64(200 + 1000 * i as u64);
        let mut hasher = sha3::Shake256::default();
        hasher.update(data);
        let mut reader = hasher.finalize_xof();
        let mut stream = vec![0u8; 3 * 10001 * 2];
        reader.read(&mut stream);
        let ours = pick_prime_below(&stream, &modulus).map(|p| decimal(&p));
        let theirs = hash_below(data, &modulus).map(|p| decimal(&p));
        assert_eq!(ours.ok(), theirs.ok());
    }
}
