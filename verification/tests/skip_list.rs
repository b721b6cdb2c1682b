use sssim::primitives::skip_list::find_max_pow;
use sssim::primitives::SkipList;

fn verify_proof(start: usize, end: usize, proof: (usize, usize)) -> bool {
    proof.0 == start && proof.1 == end
}

#[test]
fn test_find_max_pow() {
    assert_eq!(find_max_pow(1), 0);
    assert_eq!(find_max_pow(2), 1);
    assert_eq!(find_max_pow(3), 0);
    assert_eq!(find_max_pow(4), 2);
    assert_eq!(find_max_pow(5), 0);
    assert_eq!(find_max_pow(6), 1);
    assert_eq!(find_max_pow(7), 0);
    assert_eq!(find_max_pow(8), 3);
}

#[test]
fn test_skip_list() {
    let mut list = SkipList::<(usize, usize)>::default();
    list.add(0);
    list.add(1);

    println!("{:?}", list);

    let proof = list.read(0, 1);
    assert!(proof.len() == 1);
    assert_eq!(0, proof[0].1);
    assert!(verify_proof(0, 1, proof[0].0));

    list.add(2);
    list.add(3);
    list.add(4);
    list.add(5);
    list.add(6);
    list.add(7);

    println!("{:?}", list);

    let proof = list.read(0, 6);
    assert!(proof.len() == 2);
    assert_eq!(0, proof[0].1);
    assert!(verify_proof(0, 4, proof[0].0));
    assert_eq!(4, proof[1].1);
    assert!(verify_proof(4, 6, proof[1].0));
}

#[test]
fn find_max_pow_of_zero_is_zero() {
    assert_eq!(find_max_pow(0), 0);
    assert_eq!(find_max_pow(96), 5);
}

#[test]
fn skip_list_reads_hops_in_order() {
    let mut list = SkipList::<(usize, usize)>::new();
    assert!(list.is_empty());
    for i in 0..16 {
        list.add(i);
    }
    assert_eq!(list.len(), 16);
    assert!(!list.is_empty());
    let proof = list.read(0, 15);
    let hops: Vec<(usize, usize)> = proof.iter().map(|p| p.0).collect();
    assert_eq!(hops, vec![(0, 8), (8, 12), (12, 14), (14, 15)]);
    let proof = list.read(3, 4);
    assert_eq!(proof.len(), 1);
    assert_eq!(proof[0].0, (3, 4));
    assert_eq!(list.read(5, 5).len(), 0);
}
