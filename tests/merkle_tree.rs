use merkle_bench::bytes::{bitxor, init_bytes_vec, transform_u64_to_array_of_u8};
use merkle_bench::digest::{digest_eq, double_sha256, sha256};
use merkle_bench::inclusion::test_proof;
use merkle_bench::key::Key;
use merkle_bench::merkle::{merge_slices, merkle_root, MerkleError};
use merkle_bench::record::SiblingRecord;

fn leaf(tag: u8) -> [u8; 32] {
    let mut d = [0u8; 32];
    for (i, b) in d.iter_mut().enumerate() {
        *b = tag.wrapping_mul(31).wrapping_add(i as u8);
    }
    d
}

fn parent(a: &[u8; 32], b: &[u8; 32]) -> [u8; 32] {
    sha256(&sha256(&merge_slices(a, b)))
}

fn hex(d: &[u8]) -> String {
    d.iter().map(|b| format!("{:02x}", b)).collect()
}

#[test]
fn sha256_known_values() {
    assert_eq!(
        hex(&sha256(b"abc")),
        "ba7816bf8f01cfea414140de5dae2223b00361a396177a9cb410ff61f20015ad"
    );
    assert_eq!(
        hex(&sha256(b"")),
        "e3b0c44298fc1c149afbf4c8996fb92427ae41e4649b934ca495991b7852b855"
    );
}

#[test]
fn double_sha256_hashes_twice() {
    let once = sha256(b"hello");
    assert_eq!(double_sha256(b"hello"), sha256(&once));
    assert_ne!(double_sha256(b"hello"), once);
}

#[test]
fn merge_slices_concatenates() {
    assert_eq!(merge_slices(&[1, 2], &[3]), vec![1, 2, 3]);
    assert_eq!(merge_slices(&[], &[]), Vec::<u8>::new());
    assert_eq!(merge_slices(&[], &[9]), vec![9]);
}

#[test]
fn empty_list_is_refused() {
    let mut proofs = SiblingRecord::new();
    assert_eq!(merkle_root(&[], &mut proofs), Err(MerkleError::EmptyLeaves));
}

#[test]
fn single_leaf_is_its_own_root() {
    let a = leaf(1);
    let mut proofs = SiblingRecord::new();
    assert_eq!(merkle_root(&[a], &mut proofs), Ok(a));
    assert!(proofs.get(&a).is_none());
    assert!(test_proof(&a, &a, &proofs));
    assert!(!test_proof(&leaf(2), &a, &proofs));
}

#[test]
fn three_leaves_duplicate_the_tail() {
    let (a, b, c) = (leaf(1), leaf(2), leaf(3));
    let mut proofs = SiblingRecord::new();
    let root = merkle_root(&[a, b, c], &mut proofs).unwrap();
    let ab = parent(&a, &b);
    let cc = parent(&c, &c);
    assert_eq!(root, parent(&ab, &cc));
    assert_eq!(proofs.get(&c).unwrap(), &merge_slices(&c, &c));
    assert_eq!(proofs.get(&a).unwrap(), &merge_slices(&a, &b));
    assert_eq!(proofs.get(&b).unwrap(), &merge_slices(&a, &b));
    assert_eq!(proofs.get(&cc).unwrap(), &merge_slices(&ab, &cc));
    assert_eq!(proofs.get(&ab).unwrap(), &merge_slices(&ab, &cc));
    assert!(proofs.get(&root).is_none());
    // the walk from c: through (c, c), then through the last pair, to the root
    let step1 = double_sha256(proofs.get(&c).unwrap());
    assert_eq!(step1, cc);
    let step2 = double_sha256(proofs.get(&step1).unwrap());
    assert_eq!(step2, root);
    for l in [a, b, c] {
        assert!(test_proof(&root, &l, &proofs));
    }
}

#[test]
fn four_leaves_need_no_duplication() {
    let (a, b, c, d) = (leaf(1), leaf(2), leaf(3), leaf(4));
    let mut proofs = SiblingRecord::new();
    let root = merkle_root(&[a, b, c, d], &mut proofs).unwrap();
    assert_eq!(root, parent(&parent(&a, &b), &parent(&c, &d)));
    for l in [a, b, c, d] {
        let mut current = l;
        let mut steps = 0;
        while let Some(siblings) = proofs.get(&current) {
            current = double_sha256(siblings);
            steps += 1;
        }
        assert_eq!(steps, 2);
        assert_eq!(current, root);
        assert!(test_proof(&root, &l, &proofs));
    }
}

#[test]
fn two_leaves_root() {
    let (a, b) = (leaf(7), leaf(8));
    let mut proofs = SiblingRecord::new();
    let root = merkle_root(&[a, b], &mut proofs).unwrap();
    assert_eq!(root, parent(&a, &b));
    assert!(test_proof(&root, &a, &proofs));
    assert!(test_proof(&root, &b, &proofs));
}

#[test]
fn rebuilding_gives_the_same_root() {
    let leaves = init_bytes_vec(37);
    let mut first = SiblingRecord::new();
    let mut second = SiblingRecord::new();
    let r1 = merkle_root(&leaves, &mut first).unwrap();
    let r2 = merkle_root(&leaves, &mut second).unwrap();
    assert_eq!(r1, r2);
    for l in &leaves {
        assert_eq!(first.get(l), second.get(l));
    }
}

#[test]
fn every_leaf_verifies() {
    for n in [1usize, 2, 3, 5, 8, 13, 100, 1000] {
        let leaves = init_bytes_vec(n);
        let mut proofs = SiblingRecord::new();
        let root = merkle_root(&leaves, &mut proofs).unwrap();
        for l in &leaves {
            assert!(test_proof(&root, l, &proofs), "leaf of a tree over {} leaves", n);
        }
    }
}

#[test]
fn mutated_leaf_fails() {
    let leaves = init_bytes_vec(50);
    let mut proofs = SiblingRecord::new();
    let root = merkle_root(&leaves, &mut proofs).unwrap();
    for (i, l) in leaves.iter().enumerate() {
        for pos in [0usize, 9, 31] {
            let mut changed = *l;
            changed[pos] ^= 0x5a;
            assert!(!test_proof(&root, &changed, &proofs), "leaf {} byte {}", i, pos);
        }
    }
}

#[test]
fn wrong_root_fails() {
    let leaves = init_bytes_vec(10);
    let mut proofs = SiblingRecord::new();
    let root = merkle_root(&leaves, &mut proofs).unwrap();
    let mut other = root;
    other[0] ^= 1;
    assert!(!test_proof(&other, &leaves[3], &proofs));
}

#[test]
fn walk_round_a_cycle_gives_up() {
    // a record whose only entry leads back to its own key
    let a = leaf(5);
    let siblings = merge_slices(&a, &a);
    let target = double_sha256(&siblings);
    let mut proofs = SiblingRecord::new();
    proofs.insert(a, siblings.clone());
    proofs.insert(target, siblings);
    assert!(!test_proof(&target, &a, &proofs));
    assert!(!test_proof(&a, &a, &proofs));
}

#[test]
fn duplicate_leaves_still_verify() {
    let (a, b) = (leaf(1), leaf(2));
    let leaves = [a, b, a, a, b];
    let mut proofs = SiblingRecord::new();
    let root = merkle_root(&leaves, &mut proofs).unwrap();
    for l in &leaves {
        assert!(test_proof(&root, l, &proofs));
    }
}

#[test]
fn record_insert_replaces() {
    let a = leaf(1);
    let mut proofs = SiblingRecord::new();
    assert!(proofs.get(&a).is_none());
    proofs.insert(a, vec![1u8; 64]);
    assert_eq!(proofs.get(&a).unwrap(), &vec![1u8; 64]);
    proofs.insert(a, vec![2u8; 64]);
    assert_eq!(proofs.get(&a).unwrap(), &vec![2u8; 64]);
    // same leading bytes, different digest
    let mut b = a;
    b[31] ^= 1;
    assert!(proofs.get(&b).is_none());
    proofs.insert(b, vec![3u8; 64]);
    assert_eq!(proofs.get(&a).unwrap(), &vec![2u8; 64]);
    assert_eq!(proofs.get(&b).unwrap(), &vec![3u8; 64]);
}

#[test]
fn building_into_a_used_record_keeps_other_entries() {
    let x = leaf(200);
    let mut proofs = SiblingRecord::new();
    proofs.insert(x, vec![7u8; 64]);
    let leaves = init_bytes_vec(4);
    let root = merkle_root(&leaves, &mut proofs).unwrap();
    assert_eq!(proofs.get(&x).unwrap(), &vec![7u8; 64]);
    assert!(test_proof(&root, &leaves[2], &proofs));
}

#[test]
fn digest_eq_compares_bytes() {
    let a = leaf(1);
    let mut b = a;
    assert!(digest_eq(&a, &b));
    b[17] ^= 1;
    assert!(!digest_eq(&a, &b));
}

#[test]
fn leaf_patterns_hold_their_number() {
    let v = init_bytes_vec(300);
    assert_eq!(v.len(), 300);
    assert_eq!(v[0], [0u8; 32]);
    let mut expected = [0u8; 32];
    expected[0] = 2;
    expected[1] = 1;
    assert_eq!(v[258], expected);
    assert!(init_bytes_vec(0).is_empty());
}

#[test]
fn u64_bytes_are_big_endian() {
    assert_eq!(
        transform_u64_to_array_of_u8(0x0102030405060708),
        [1, 2, 3, 4, 5, 6, 7, 8]
    );
    assert_eq!(transform_u64_to_array_of_u8(u64::MAX), [0xff; 8]);
    assert_eq!(transform_u64_to_array_of_u8(0), [0; 8]);
}

#[test]
fn key_bytes_and_order() {
    let k = Key::from(258);
    assert_eq!(k.key, 258);
    assert_eq!(k.to_bytes(), [0, 0, 0, 0, 0, 0, 1, 2]);
    assert!(Key::from(1) < Key::from(2));
    assert_eq!(Key::from(9), Key::from(9));
    let _ = Key::new().to_bytes();
}

#[test]
fn bitxor_is_bytewise() {
    let a = [0b1100u8; 32];
    let mut b = [0b1010u8; 32];
    b[5] = 0;
    let r = bitxor(&a, &b);
    assert_eq!(r[0], 0b0110);
    assert_eq!(r[5], 0b1100);
    assert_eq!(bitxor(&r, &b), a);
}


#[test]
fn long_chain_of_trees_verifies() {
    // 70 two-leaf trees built into one record, each one's first leaf being the
    // previous root: the walk from the first leaf climbs through all of them
    let mut proofs = SiblingRecord::new();
    let first = leaf(1);
    let mut current = first;
    for t in 0..70u8 {
        let mut other = leaf(2);
        other[0] = t;
        other[1] = 0xee;
        current = merkle_root(&[current, other], &mut proofs).unwrap();
    }
    assert_eq!(proofs.len(), 140);
    assert!(test_proof(&current, &first, &proofs));
    let mut wrong = current;
    wrong[3] ^= 1;
    assert!(!test_proof(&wrong, &first, &proofs));
}

#[test]
fn record_len_counts_distinct_digests() {
    let mut proofs = SiblingRecord::new();
    assert_eq!(proofs.len(), 0);
    proofs.insert(leaf(1), vec![0u8; 64]);
    proofs.insert(leaf(2), vec![0u8; 64]);
    proofs.insert(leaf(1), vec![1u8; 64]);
    assert_eq!(proofs.len(), 2);
    let leaves = init_bytes_vec(4);
    let mut built = SiblingRecord::new();
    merkle_root(&leaves, &mut built).unwrap();
    // four leaves and two parents
    assert_eq!(built.len(), 6);
}

#[test]
fn repeated_checks_through_a_shared_record_agree() {
    let leaves = init_bytes_vec(64);
    let mut proofs = SiblingRecord::new();
    let root = merkle_root(&leaves, &mut proofs).unwrap();
    let shared = &proofs;
    let first: Vec<bool> = leaves.iter().map(|l| test_proof(&root, l, shared)).collect();
    let second: Vec<bool> = leaves.iter().map(|l| test_proof(&root, l, shared)).collect();
    assert_eq!(first, second);
    assert!(first.iter().all(|&ok| ok));
    assert_eq!(shared.len(), 64 + 32 + 16 + 8 + 4 + 2);
}
