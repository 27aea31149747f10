use merklewhitelist::merkle::{hash_leaf, hash_to_parent, merkle_verify, node_eq, Node};

use anchor_lang::solana_program::keccak;

fn keccak_one(data: &[u8; 32]) -> Node {
    keccak::hashv(&[data]).0
}

fn keccak_two(a: &Node, b: &Node) -> Node {
    keccak::hashv(&[a, b]).0
}

fn ident(byte: u8) -> [u8; 32] {
    [byte; 32]
}

#[test]
fn empty_proof_accepts_exactly_the_root() {
    let leaf = keccak_one(&ident(7));
    let other = keccak_one(&ident(8));
    assert!(merkle_verify(&vec![], &leaf, &leaf, 0));
    assert!(!merkle_verify(&vec![], &other, &leaf, 0));
}

#[test]
fn depth_one_tree_verifies_both_positions() {
    let a = keccak_one(&ident(1));
    let b = keccak_one(&ident(2));
    let root = keccak_two(&a, &b);
    assert!(merkle_verify(&vec![b], &root, &a, 0));
    assert!(merkle_verify(&vec![a], &root, &b, 1));
}

#[test]
fn proof_is_bound_to_its_position() {
    let a = keccak_one(&ident(1));
    let b = keccak_one(&ident(2));
    let root = keccak_two(&a, &b);
    // The proof cut for position 0 must not validate the same leaf at the
    // mirrored position, nor the sibling's value at position 0.
    assert!(!merkle_verify(&vec![b], &root, &a, 1));
    assert!(!merkle_verify(&vec![b], &root, &b, 0));
}

#[test]
fn four_leaf_tree_verifies_every_leaf() {
    let leaves: Vec<Node> = (1u8..=4).map(|k| keccak_one(&ident(k))).collect();
    let left = keccak_two(&leaves[0], &leaves[1]);
    let right = keccak_two(&leaves[2], &leaves[3]);
    let root = keccak_two(&left, &right);

    assert!(merkle_verify(&vec![leaves[1], right], &root, &leaves[0], 0));
    assert!(merkle_verify(&vec![leaves[0], right], &root, &leaves[1], 1));
    assert!(merkle_verify(&vec![leaves[3], left], &root, &leaves[2], 2));
    assert!(merkle_verify(&vec![leaves[2], left], &root, &leaves[3], 3));
}

#[test]
fn foreign_leaf_is_rejected() {
    let leaves: Vec<Node> = (1u8..=4).map(|k| keccak_one(&ident(k))).collect();
    let left = keccak_two(&leaves[0], &leaves[1]);
    let right = keccak_two(&leaves[2], &leaves[3]);
    let root = keccak_two(&left, &right);

    let foreign = keccak_one(&ident(9));
    for index in 0..4u64 {
        assert!(!merkle_verify(&vec![leaves[1], right], &root, &foreign, index));
    }
}

#[test]
fn wrong_length_proof_fails_equality() {
    let a = keccak_one(&ident(1));
    let b = keccak_one(&ident(2));
    let root = keccak_two(&a, &b);
    assert!(!merkle_verify(&vec![], &root, &a, 0));
    assert!(!merkle_verify(&vec![b, b], &root, &a, 0));
}

#[test]
fn hash_to_parent_matches_the_hash_primitive() {
    let a = keccak_one(&ident(3));
    let b = keccak_one(&ident(4));

    let mut node = a;
    hash_to_parent(&mut node, &b, true);
    assert_eq!(node, keccak_two(&a, &b));
    assert_ne!(node, a);

    let mut node = a;
    hash_to_parent(&mut node, &b, false);
    assert_eq!(node, keccak_two(&b, &a));
}

#[test]
fn hash_leaf_matches_the_hash_primitive() {
    let id = ident(5);
    assert_eq!(hash_leaf(&id), keccak_one(&id));
    assert_ne!(hash_leaf(&id), id);
}

#[test]
fn node_eq_compares_all_bytes() {
    let a = ident(6);
    let mut b = ident(6);
    assert!(node_eq(&a, &b));
    b[31] = 7;
    assert!(!node_eq(&a, &b));
}
