use merklewhitelist::distributor::{init_distributor, mint_token_to_wallet, MerkleError};
use merklewhitelist::merkle::Node;

use anchor_lang::solana_program::keccak;

struct Whitelist {
    identities: Vec<[u8; 32]>,
    root: Node,
    left: Node,
    right: Node,
    leaves: Vec<Node>,
}

fn four_identity_whitelist() -> Whitelist {
    let identities: Vec<[u8; 32]> = (10u8..=13).map(|k| [k; 32]).collect();
    let leaves: Vec<Node> = identities.iter().map(|id| keccak::hashv(&[id]).0).collect();
    let left = keccak::hashv(&[&leaves[0], &leaves[1]]).0;
    let right = keccak::hashv(&[&leaves[2], &leaves[3]]).0;
    let root = keccak::hashv(&[&left, &right]).0;
    Whitelist { identities, root, left, right, leaves }
}

#[test]
fn init_distributor_fixes_root_and_cap() {
    let w = four_identity_whitelist();
    let d = init_distributor(w.root, 254, 1000);
    assert_eq!(d.root, w.root);
    assert_eq!(d.bump, 254);
    assert_eq!(d.total_amount_minted, 0);
    assert_eq!(d.max_mint_amount, 1000);
}

#[test]
fn granted_then_capped() {
    let w = four_identity_whitelist();
    let mut d = init_distributor(w.root, 255, 100);

    let a = w.identities[0];
    let proof_a = vec![w.leaves[1], w.right];
    let r = mint_token_to_wallet(&mut d, &a, true, &a, 100, &proof_a, 0);
    assert_eq!(r, Ok(()));
    assert_eq!(d.total_amount_minted, 100);

    let b = w.identities[1];
    let proof_b = vec![w.leaves[0], w.right];
    let r = mint_token_to_wallet(&mut d, &b, true, &b, 1, &proof_b, 1);
    assert_eq!(r, Err(MerkleError::ExceededMaxMint));
    assert_eq!(d.total_amount_minted, 100);
}

#[test]
fn owner_mismatch_leaves_state_unchanged() {
    let w = four_identity_whitelist();
    let mut d = init_distributor(w.root, 255, 100);

    let a = w.identities[0];
    let b = w.identities[1];
    let proof_a = vec![w.leaves[1], w.right];
    let r = mint_token_to_wallet(&mut d, &a, true, &b, 10, &proof_a, 0);
    assert_eq!(r, Err(MerkleError::OwnerMismatch));
    assert_eq!(d.total_amount_minted, 0);
    assert_eq!(d.root, w.root);
    assert_eq!(d.max_mint_amount, 100);
}

#[test]
fn unsigned_attempt_is_unauthorized() {
    let w = four_identity_whitelist();
    let mut d = init_distributor(w.root, 255, 100);

    let a = w.identities[0];
    let proof_a = vec![w.leaves[1], w.right];
    let r = mint_token_to_wallet(&mut d, &a, false, &a, 10, &proof_a, 0);
    assert_eq!(r, Err(MerkleError::Unauthorized));
    assert_eq!(d.total_amount_minted, 0);
}

#[test]
fn foreign_claimant_gets_invalid_proof() {
    let w = four_identity_whitelist();
    let mut d = init_distributor(w.root, 255, 100);

    let outsider = [99u8; 32];
    let proof_a = vec![w.leaves[1], w.right];
    let r = mint_token_to_wallet(&mut d, &outsider, true, &outsider, 10, &proof_a, 0);
    assert_eq!(r, Err(MerkleError::InvalidProof));
    assert_eq!(d.total_amount_minted, 0);
}

#[test]
fn replayed_proof_at_wrong_position_is_invalid() {
    let w = four_identity_whitelist();
    let mut d = init_distributor(w.root, 255, 100);

    let a = w.identities[0];
    let proof_a = vec![w.leaves[1], w.right];
    let r = mint_token_to_wallet(&mut d, &a, true, &a, 10, &proof_a, 1);
    assert_eq!(r, Err(MerkleError::InvalidProof));
    assert_eq!(d.total_amount_minted, 0);
}

#[test]
fn totals_accumulate_across_grants() {
    let w = four_identity_whitelist();
    let mut d = init_distributor(w.root, 255, 100);

    let a = w.identities[0];
    let proof_a = vec![w.leaves[1], w.right];
    assert_eq!(mint_token_to_wallet(&mut d, &a, true, &a, 30, &proof_a, 0), Ok(()));
    assert_eq!(d.total_amount_minted, 30);

    let c = w.identities[2];
    let proof_c = vec![w.leaves[3], w.left];
    assert_eq!(mint_token_to_wallet(&mut d, &c, true, &c, 70, &proof_c, 2), Ok(()));
    assert_eq!(d.total_amount_minted, 100);
}
