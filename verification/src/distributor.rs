//! Capped, whitelist-gated mint authorization.
//!
//! A `MerkleTokenDistributor` record holds a published Merkle root that
//! identifies the whitelist snapshot, together with the mint bookkeeping:
//! the cumulative amount authorized so far and the hard cap fixed at
//! creation. `mint_token_to_wallet` is the single authorization gate: it
//! checks the caller's signature flag, the inclusion proof against the
//! record's root, the ownership of the destination, and the cap, and
//! commits the counter update only when every check passes. A rejected
//! attempt leaves the record exactly as it was.

use vstd::prelude::*;
use crate::merkle::{Node, keccak_hash, merkle_root_from, nodes_view, hash_leaf, merkle_verify, node_eq};

verus! {

/// Why an authorization attempt was rejected. Each condition is terminal
/// for the attempt; none is retried internally.
#[derive(Clone, Copy, Debug, PartialEq, Eq, Structural)]
pub enum MerkleError {
    /// The inclusion proof does not place the claimant's leaf under the
    /// distributor's root.
    InvalidProof,
    /// The caller did not authenticate as the claimed identity.
    Unauthorized,
    /// The destination account's registered owner differs from the
    /// claimant.
    OwnerMismatch,
    /// Granting the request would push the cumulative total over the cap.
    ExceededMaxMint,
}

/// The persistent authorization record of one distributor instance.
pub struct MerkleTokenDistributor {
    /// 256-bit Merkle root of the whitelist snapshot; immutable after
    /// creation.
    pub root: Node,
    /// Bump seed of the derived identity handle that ties the record to
    /// its creator; opaque to this logic.
    pub bump: u8,
    /// Total token amount authorized so far.
    pub total_amount_minted: u64,
    /// Hard cap on the cumulative amount; fixed at creation.
    pub max_mint_amount: u64,
}

impl MerkleTokenDistributor {
    /// The record's invariant: the running total never passes the cap.
    pub open spec fn wf(self) -> bool {
        self.total_amount_minted <= self.max_mint_amount
    }

    /// Whether `identity`'s leaf sits at position `index` under this
    /// record's root, as witnessed by `proof`.
    pub open spec fn leaf_included(self, identity: Seq<u8>, index: nat, proof: Seq<Seq<u8>>) -> bool {
        merkle_root_from(keccak_hash(identity), index, proof) == self.root@
    }

    /// Whether granting `amount` more units keeps the total under the cap.
    pub open spec fn cap_allows(self, amount: u64) -> bool {
        self.total_amount_minted + amount <= self.max_mint_amount
    }

    /// The record after a granted authorization of `amount` units: only
    /// the running total moves.
    pub open spec fn after_mint(self, amount: u64) -> Self {
        MerkleTokenDistributor {
            total_amount_minted: (self.total_amount_minted + amount) as u64,
            ..self
        }
    }
}

/// Creates the record: root and cap fixed for its whole life, nothing
/// authorized yet.
pub fn init_distributor(root: Node, bump: u8, max_mint_amount: u64) -> (d: MerkleTokenDistributor)
    ensures
        d.root == root,
        d.bump == bump,
        d.total_amount_minted == 0,
        d.max_mint_amount == max_mint_amount,
        d.wf(),
{
    MerkleTokenDistributor { root, bump, total_amount_minted: 0, max_mint_amount }
}

/// The authorization gate, invoked once per minting attempt.
///
/// `payer_key` is the claimant's identity as verified by the host;
/// `payer_is_signer` is the host's assertion that this identity signed the
/// attempt; `recipient_owner` is the registered owner of the destination
/// account. The claimant's leaf is the keccak-256 digest of `payer_key`,
/// and `proof` must place it, at position `leaf_index`, under the record's
/// root. Exactly one error is possible per attempt, decided in this order:
/// signature, proof, ownership, cap. Only a fully granted attempt moves
/// the running total; the actual unit transfer is the external ledger's
/// task, committed by the host in the same atomic unit.
pub fn mint_token_to_wallet(
    distributor: &mut MerkleTokenDistributor,
    payer_key: &[u8; 32],
    payer_is_signer: bool,
    recipient_owner: &[u8; 32],
    amount: u64,
    proof: &Vec<Node>,
    leaf_index: u64,
) -> (r: Result<(), MerkleError>)
    requires
        old(distributor).wf(),
    ensures
        final(distributor).wf(),
        ({
            let included = old(distributor).leaf_included(
                payer_key@, leaf_index as nat, nodes_view(proof@));
            let owner_ok = recipient_owner@ == payer_key@;
            let fits = old(distributor).cap_allows(amount);
            &&& (r == Result::<(), MerkleError>::Err(MerkleError::Unauthorized)
                    <==> !payer_is_signer)
            &&& (r == Result::<(), MerkleError>::Err(MerkleError::InvalidProof)
                    <==> payer_is_signer && !included)
            &&& (r == Result::<(), MerkleError>::Err(MerkleError::OwnerMismatch)
                    <==> payer_is_signer && included && !owner_ok)
            &&& (r == Result::<(), MerkleError>::Err(MerkleError::ExceededMaxMint)
                    <==> payer_is_signer && included && owner_ok && !fits)
            &&& (r == Result::<(), MerkleError>::Ok(())
                    <==> payer_is_signer && included && owner_ok && fits)
        }),
        r is Ok ==> *final(distributor) == old(distributor).after_mint(amount),
        r is Err ==> *final(distributor) == *old(distributor),
{
    if !payer_is_signer {
        return Err(MerkleError::Unauthorized);
    }

    let leaf = hash_leaf(payer_key);
    if !merkle_verify(proof, &distributor.root, &leaf, leaf_index) {
        return Err(MerkleError::InvalidProof);
    }

    if !node_eq(recipient_owner, payer_key) {
        return Err(MerkleError::OwnerMismatch);
    }

    if amount > distributor.max_mint_amount - distributor.total_amount_minted {
        return Err(MerkleError::ExceededMaxMint);
    }

    distributor.total_amount_minted = distributor.total_amount_minted + amount;
    Ok(())
}

/// The total of a sequence of granted amounts.
pub open spec fn sum_amounts(amounts: Seq<u64>) -> int
    decreases amounts.len(),
{
    if amounts.len() == 0 {
        0
    } else {
        amounts[0] + sum_amounts(amounts.skip(1))
    }
}

/// The record after the whole sequence of granted authorizations.
pub open spec fn run_mints(d: MerkleTokenDistributor, amounts: Seq<u64>) -> MerkleTokenDistributor
    decreases amounts.len(),
{
    if amounts.len() == 0 {
        d
    } else {
        run_mints(d.after_mint(amounts[0]), amounts.skip(1))
    }
}

/// Whether every authorization in the sequence passes the cap check
/// against the record as it stands when its turn comes.
pub open spec fn all_within_cap(d: MerkleTokenDistributor, amounts: Seq<u64>) -> bool
    decreases amounts.len(),
{
    if amounts.len() == 0 {
        true
    } else {
        d.cap_allows(amounts[0]) && all_within_cap(d.after_mint(amounts[0]), amounts.skip(1))
    }
}

/// A sequence accepted in full is accepted up to any step.
proof fn lemma_within_cap_prefix(d: MerkleTokenDistributor, amounts: Seq<u64>, k: int)
    requires
        all_within_cap(d, amounts),
        0 <= k <= amounts.len(),
    ensures
        all_within_cap(d, amounts.take(k)),
    decreases k,
{
    if k > 0 {
        assert(amounts.take(k)[0] == amounts[0]);
        assert(amounts.take(k).skip(1) =~= amounts.skip(1).take(k - 1));
        lemma_within_cap_prefix(d.after_mint(amounts[0]), amounts.skip(1), k - 1);
    } else {
        assert(amounts.take(0) =~= Seq::<u64>::empty());
    }
}

/// After a fully granted sequence the total is the starting total plus the
/// exact sum of the amounts, it stays under the cap, and root, bump and
/// cap are untouched.
proof fn lemma_run_mints_total(d: MerkleTokenDistributor, amounts: Seq<u64>)
    requires
        d.wf(),
        all_within_cap(d, amounts),
    ensures
        run_mints(d, amounts).total_amount_minted
            == d.total_amount_minted + sum_amounts(amounts),
        run_mints(d, amounts).wf(),
        run_mints(d, amounts).root == d.root,
        run_mints(d, amounts).bump == d.bump,
        run_mints(d, amounts).max_mint_amount == d.max_mint_amount,
    decreases amounts.len(),
{
    if amounts.len() > 0 {
        lemma_run_mints_total(d.after_mint(amounts[0]), amounts.skip(1));
    }
}

/// Cap monotonicity: along any sequence of granted authorizations, the
/// total after step `k` is exactly the sum of the first `k` amounts on top
/// of the starting total, and no step is granted that would push the total
/// over the cap.
pub proof fn lemma_cap_monotonicity(d: MerkleTokenDistributor, amounts: Seq<u64>)
    requires
        d.wf(),
        all_within_cap(d, amounts),
    ensures
        forall|k: int| 0 <= k <= amounts.len() ==> {
            let at_k = #[trigger] run_mints(d, amounts.take(k));
            &&& at_k.total_amount_minted == d.total_amount_minted + sum_amounts(amounts.take(k))
            &&& at_k.total_amount_minted <= d.max_mint_amount
        },
{
    assert forall|k: int| 0 <= k <= amounts.len() implies {
        let at_k = #[trigger] run_mints(d, amounts.take(k));
        &&& at_k.total_amount_minted == d.total_amount_minted + sum_amounts(amounts.take(k))
        &&& at_k.total_amount_minted <= d.max_mint_amount
    } by {
        lemma_within_cap_prefix(d, amounts, k);
        lemma_run_mints_total(d, amounts.take(k));
    }
}

} // verus!

