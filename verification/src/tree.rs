//! The tree-construction model and the laws relating it to verification.
//!
//! `tree_root` and `tree_proof` say how a complete binary Merkle tree is
//! built over a sequence of leaves and which sibling path belongs to each
//! position. The laws below relate them to `merkle_root_from`: a true path
//! recomputes the root (soundness); and, under the standard hypotheses on
//! the hash, a path that recomputes the root pins the leaf to its position
//! (rejection of foreign leaves, position binding).

use vstd::prelude::*;
use vstd::arithmetic::power2::{pow2, lemma_pow2_unfold, lemma_pow2_pos, lemma2_to64};
use vstd::arithmetic::div_mod::{
    lemma_basic_div, lemma_small_mod, lemma_mod_multiples_vanish, lemma_div_denominator,
    lemma_fundamental_div_mod, lemma_mod_bound, lemma_mod_breakdown,
};
use crate::merkle::{keccak_hash, parent_hash, merkle_root_from};

verus! {

/// The root of the complete binary tree over `leaves`: a single leaf is
/// its own root; otherwise the parent digest of the two half-trees' roots,
/// left half first.
pub open spec fn tree_root(leaves: Seq<Seq<u8>>) -> Seq<u8>
    recommends
        leaves.len() >= 1,
    decreases leaves.len(),
{
    if leaves.len() <= 1 {
        if leaves.len() == 1 {
            leaves[0]
        } else {
            Seq::empty()
        }
    } else {
        parent_hash(
            tree_root(leaves.take(leaves.len() as int / 2)),
            tree_root(leaves.skip(leaves.len() as int / 2)),
        )
    }
}

/// The sibling path of the leaf at position `i`, bottom level first: the
/// path within the half holding `i`, then the other half's root.
pub open spec fn tree_proof(leaves: Seq<Seq<u8>>, i: nat) -> Seq<Seq<u8>>
    recommends
        leaves.len() >= 1,
        i < leaves.len(),
    decreases leaves.len(),
{
    if leaves.len() <= 1 {
        Seq::empty()
    } else {
        let half = leaves.len() as int / 2;
        if i < half {
            tree_proof(leaves.take(half), i).push(tree_root(leaves.skip(half)))
        } else {
            tree_proof(leaves.skip(half), (i - half) as nat).push(tree_root(leaves.take(half)))
        }
    }
}

/// Every entry is a 32-byte digest.
pub open spec fn all_nodes_wide(s: Seq<Seq<u8>>) -> bool {
    forall|i: int| 0 <= i < s.len() ==> (#[trigger] s[i]).len() == 32
}

/// The standard hypotheses on keccak-256 under which a root pins its
/// leaves: every digest is 32 bytes, and no two distinct strings share a
/// digest (collision resistance). The laws below take this as an explicit
/// premise: any input violating one of their conclusions would exhibit a
/// concrete hash collision.
#[verifier::opaque]
pub open spec fn keccak_collision_free() -> bool {
    &&& forall|s: Seq<u8>| (#[trigger] keccak_hash(s)).len() == 32
    &&& forall|x: Seq<u8>, y: Seq<u8>|
            #![trigger keccak_hash(x), keccak_hash(y)]
            keccak_hash(x) == keccak_hash(y) ==> x == y
}

/// Under the hypotheses, every digest is 32 bytes.
proof fn lemma_keccak_wide(s: Seq<u8>)
    requires
        keccak_collision_free(),
    ensures
        keccak_hash(s).len() == 32,
{
    reveal(keccak_collision_free);
}

/// Under the hypotheses, equal digests come from equal strings.
proof fn lemma_keccak_injective(x: Seq<u8>, y: Seq<u8>)
    requires
        keccak_collision_free(),
        keccak_hash(x) == keccak_hash(y),
    ensures
        x == y,
{
    reveal(keccak_collision_free);
}

/// A position holding `x` witnesses that the sequence contains `x`.
proof fn lemma_witness_contains(s: Seq<Seq<u8>>, x: Seq<u8>, k: int)
    requires
        0 <= k < s.len(),
        s[k] == x,
    ensures
        s.contains(x),
{
}

/// Two concatenations of equal-length left parts agree part by part.
proof fn lemma_concat_split(a: Seq<u8>, b: Seq<u8>, c: Seq<u8>, d: Seq<u8>)
    requires
        a + b == c + d,
        a.len() == c.len(),
    ensures
        a == c,
        b == d,
{
    assert(a =~= (a + b).subrange(0, a.len() as int));
    assert(c =~= (c + d).subrange(0, c.len() as int));
    assert(b =~= (a + b).subrange(a.len() as int, (a + b).len() as int));
    assert(d =~= (c + d).subrange(c.len() as int, (c + d).len() as int));
}

/// Appending one sibling to a path hashes the path's result with it, in
/// the order fixed by the index bit at the new, topmost level.
proof fn lemma_root_from_push(leaf: Seq<u8>, index: nat, p: Seq<Seq<u8>>, s: Seq<u8>)
    ensures
        merkle_root_from(leaf, index, p.push(s)) == ({
            let r = merkle_root_from(leaf, index, p);
            if (index / pow2(p.len())) % 2 == 0 {
                parent_hash(r, s)
            } else {
                parent_hash(s, r)
            }
        }),
    decreases p.len(),
{
    let q = p.push(s);
    if p.len() == 0 {
        lemma2_to64();
        assert(q[0] == s);
        assert(q.skip(1) =~= Seq::<Seq<u8>>::empty());
        assert(index / pow2(0) == index) by {
            assert(pow2(0) == 1);
        }
        if index % 2 == 0 {
            assert(merkle_root_from(leaf, index, q)
                == merkle_root_from(parent_hash(leaf, s), index / 2, q.skip(1)));
            assert(merkle_root_from(parent_hash(leaf, s), index / 2, q.skip(1))
                == parent_hash(leaf, s));
        } else {
            assert(merkle_root_from(leaf, index, q)
                == merkle_root_from(parent_hash(s, leaf), index / 2, q.skip(1)));
            assert(merkle_root_from(parent_hash(s, leaf), index / 2, q.skip(1))
                == parent_hash(s, leaf));
        }
    } else {
        assert(q[0] == p[0]);
        assert(q.skip(1) =~= p.skip(1).push(s));
        let next = if index % 2 == 0 {
            parent_hash(leaf, p[0])
        } else {
            parent_hash(p[0], leaf)
        };
        assert(merkle_root_from(leaf, index, q)
            == merkle_root_from(next, index / 2, p.skip(1).push(s)));
        assert(merkle_root_from(leaf, index, p)
            == merkle_root_from(next, index / 2, p.skip(1)));
        lemma_root_from_push(next, index / 2, p.skip(1), s);
        lemma_pow2_unfold(p.len());
        lemma_pow2_pos((p.len() - 1) as nat);
        lemma_div_denominator(index as int, 2, pow2((p.len() - 1) as nat) as int);
        assert((index / 2) as nat / pow2((p.len() - 1) as nat) == index / pow2(p.len()));
    }
}

/// Only the index bits below the path's length matter to the recomputed
/// root.
proof fn lemma_root_from_low_bits(leaf: Seq<u8>, i: nat, j: nat, p: Seq<Seq<u8>>)
    requires
        i % pow2(p.len()) == j % pow2(p.len()),
    ensures
        merkle_root_from(leaf, i, p) == merkle_root_from(leaf, j, p),
    decreases p.len(),
{
    if p.len() == 0 {
    } else {
        let n = (p.len() - 1) as nat;
        lemma_pow2_unfold(p.len());
        lemma_pow2_pos(n);
        lemma_mod_breakdown(i as int, 2, pow2(n) as int);
        lemma_mod_breakdown(j as int, 2, pow2(n) as int);
        assert(i % 2 == j % 2 && (i / 2) % pow2(n) == (j / 2) % pow2(n)) by {
            assert(i % pow2(p.len()) == 2 * ((i as int / 2) % pow2(n) as int) + i as int % 2);
            assert(j % pow2(p.len()) == 2 * ((j as int / 2) % pow2(n) as int) + j as int % 2);
            assert(0 <= i as int % 2 < 2);
            assert(0 <= j as int % 2 < 2);
        }
        let next_i = if i % 2 == 0 {
            parent_hash(leaf, p[0])
        } else {
            parent_hash(p[0], leaf)
        };
        lemma_root_from_low_bits(next_i, i / 2, j / 2, p.skip(1));
    }
}

/// A complete tree over `pow2(d)` leaves gives every position a path of
/// length `d`.
proof fn lemma_tree_proof_len(leaves: Seq<Seq<u8>>, i: nat, d: nat)
    requires
        leaves.len() == pow2(d),
    ensures
        tree_proof(leaves, i).len() == d,
    decreases d,
{
    lemma_pow2_pos(d);
    if d == 0 {
        lemma2_to64();
    } else {
        lemma_pow2_unfold(d);
        lemma_pow2_pos((d - 1) as nat);
        let half = leaves.len() as int / 2;
        assert(half == pow2((d - 1) as nat));
        if i < half {
            lemma_tree_proof_len(leaves.take(half), i, (d - 1) as nat);
        } else {
            lemma_tree_proof_len(leaves.skip(half), (i - half) as nat, (d - 1) as nat);
        }
    }
}

/// Round-trip soundness: in the complete tree over `leaves`, the true path
/// of the leaf at position `i` recomputes the tree's root from that leaf
/// at that position.
pub proof fn lemma_tree_inclusion(leaves: Seq<Seq<u8>>, i: nat, d: nat)
    requires
        leaves.len() == pow2(d),
        i < leaves.len(),
    ensures
        merkle_root_from(leaves[i as int], i, tree_proof(leaves, i)) == tree_root(leaves),
    decreases d,
{
    lemma_pow2_pos(d);
    if d == 0 {
        lemma2_to64();
        assert(leaves.len() == 1 && i == 0);
        assert(tree_proof(leaves, i) =~= Seq::<Seq<u8>>::empty());
    } else {
        lemma_pow2_unfold(d);
        lemma_pow2_pos((d - 1) as nat);
        let half = leaves.len() as int / 2;
        assert(half == pow2((d - 1) as nat));
        let left = leaves.take(half);
        let right = leaves.skip(half);
        let leaf = leaves[i as int];
        if i < half {
            let q = tree_proof(left, i);
            lemma_tree_proof_len(left, i, (d - 1) as nat);
            assert(left[i as int] == leaf);
            lemma_tree_inclusion(left, i, (d - 1) as nat);
            lemma_root_from_push(leaf, i, q, tree_root(right));
            lemma_basic_div(i as int, half);
            assert((i / pow2((d - 1) as nat)) % 2 == 0);
            assert(merkle_root_from(leaf, i, q.push(tree_root(right)))
                == parent_hash(tree_root(left), tree_root(right)));
        } else {
            let rest = (i - half) as nat;
            let q = tree_proof(right, rest);
            lemma_tree_proof_len(right, rest, (d - 1) as nat);
            assert(right[rest as int] == leaf);
            lemma_tree_inclusion(right, rest, (d - 1) as nat);
            // The low bits of `i` and of `i - half` agree, so the inner
            // path recomputes the same digest for either index.
            lemma_mod_multiples_vanish(1, rest as int, half);
            lemma_small_mod(rest, half as nat);
            assert(i % pow2((d - 1) as nat) == rest % pow2((d - 1) as nat));
            lemma_root_from_low_bits(leaf, i, rest, q);
            lemma_root_from_push(leaf, i, q, tree_root(left));
            // The bit at the new topmost level is set: `i / half == 1`.
            lemma_fundamental_div_mod(i as int, half);
            assert(half * (i as int / half) == half) by {
                assert(i as int == half * (i as int / half) + i as int % half);
                assert(i as int % half == rest as int);
            }
            assert(i as int / half == 1) by (nonlinear_arith)
                requires
                    half > 0,
                    half * (i as int / half) == half,
            ;
            assert((i / pow2((d - 1) as nat)) % 2 == 1);
            assert(merkle_root_from(leaf, i, q.push(tree_root(left)))
                == parent_hash(tree_root(left), tree_root(right)));
        }
    }
}

/// Under the width hypothesis, recomputing a root from a 32-byte leaf
/// yields a 32-byte digest.
proof fn lemma_root_from_len(leaf: Seq<u8>, index: nat, p: Seq<Seq<u8>>)
    requires
        keccak_collision_free(),
        leaf.len() == 32,
    ensures
        merkle_root_from(leaf, index, p).len() == 32,
    decreases p.len(),
{
    if p.len() == 0 {
    } else {
        let next = if index % 2 == 0 {
            parent_hash(leaf, p[0])
        } else {
            parent_hash(p[0], leaf)
        };
        lemma_keccak_wide(leaf + p[0]);
        lemma_keccak_wide(p[0] + leaf);
        assert(next.len() == 32);
        lemma_root_from_len(next, index / 2, p.skip(1));
    }
}

/// Under the width hypothesis, the root of a tree over 32-byte leaves is
/// itself 32 bytes.
proof fn lemma_tree_root_len(leaves: Seq<Seq<u8>>)
    requires
        keccak_collision_free(),
        all_nodes_wide(leaves),
        leaves.len() >= 1,
    ensures
        tree_root(leaves).len() == 32,
    decreases leaves.len(),
{
    if leaves.len() == 1 {
    } else {
        let half = leaves.len() as int / 2;
        lemma_tree_root_len(leaves.take(half));
        lemma_tree_root_len(leaves.skip(half));
        lemma_keccak_wide(tree_root(leaves.take(half)) + tree_root(leaves.skip(half)));
    }
}

/// Under the hash hypotheses, a path of the tree's depth that recomputes
/// the tree's root pins the leaf: the claimed leaf must be the very value
/// sitting at the claimed position.
#[verifier::rlimit(50)]
pub proof fn lemma_valid_proof_pins_leaf(
    leaves: Seq<Seq<u8>>,
    leaf: Seq<u8>,
    i: nat,
    p: Seq<Seq<u8>>,
    d: nat,
)
    requires
        keccak_collision_free(),
        all_nodes_wide(leaves),
        leaf.len() == 32,
        leaves.len() == pow2(d),
        p.len() == d,
        merkle_root_from(leaf, i, p) == tree_root(leaves),
    ensures
        i % pow2(d) < leaves.len(),
        leaf == leaves[(i % pow2(d)) as int],
    decreases d,
{
    lemma_pow2_pos(d);
    lemma_mod_bound(i as int, pow2(d) as int);
    if d == 0 {
        lemma2_to64();
        lemma_small_mod(0, 1);
    } else {
        lemma_pow2_unfold(d);
        let n = (d - 1) as nat;
        lemma_pow2_pos(n);
        let half = leaves.len() as int / 2;
        assert(half == pow2(n));
        let left = leaves.take(half);
        let right = leaves.skip(half);
        let q = p.drop_last();
        let s = p.last();
        assert(p =~= q.push(s));
        lemma_root_from_push(leaf, i, q, s);
        let u = merkle_root_from(leaf, i, q);
        lemma_root_from_len(leaf, i, q);
        lemma_tree_root_len(left);
        lemma_tree_root_len(right);
        let bit = (i / pow2(n)) % 2;
        assert(tree_root(leaves) == parent_hash(tree_root(left), tree_root(right)));
        // The index bit at the topmost level decides which half the inner
        // path must account for; collision freedom makes the match exact.
        lemma_mod_breakdown(i as int, pow2(n) as int, 2);
        assert(i % pow2(d) == pow2(n) * bit + i % pow2(n)) by {
            assert(pow2(n) as int * 2 == pow2(d) as int);
        }
        lemma_mod_bound(i as int, pow2(n) as int);
        if bit == 0 {
            assert(keccak_hash(u + s) == keccak_hash(tree_root(left) + tree_root(right)));
            lemma_keccak_injective(u + s, tree_root(left) + tree_root(right));
            lemma_concat_split(u, s, tree_root(left), tree_root(right));
            assert(all_nodes_wide(left));
            lemma_valid_proof_pins_leaf(left, leaf, i, q, n);
            assert(i % pow2(d) == i % pow2(n));
            assert(left[(i % pow2(n)) as int] == leaves[(i % pow2(n)) as int]);
            assert(leaves[(i % pow2(d)) as int] == left[(i % pow2(n)) as int]);
        } else {
            assert(keccak_hash(s + u) == keccak_hash(tree_root(left) + tree_root(right)));
            lemma_keccak_injective(s + u, tree_root(left) + tree_root(right));
            assert((s + u).len() == s.len() + u.len());
            assert((tree_root(left) + tree_root(right)).len()
                == tree_root(left).len() + tree_root(right).len());
            assert(s.len() == 32);
            lemma_concat_split(s, u, tree_root(left), tree_root(right));
            assert(all_nodes_wide(right));
            lemma_valid_proof_pins_leaf(right, leaf, i, q, n);
            assert(i % pow2(d) == pow2(n) + i % pow2(n));
            assert(right[(i % pow2(n)) as int] == leaves[half + (i % pow2(n)) as int]);
            assert(leaves[(i % pow2(d)) as int] == right[(i % pow2(n)) as int]);
        }
    }
}

/// Rejection of foreign leaves: under the hash hypotheses, no path of the
/// tree's depth places a value outside the leaf set under the tree's root,
/// whatever position it claims.
pub proof fn lemma_foreign_leaf_rejected(
    leaves: Seq<Seq<u8>>,
    leaf: Seq<u8>,
    i: nat,
    p: Seq<Seq<u8>>,
    d: nat,
)
    requires
        keccak_collision_free(),
        all_nodes_wide(leaves),
        leaf.len() == 32,
        leaves.len() == pow2(d),
        p.len() == d,
        !leaves.contains(leaf),
    ensures
        merkle_root_from(leaf, i, p) != tree_root(leaves),
{
    if merkle_root_from(leaf, i, p) == tree_root(leaves) {
        lemma_valid_proof_pins_leaf(leaves, leaf, i, p, d);
        lemma_pow2_pos(d);
        lemma_mod_bound(i as int, pow2(d) as int);
        let ki: int = (i % pow2(d)) as int;
        assert(0 <= ki);
        assert(ki < leaves.len());
        assert(leaves[ki] == leaf);
        lemma_witness_contains(leaves, leaf, ki);
    }
}

/// Position binding: under the hash hypotheses, a path that is valid for
/// `leaf` at position `i` does not validate `leaf` at any other position
/// `j` whose true occupant differs from `leaf`.
pub proof fn lemma_position_binding(
    leaves: Seq<Seq<u8>>,
    leaf: Seq<u8>,
    i: nat,
    j: nat,
    p: Seq<Seq<u8>>,
    d: nat,
)
    requires
        keccak_collision_free(),
        all_nodes_wide(leaves),
        leaf.len() == 32,
        leaves.len() == pow2(d),
        p.len() == d,
        i < leaves.len(),
        j < leaves.len(),
        i != j,
        merkle_root_from(leaf, i, p) == tree_root(leaves),
        leaves[j as int] != leaf,
    ensures
        merkle_root_from(leaf, j, p) != tree_root(leaves),
{
    if merkle_root_from(leaf, j, p) == tree_root(leaves) {
        lemma_valid_proof_pins_leaf(leaves, leaf, j, p, d);
        lemma_pow2_pos(d);
        lemma_small_mod(j, pow2(d));
    }
}

} // verus!

