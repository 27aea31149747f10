//! Merkle inclusion-proof verification.
//!
//! A `Node` is a 32-byte keccak-256 digest: the universal unit of the tree
//! (leaves, internal nodes, root). A proof is the ordered list of sibling
//! digests met while walking from a leaf up to the root, bottom level first.
//!
//! At each level the pair is hashed in the order fixed by the corresponding
//! bit of the leaf's position index: bit clear means the running digest is
//! the left child, bit set the right child. This index-bit-conditioned
//! ordering binds a proof to one position, so a proof cut for index `i`
//! cannot be replayed at the mirrored sibling position. The `tree` module
//! holds the matching construction: roots published for this verifier must
//! be built with the same ordering.

use vstd::prelude::*;

verus! {

/// A 256-bit hash value: leaf, internal node, or root of the tree.
pub type Node = [u8; 32];

/// The keccak-256 digest of a byte string. The digest is a function of the
/// bytes alone; this spec function names it, and the trusted wrappers below
/// relate the external hash routine to it.
pub uninterp spec fn keccak_hash(data: Seq<u8>) -> Seq<u8>;

/// Relies on `anchor_lang::solana_program::keccak::hashv`: it returns the
/// keccak-256 digest of the concatenation of the given byte slices — here
/// a single one — and that digest is a pure function of those bytes.
#[verifier::external_body]
fn keccak_of_bytes(data: &Vec<u8>) -> (r: Node)
    ensures
        r@ == keccak_hash(data@),
{
    anchor_lang::solana_program::keccak::hashv(&[data.as_slice()]).0
}

/// Appends a node's 32 bytes to the buffer.
fn push_node_bytes(buf: &mut Vec<u8>, node: &Node)
    ensures
        final(buf)@ == old(buf)@ + node@,
{
    proof {
        assert(buf@ + node@.take(0) =~= buf@);
    }
    let mut i: usize = 0;
    while i < 32
        invariant
            i <= 32,
            buf@ == old(buf)@ + node@.take(i as int),
        decreases 32 - i,
    {
        proof {
            assert(node@.take(i as int).push(node@[i as int]) =~= node@.take(i as int + 1));
        }
        buf.push(node[i]);
        i += 1;
    }
    proof {
        assert(node@.take(32) =~= node@);
    }
}

/// The digest of the 64-byte concatenation of two nodes.
fn keccak_of_pair(a: &Node, b: &Node) -> (r: Node)
    ensures
        r@ == keccak_hash(a@ + b@),
{
    let mut buf: Vec<u8> = Vec::new();
    push_node_bytes(&mut buf, a);
    push_node_bytes(&mut buf, b);
    proof {
        assert(buf@ =~= a@ + b@);
    }
    keccak_of_bytes(&buf)
}

/// The parent digest of two child nodes, left child first.
pub open spec fn parent_hash(left: Seq<u8>, right: Seq<u8>) -> Seq<u8> {
    keccak_hash(left + right)
}

/// The root reached from `leaf` at position `index` by consuming `proof`
/// front to back, one level per step: at depth `d` the running digest is
/// the left child when bit `d` of `index` is clear, the right child when it
/// is set.
pub open spec fn merkle_root_from(leaf: Seq<u8>, index: nat, proof: Seq<Seq<u8>>) -> Seq<u8>
    decreases proof.len(),
{
    if proof.len() == 0 {
        leaf
    } else if index % 2 == 0 {
        merkle_root_from(parent_hash(leaf, proof[0]), index / 2, proof.skip(1))
    } else {
        merkle_root_from(parent_hash(proof[0], leaf), index / 2, proof.skip(1))
    }
}

/// The sequence of byte strings a proof of `Node`s stands for.
pub open spec fn nodes_view(proof: Seq<Node>) -> Seq<Seq<u8>> {
    proof.map_values(|n: Node| n@)
}

/// Replaces `node` by the parent digest of `node` and `sibling`, with
/// `node` as the left child when `left` holds.
pub fn hash_to_parent(node: &mut Node, sibling: &Node, left: bool)
    ensures
        final(node)@ == if left {
            parent_hash(old(node)@, sibling@)
        } else {
            parent_hash(sibling@, old(node)@)
        },
{
    let current: Node = *node;
    let parent: Node = if left {
        keccak_of_pair(&current, sibling)
    } else {
        keccak_of_pair(sibling, &current)
    };
    *node = parent;
}

/// Byte-for-byte equality of two nodes.
pub fn node_eq(a: &Node, b: &Node) -> (r: bool)
    ensures
        r == (a@ == b@),
{
    let mut i: usize = 0;
    while i < 32
        invariant
            i <= 32,
            forall|j: int| 0 <= j < i ==> a@[j] == b@[j],
        decreases 32 - i,
    {
        if a[i] != b[i] {
            return false;
        }
        i += 1;
    }
    proof {
        assert(a@ =~= b@);
    }
    true
}

/// Hashes a 32-byte identity into the leaf node that stands for it.
pub fn hash_leaf(identity: &[u8; 32]) -> (r: Node)
    ensures
        r@ == keccak_hash(identity@),
{
    let mut buf: Vec<u8> = Vec::new();
    push_node_bytes(&mut buf, identity);
    proof {
        assert(buf@ =~= identity@);
    }
    keccak_of_bytes(&buf)
}

/// Whether `proof` places `leaf`, sitting at position `index`, under
/// `root`. An empty proof is valid exactly when `leaf == root`.
pub fn merkle_verify(proof: &Vec<Node>, root: &Node, leaf: &Node, index: u64) -> (r: bool)
    ensures
        r == (merkle_root_from(leaf@, index as nat, nodes_view(proof@)) == root@),
{
    let ghost full_proof = nodes_view(proof@);
    let mut computed: Node = *leaf;
    let mut idx: u64 = index;
    let mut depth: usize = 0;
    proof {
        assert(full_proof.skip(0) =~= full_proof);
    }
    while depth < proof.len()
        invariant
            full_proof == nodes_view(proof@),
            depth <= proof.len(),
            merkle_root_from(computed@, idx as nat, full_proof.skip(depth as int))
                == merkle_root_from(leaf@, index as nat, full_proof),
        decreases proof.len() - depth,
    {
        let ghost rest = full_proof.skip(depth as int);
        proof {
            assert(full_proof.len() == proof@.len());
            assert(rest.len() == full_proof.len() - depth);
            assert(rest[0] == full_proof[depth as int]);
            assert(full_proof[depth as int] == proof@[depth as int]@);
            assert(rest.skip(1) =~= full_proof.skip(depth as int + 1));
        }
        hash_to_parent(&mut computed, &proof[depth], idx % 2 == 0);
        idx = idx / 2;
        depth += 1;
    }
    proof {
        assert(full_proof.skip(proof@.len() as int) =~= Seq::<Seq<u8>>::empty());
    }
    node_eq(&computed, root)
}

} // verus!
