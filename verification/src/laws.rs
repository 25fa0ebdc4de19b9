//! Laws of the tree, stated over the model and proved once and for all:
//! determinism of the root, the proof round trip, and the single-leaf case.

use vstd::prelude::*;

use crate::digest::sha256_of;
use crate::model::{
    chain_up, leaf_hashes_of, lemma_chain_up_root, proof_for_level, root_of_blobs,
};
use crate::tree::MerkleTree;

verus! {

/// Building is deterministic: two trees whose leaf digests agree commit to
/// the same raw root digest, so repeated builds over the same blob sequence
/// report the same root hash.
pub proof fn lemma_build_deterministic(blobs: Seq<Seq<u8>>, a: MerkleTree, b: MerkleTree)
    requires
        a.leaves() == leaf_hashes_of(blobs),
        b.leaves() == leaf_hashes_of(blobs),
    ensures
        a.root_spec() == b.root_spec(),
{
}

/// A generated proof verifies: for any blob sequence and any valid index,
/// the sibling path assigned to that index chains the leaf's digest back up
/// to the raw root digest.
pub proof fn lemma_proof_round_trip(blobs: Seq<Seq<u8>>, i: nat)
    requires
        i < blobs.len(),
    ensures
        chain_up(sha256_of(blobs[i as int]), proof_for_level(leaf_hashes_of(blobs), i), i)
            == root_of_blobs(blobs),
{
    let leaves = leaf_hashes_of(blobs);
    assert(leaves[i as int] == sha256_of(blobs[i as int]));
    lemma_chain_up_root(leaves, i);
}

/// A single blob commits to its own digest: the raw root is the leaf digest
/// itself, the sibling path is empty, and verification succeeds with zero
/// chaining steps.
pub proof fn lemma_single_leaf(blob: Seq<u8>)
    ensures
        root_of_blobs(seq![blob]) == sha256_of(blob),
        proof_for_level(leaf_hashes_of(seq![blob]), 0) == Seq::<Seq<u8>>::empty(),
        chain_up(sha256_of(blob), Seq::<Seq<u8>>::empty(), 0) == sha256_of(blob),
{
    let leaves = leaf_hashes_of(seq![blob]);
    assert(leaves.len() == 1);
    assert(seq![blob][0] == blob);
    assert(leaves[0] == sha256_of(blob));
    assert(proof_for_level(leaves, 0) =~= Seq::<Seq<u8>>::empty());
}

} // verus!
