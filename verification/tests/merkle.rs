use merkle_tree::MerkleTree;
use sha2::{Digest, Sha256};

fn h(data: &[u8]) -> Vec<u8> {
    Sha256::digest(data).to_vec()
}

fn h2(a: &[u8], b: &[u8]) -> Vec<u8> {
    let mut hasher = Sha256::new();
    hasher.update(a);
    hasher.update(b);
    hasher.finalize().to_vec()
}

fn six_blobs() -> Vec<Vec<u8>> {
    vec![
        b"hello".to_vec(),
        b"world".to_vec(),
        b"this".to_vec(),
        b"is".to_vec(),
        b"merkle".to_vec(),
        b"tree".to_vec(),
    ]
}

#[test]
fn six_blob_scenario() {
    let tree = MerkleTree::new(six_blobs());
    let display = tree.root_hash().expect("six blobs give a root");
    assert_eq!(display.len(), 64);
    assert!(display.chars().all(|c| c.is_ascii_hexdigit() && !c.is_ascii_uppercase()));
    let proof = tree.generate_proof(0).expect("index 0 is in range");
    assert_eq!(proof.len(), 3);
}

#[test]
fn round_trip_all_indices() {
    let blobs = six_blobs();
    let tree = MerkleTree::new(blobs.clone());
    let root = tree.root_digest().expect("six blobs give a root");
    for (i, blob) in blobs.iter().enumerate() {
        let proof = tree.generate_proof(i).expect("index in range");
        assert!(MerkleTree::verify_proof(&root, &proof, blob.clone(), i));
    }
}

#[test]
fn repeated_builds_agree() {
    let a = MerkleTree::new(six_blobs());
    let b = MerkleTree::new(six_blobs());
    assert_eq!(a.root_hash(), b.root_hash());
    assert_eq!(a.root_digest(), b.root_digest());
}

#[test]
fn clone_commits_to_same_root() {
    let tree = MerkleTree::new(six_blobs());
    let copy = tree.clone();
    assert_eq!(tree.root_hash(), copy.root_hash());
    let root = copy.root_digest().expect("six blobs give a root");
    let proof = copy.generate_proof(4).expect("index 4 is in range");
    assert!(MerkleTree::verify_proof(&root, &proof, b"merkle".to_vec(), 4));
}

#[test]
fn out_of_range_index_gives_no_proof() {
    let tree = MerkleTree::new(six_blobs());
    assert!(tree.generate_proof(6).is_none());
    assert!(tree.generate_proof(1000).is_none());
}

#[test]
fn empty_tree_has_nothing() {
    let tree = MerkleTree::new(vec![]);
    assert!(tree.root_hash().is_none());
    assert!(tree.root_digest().is_none());
    assert!(tree.generate_proof(0).is_none());
}

#[test]
fn single_leaf_root_is_leaf_digest() {
    let tree = MerkleTree::new(vec![b"hello".to_vec()]);
    let raw = tree.root_digest().expect("one blob gives a root");
    assert_eq!(raw, h(b"hello"));
    let proof = tree.generate_proof(0).expect("index 0 is in range");
    assert!(proof.is_empty());
    assert!(MerkleTree::verify_proof(&raw, &proof, b"hello".to_vec(), 0));
}

#[test]
fn single_leaf_known_digest() {
    // SHA-256 of "hello", as any external tool reports it.
    let expected = hex::decode("2cf24dba5fb0a30e26e83b2ac5b9e29e1b161e5c1fa7425e73043362938b9824")
        .expect("a hex constant");
    let tree = MerkleTree::new(vec![b"hello".to_vec()]);
    assert_eq!(tree.root_digest().expect("one blob gives a root"), expected);
    let display = tree.root_hash().expect("one blob gives a root");
    assert_eq!(display, hex::encode(Sha256::digest(&expected)));
}

#[test]
fn display_root_wraps_raw_root() {
    let tree = MerkleTree::new(six_blobs());
    let raw = tree.root_digest().expect("six blobs give a root");
    let display = tree.root_hash().expect("six blobs give a root");
    assert_eq!(hex::decode(&display).expect("display form is hex"), h(&raw));
}

#[test]
fn odd_count_pairs_last_leaf_with_itself() {
    let blobs = vec![b"a".to_vec(), b"b".to_vec(), b"c".to_vec()];
    let tree = MerkleTree::new(blobs);
    let ha = h(b"a");
    let hb = h(b"b");
    let hc = h(b"c");
    let left = h2(&ha, &hb);
    let right = h2(&hc, &hc);
    let root = tree.root_digest().expect("three blobs give a root");
    assert_eq!(root, h2(&left, &right));

    let proof = tree.generate_proof(2).expect("index 2 is in range");
    assert_eq!(proof.len(), 2);
    // The lone last leaf is paired with itself: its own digest is the sibling.
    assert_eq!(proof[0], hc);
    assert_eq!(proof[1], left);
    assert!(MerkleTree::verify_proof(&root, &proof, b"c".to_vec(), 2));
}

#[test]
fn proof_lengths_follow_round_count() {
    for (n, expected) in [(1usize, 0usize), (2, 1), (3, 2), (4, 2), (5, 3), (6, 3), (7, 3), (8, 3)]
    {
        let blobs: Vec<Vec<u8>> = (0..n).map(|i| vec![i as u8]).collect();
        let tree = MerkleTree::new(blobs);
        let proof = tree.generate_proof(n - 1).expect("last index is in range");
        assert_eq!(proof.len(), expected, "wrong path length for {} blobs", n);
    }
}

#[test]
fn changed_byte_changes_root() {
    let tree = MerkleTree::new(six_blobs());
    let mut blobs = six_blobs();
    blobs[1][0] ^= 0x01;
    let other = MerkleTree::new(blobs);
    assert_ne!(tree.root_hash(), other.root_hash());

    let mut blobs = six_blobs();
    let last = blobs[5].len() - 1;
    blobs[5][last] ^= 0x80;
    let other = MerkleTree::new(blobs);
    assert_ne!(tree.root_hash(), other.root_hash());
}

#[test]
fn tampered_proof_fails() {
    let blobs = six_blobs();
    let tree = MerkleTree::new(blobs.clone());
    let root = tree.root_digest().expect("six blobs give a root");
    let index = 3usize;
    let proof = tree.generate_proof(index).expect("index in range");
    assert!(MerkleTree::verify_proof(&root, &proof, blobs[index].clone(), index));
    for entry in 0..proof.len() {
        for byte in 0..proof[entry].len() {
            for bit in 0..8 {
                let mut tampered = proof.clone();
                tampered[entry][byte] ^= 1u8 << bit;
                assert!(
                    !MerkleTree::verify_proof(&root, &tampered, blobs[index].clone(), index),
                    "flipping bit {} of byte {} of entry {} went unnoticed",
                    bit,
                    byte,
                    entry
                );
            }
        }
    }
}

#[test]
fn wrong_index_or_leaf_fails() {
    let blobs = six_blobs();
    let tree = MerkleTree::new(blobs.clone());
    let root = tree.root_digest().expect("six blobs give a root");
    let proof = tree.generate_proof(2).expect("index in range");
    assert!(!MerkleTree::verify_proof(&root, &proof, blobs[2].clone(), 3));
    assert!(!MerkleTree::verify_proof(&root, &proof, blobs[3].clone(), 2));
}
