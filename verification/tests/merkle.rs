use merkle_tree::MerkleError;
use merkle_tree::MerkleProof;
use merkle_tree::MerkleTree;
use merkle_tree::ProofEntry;
use merkle_tree::Transaction;
use merkle_tree::Transactions;
use merkle_tree::combine;
use merkle_tree::hash_leaf;
use merkle_tree::verify_proof;
use sha2::Digest;

fn sample_transactions() -> Vec<Transaction> {
    vec![
        Transaction::new(String::from("Bob"), String::from("Alice"), 12),
        Transaction::new(String::from("Alice"), String::from("Jake"), 25),
        Transaction::new(String::from("Jake"), String::from("Bob"), 7),
        Transaction::new(String::from("Eric"), String::from("Bob"), 82),
    ]
}

fn byte_records(texts: &[&str]) -> Transactions {
    let records: Vec<Vec<u8>> = texts.iter().map(|t| t.as_bytes().to_vec()).collect();
    Transactions::from_records(records)
}

#[test]
fn it_works() {
    let result: i32 = 2 + 2;
    assert_eq!(result, 4);
}

#[test]
fn empty_build_fails() {
    let digests: Vec<Vec<u8>> = vec![];
    let r = MerkleTree::build_tree(digests);
    assert_eq!(r.err(), Some(MerkleError::EmptyInputError));

    let none = Transactions::from_records(vec![]);
    let r = MerkleTree::new(none);
    assert_eq!(r.err(), Some(MerkleError::EmptyInputError));
}

#[test]
fn single_record_tree() {
    let records = byte_records(&["only record"]);
    let tree = MerkleTree::new(records).unwrap();
    assert_eq!(tree.height(), 1);
    assert_eq!(tree.leaf_count(), 1);
    assert_eq!(tree.merkle_root(), &hash_leaf(b"only record"));
}

#[test]
fn build_is_deterministic() {
    let t1 = MerkleTree::new(Transactions::new(sample_transactions())).unwrap();
    let t2 = MerkleTree::new(Transactions::new(sample_transactions())).unwrap();
    assert_eq!(t1.merkle_root(), t2.merkle_root());
}

#[test]
fn reordering_changes_root() {
    let a = byte_records(&["first", "second", "third"]);
    let b = byte_records(&["second", "first", "third"]);
    let ta = MerkleTree::new(a).unwrap();
    let tb = MerkleTree::new(b).unwrap();
    assert_ne!(ta.merkle_root(), tb.merkle_root());

    // Swapping two identical records is the one exception: nothing changes.
    let c = byte_records(&["same", "same", "third"]);
    let d = byte_records(&["same", "same", "third"]);
    let tc = MerkleTree::new(c).unwrap();
    let td = MerkleTree::new(d).unwrap();
    assert_eq!(tc.merkle_root(), td.merkle_root());
}

#[test]
fn proofs_verify_for_every_leaf() {
    let texts = ["a", "bb", "ccc", "dddd", "eeeee"];
    let tree = MerkleTree::new(byte_records(&texts)).unwrap();
    let root = tree.merkle_root().clone();
    for i in 0..texts.len() {
        let pf = tree.generate_proof(i).unwrap();
        assert!(verify_proof(&pf, &root));
    }
}

#[test]
fn proof_for_bad_index_fails() {
    let tree = MerkleTree::new(byte_records(&["x", "y"])).unwrap();
    let r = tree.generate_proof(2);
    assert_eq!(r.err(), Some(MerkleError::IndexOutOfRange));
}

#[test]
fn leaf_and_layer_bounds() {
    let tree = MerkleTree::new(byte_records(&["x", "y"])).unwrap();
    assert!(tree.leaf_digest(0).is_ok());
    assert!(tree.leaf_digest(1).is_ok());
    assert_eq!(tree.leaf_digest(2).err(), Some(MerkleError::IndexOutOfRange));
    assert!(tree.layer(0).is_ok());
    assert!(tree.layer(1).is_ok());
    assert_eq!(tree.layer(2).err(), Some(MerkleError::IndexOutOfRange));
}

#[test]
fn four_transactions_scenario() {
    let tree = MerkleTree::new(Transactions::new(sample_transactions())).unwrap();
    assert_eq!(tree.leaf_count(), 4);
    assert_eq!(tree.height(), 3);

    let pf = tree.generate_proof(2).unwrap();
    assert_eq!(pf.entries.len(), 2);
    assert!(verify_proof(&pf, tree.merkle_root()));

    // Changing record 2 before rebuilding changes the root.
    let mut changed = sample_transactions();
    changed[2] = Transaction::new(String::from("Jake"), String::from("Bob"), 8);
    let other = MerkleTree::new(Transactions::new(changed)).unwrap();
    assert_ne!(tree.merkle_root(), other.merkle_root());
}

#[test]
fn odd_leaf_count_duplicates_last() {
    let texts = ["one", "two", "three"];
    let tree = MerkleTree::new(byte_records(&texts)).unwrap();
    assert_eq!(tree.height(), 3);

    // The 3rd leaf is paired with a duplicate of itself at layer 0 -> 1.
    let leaf2 = tree.leaf_digest(2).unwrap().clone();
    let layer1 = tree.layer(1).unwrap();
    assert_eq!(layer1.len(), 2);
    assert_eq!(layer1[1], combine(&leaf2, &leaf2));

    // Proofs for all three leaves verify against the same root.
    let root = tree.merkle_root().clone();
    for i in 0..3 {
        let pf = tree.generate_proof(i).unwrap();
        assert!(verify_proof(&pf, &root));
    }
}

#[test]
fn tampered_proofs_are_rejected() {
    let tree = MerkleTree::new(Transactions::new(sample_transactions())).unwrap();
    let root = tree.merkle_root().clone();
    let pf = tree.generate_proof(1).unwrap();
    assert!(verify_proof(&pf, &root));

    // One flipped bit in the leaf digest.
    let mut bad = clone_proof(&pf);
    bad.leaf_digest[0] ^= 0x01;
    assert!(!verify_proof(&bad, &root));

    // One flipped bit in each sibling digest, one at a time.
    for k in 0..pf.entries.len() {
        let mut bad = clone_proof(&pf);
        bad.entries[k].sibling[5] ^= 0x80;
        assert!(!verify_proof(&bad, &root));
    }

    // A flipped side flag, one at a time.
    for k in 0..pf.entries.len() {
        let mut bad = clone_proof(&pf);
        bad.entries[k].sibling_on_left = !bad.entries[k].sibling_on_left;
        assert!(!verify_proof(&bad, &root));
    }

    // A flipped bit in the proof's own claimed root: the two checks must
    // agree, so verification against the true root fails too.
    let mut bad = clone_proof(&pf);
    bad.claimed_root[31] ^= 0x10;
    assert!(!verify_proof(&bad, &root));

    // And a wrong claimed root handed to the verifier.
    let mut wrong_root = root.clone();
    wrong_root[0] ^= 0xff;
    assert!(!verify_proof(&pf, &wrong_root));
}

fn clone_proof(pf: &MerkleProof) -> MerkleProof {
    MerkleProof {
        leaf_digest: pf.leaf_digest.clone(),
        entries: pf
            .entries
            .iter()
            .map(|e| ProofEntry { sibling: e.sibling.clone(), sibling_on_left: e.sibling_on_left })
            .collect(),
        claimed_root: pf.claimed_root.clone(),
    }
}

#[test]
fn hashing_matches_tagged_sha256() {
    // A leaf digest is SHA-256 over a leaf tag byte 0 and the record.
    let rec = b"record bytes";
    let mut leaf_input = vec![0u8];
    leaf_input.extend_from_slice(rec);
    let expected: Vec<u8> = sha2::Sha256::digest(&leaf_input).to_vec();
    assert_eq!(hash_leaf(rec), expected);

    // A parent digest is SHA-256 over a node tag byte 1 and both children.
    let a = hash_leaf(b"left");
    let b = hash_leaf(b"right");
    let mut node_input = vec![1u8];
    node_input.extend_from_slice(&a);
    node_input.extend_from_slice(&b);
    assert_eq!(combine(&a, &b), sha2::Sha256::digest(&node_input).to_vec());

    // Swapping the children changes the parent.
    assert_ne!(combine(&a, &b), combine(&b, &a));
}

#[test]
fn transaction_encoding_layout() {
    // Each party behind an 8-byte little-endian length, then a sign byte,
    // then the amount's magnitude in 8 little-endian bytes.
    let ts = Transactions::new(vec![
        Transaction::new(String::from("AB"), String::from("c"), -5),
    ]);
    let mut expected: Vec<u8> = Vec::new();
    expected.extend_from_slice(&2u64.to_le_bytes());
    expected.extend_from_slice(b"AB");
    expected.extend_from_slice(&1u64.to_le_bytes());
    expected.extend_from_slice(b"c");
    expected.push(1);
    expected.extend_from_slice(&5u64.to_le_bytes());
    assert_eq!(ts.records()[0], expected);

    let ts2 = Transactions::new(vec![
        Transaction::new(String::from(""), String::from(""), 12),
    ]);
    let mut e2: Vec<u8> = Vec::new();
    e2.extend_from_slice(&0u64.to_le_bytes());
    e2.extend_from_slice(&0u64.to_le_bytes());
    e2.push(0);
    e2.extend_from_slice(&12u64.to_le_bytes());
    assert_eq!(ts2.records()[0], e2);
}

#[test]
fn proof_wire_round_trip() {
    let tree = MerkleTree::new(byte_records(&["one", "two", "three"])).unwrap();
    let pf = tree.generate_proof(1).unwrap();
    let bytes = pf.to_bytes();

    // Field order on the wire: the first 8 bytes are the little-endian
    // length of the 32-byte leaf digest.
    assert_eq!(&bytes[0..8], &32u64.to_le_bytes());

    let back = MerkleProof::from_bytes(&bytes).unwrap();
    assert_eq!(back.leaf_digest, pf.leaf_digest);
    assert_eq!(back.claimed_root, pf.claimed_root);
    assert_eq!(back.entries.len(), pf.entries.len());
    for k in 0..pf.entries.len() {
        assert_eq!(back.entries[k].sibling, pf.entries[k].sibling);
        assert_eq!(back.entries[k].sibling_on_left, pf.entries[k].sibling_on_left);
    }
    assert!(verify_proof(&back, tree.merkle_root()));

    // A truncated string, a trailing byte, and a stray side flag are all
    // refused.
    assert!(MerkleProof::from_bytes(&bytes[..bytes.len() - 1]).is_none());
    let mut extra = bytes.clone();
    extra.push(0);
    assert!(MerkleProof::from_bytes(&extra).is_none());
    let mut bad = bytes.clone();
    bad[8 + 32 + 8] = 2;
    assert!(MerkleProof::from_bytes(&bad).is_none());
    assert!(MerkleProof::from_bytes(&[]).is_none());
}

#[test]
fn compute_tree_height_values() {
    assert_eq!(MerkleTree::compute_tree_height(1), 1);
    assert_eq!(MerkleTree::compute_tree_height(2), 2);
    assert_eq!(MerkleTree::compute_tree_height(3), 3);
    assert_eq!(MerkleTree::compute_tree_height(4), 3);
    assert_eq!(MerkleTree::compute_tree_height(5), 4);
    assert_eq!(MerkleTree::compute_tree_height(8), 4);
    assert_eq!(MerkleTree::compute_tree_height(9), 5);
}
