use miniqldb::hashing::hash_pair;
use miniqldb::merkle::{
    collect_hashes, compute_merkle_root, find_leaf, generate_merkle_proof, parents_of,
    proof_for_hashes,
    root_of_hashes, verify_merkle_proof, MerkleBlock, MerkleProof,
};
use miniqldb::models::LedgerEntry;

const LEAF_A: &str = "ca978112ca1bbdcafac231b39a23dc4da786eff8147c4e72b9807785afee48bb";
const LEAF_B: &str = "3e23e8160039594a33894f6564e1b1348bbd7a0088d42c4acb73eeaed59c009d";
const LEAF_C: &str = "2e7d2c03a9507ae265ecf5b5356885a53393a2029d241394997265a1a25aefc6";
const LEAF_D: &str = "18ac3e7343f016890c510e93f935261169d9e3f565436429830faf0934f4f8e4";
const LEAF_E: &str = "3f79bb7b435b05321651daefd374cdc681dc06faa65e374e38337b88ca046dea";
const NODE_AB: &str = "62af5c3cb8da3e4f25061e829ebeea5c7513c54949115b1acc225930a90154da";
const NODE_CD: &str = "d3a0f1c792ccf7f1708d5422696263e35755a86917ea76ef9242bd4a8cf4891a";
const NODE_EE: &str = "1a98a2105977d77929b907710dfad6b5f9cdae2abbcaa989a9387ed62c706cd1";
const NODE_ABCD: &str = "58c89d709329eb37285837b042ab6ff72c7c8f74de0446b091b6a0131c102cfd";
const NODE_EEEE: &str = "463bb9d8f7fe77a1f4ea68498899ecec274cdf238783a42cb448ce1e2d8cbb6a";
const ROOT_THREE: &str = "0bdf27bf7ec894ca7cadfe491ec1a3ece840f117989e8c5e9bd7086467bf6c38";
const ROOT_FIVE: &str = "3615e586768e706351e326736e446554c49123d0e24c169d3ecf9b791a82636b";

fn leaves(n: usize) -> Vec<String> {
    let all = [LEAF_A, LEAF_B, LEAF_C, LEAF_D, LEAF_E];
    let mut out = Vec::new();
    for i in 0..n {
        if i < 5 {
            out.push(all[i].to_string());
        } else {
            out.push(hash_pair("leaf", &format!("{}", i)));
        }
    }
    out
}

fn chain(n: usize) -> Vec<LedgerEntry> {
    let mut out: Vec<LedgerEntry> = Vec::new();
    for i in 0..n {
        let prev = match out.last() {
            Some(last) => last.hash.clone(),
            None => "0".to_string(),
        };
        out.push(LedgerEntry::at(format!("id{}", i), format!("{{\"n\":{}}}", i), 1000 + i as i64, prev));
    }
    out
}

#[test]
fn empty_batch_has_the_sentinel_root() {
    assert_eq!(root_of_hashes(Vec::new()), "Empty");
    assert_eq!(compute_merkle_root(&[]), "Empty");
}

#[test]
fn single_leaf_is_its_own_root() {
    assert_eq!(root_of_hashes(leaves(1)), LEAF_A);
}

#[test]
fn two_leaf_root_is_the_hash_of_the_pair() {
    assert_eq!(root_of_hashes(leaves(2)), NODE_AB);
    assert_eq!(root_of_hashes(leaves(2)), hash_pair(LEAF_A, LEAF_B));
}

#[test]
fn three_leaf_root_duplicates_the_last_leaf() {
    assert_eq!(root_of_hashes(leaves(3)), ROOT_THREE);
    let expected = hash_pair(&hash_pair(LEAF_A, LEAF_B), &hash_pair(LEAF_C, LEAF_C));
    assert_eq!(root_of_hashes(leaves(3)), expected);
}

#[test]
fn five_leaf_root_duplicates_at_each_odd_level() {
    assert_eq!(root_of_hashes(leaves(5)), ROOT_FIVE);
    let left = hash_pair(&hash_pair(LEAF_A, LEAF_B), &hash_pair(LEAF_C, LEAF_D));
    let ee = hash_pair(LEAF_E, LEAF_E);
    let right = hash_pair(&ee, &ee);
    assert_eq!(root_of_hashes(leaves(5)), hash_pair(&left, &right));
}

#[test]
fn root_is_deterministic_and_order_sensitive() {
    for n in 1..10 {
        assert_eq!(root_of_hashes(leaves(n)), root_of_hashes(leaves(n)));
    }
    let mut swapped = leaves(4);
    swapped.swap(0, 1);
    assert_ne!(root_of_hashes(swapped), root_of_hashes(leaves(4)));
    let mut twins = vec![LEAF_A.to_string(), LEAF_A.to_string(), LEAF_B.to_string()];
    let before = root_of_hashes(twins.clone());
    twins.swap(0, 1);
    assert_eq!(root_of_hashes(twins), before);
}

#[test]
fn root_over_entries_uses_their_stored_hashes() {
    let entries = chain(5);
    let hashes: Vec<String> = entries.iter().map(|e| e.hash.clone()).collect();
    assert_eq!(collect_hashes(&entries), hashes);
    assert_eq!(compute_merkle_root(&entries), root_of_hashes(hashes));
}

#[test]
fn find_leaf_returns_the_first_position() {
    let mut hashes = leaves(4);
    hashes.push(LEAF_B.to_string());
    assert_eq!(find_leaf(&hashes, LEAF_B), Some(1));
    assert_eq!(find_leaf(&hashes, LEAF_D), Some(3));
    assert_eq!(find_leaf(&hashes, LEAF_E), None);
    assert_eq!(find_leaf(&Vec::new(), LEAF_E), None);
}

#[test]
fn proof_path_of_the_fifth_leaf() {
    let proof = proof_for_hashes(leaves(5), LEAF_E).unwrap();
    assert_eq!(proof.leaf_hash, LEAF_E);
    assert_eq!(
        proof.path,
        vec![
            (LEAF_E.to_string(), false),
            (NODE_EE.to_string(), false),
            (NODE_ABCD.to_string(), true),
        ]
    );
    assert!(verify_merkle_proof(&proof, ROOT_FIVE));
}

#[test]
fn proof_path_of_the_second_leaf() {
    let proof = proof_for_hashes(leaves(5), LEAF_B).unwrap();
    assert_eq!(
        proof.path,
        vec![
            (LEAF_A.to_string(), true),
            (NODE_CD.to_string(), false),
            (NODE_EEEE.to_string(), false),
        ]
    );
    assert!(verify_merkle_proof(&proof, ROOT_FIVE));
}

#[test]
fn proof_of_a_single_leaf_is_empty() {
    let proof = proof_for_hashes(leaves(1), LEAF_A).unwrap();
    assert!(proof.path.is_empty());
    assert!(verify_merkle_proof(&proof, LEAF_A));
    assert!(!verify_merkle_proof(&proof, LEAF_B));
}

#[test]
fn every_generated_proof_verifies() {
    for n in 1..12 {
        let hashes = leaves(n);
        let root = root_of_hashes(hashes.clone());
        for leaf in &hashes {
            let proof = proof_for_hashes(hashes.clone(), leaf).unwrap();
            assert_eq!(&proof.leaf_hash, leaf);
            assert!(verify_merkle_proof(&proof, &root));
        }
    }
}

#[test]
fn tampered_proofs_fail() {
    for n in 2..10 {
        let hashes = leaves(n);
        let root = root_of_hashes(hashes.clone());
        for leaf in &hashes {
            let proof = proof_for_hashes(hashes.clone(), leaf).unwrap();
            for step in 0..proof.path.len() {
                let mut forged = MerkleProof {
                    leaf_hash: proof.leaf_hash.clone(),
                    path: proof.path.clone(),
                };
                forged.path[step].0 = hash_pair("forged", &forged.path[step].0);
                assert!(!verify_merkle_proof(&forged, &root));
                let mut flipped = MerkleProof {
                    leaf_hash: proof.leaf_hash.clone(),
                    path: proof.path.clone(),
                };
                flipped.path[step].1 = !flipped.path[step].1;
                let mut running = leaf.clone();
                for below in &proof.path[..step] {
                    running = if below.1 {
                        hash_pair(&below.0, &running)
                    } else {
                        hash_pair(&running, &below.0)
                    };
                }
                let padded_twin = proof.path[step].0 == running;
                assert_eq!(verify_merkle_proof(&flipped, &root), padded_twin);
            }
        }
    }
}

#[test]
fn verification_is_exact_about_the_root() {
    let proof = proof_for_hashes(leaves(3), LEAF_C).unwrap();
    assert!(verify_merkle_proof(&proof, ROOT_THREE));
    assert!(!verify_merkle_proof(&proof, &ROOT_THREE.to_uppercase()));
    assert!(!verify_merkle_proof(&proof, ROOT_FIVE));
    assert!(!verify_merkle_proof(&proof, ""));
}

#[test]
fn absent_hash_has_no_proof() {
    assert!(proof_for_hashes(leaves(5), "missing").is_none());
    assert!(proof_for_hashes(leaves(4), LEAF_E).is_none());
    assert!(proof_for_hashes(Vec::new(), LEAF_A).is_none());
    let entries = chain(5);
    assert!(generate_merkle_proof(&entries, "missing").is_none());
    assert!(generate_merkle_proof(&[], "missing").is_none());
}

#[test]
fn duplicate_leaves_are_proved_at_the_first_position() {
    let hashes = vec![
        LEAF_A.to_string(),
        LEAF_B.to_string(),
        LEAF_C.to_string(),
        LEAF_B.to_string(),
    ];
    let proof = proof_for_hashes(hashes.clone(), LEAF_B).unwrap();
    assert_eq!(proof.path[0], (LEAF_A.to_string(), true));
    assert!(verify_merkle_proof(&proof, &root_of_hashes(hashes)));
}

#[test]
fn proofs_over_entries_verify_against_the_block_root() {
    let entries = chain(5);
    let block = MerkleBlock::at(chain(5), 42);
    assert_eq!(block.timestamp, 42);
    assert_eq!(block.entries.len(), 5);
    assert!(block.is_sealed());
    for entry in &entries {
        let proof = generate_merkle_proof(&block.entries, &entry.hash).unwrap();
        assert_eq!(proof.leaf_hash, entry.hash);
        assert_eq!(proof.path.len(), 3);
        assert!(verify_merkle_proof(&proof, &block.merkle_root));
    }
    let stamped = MerkleBlock::new(chain(3));
    assert_eq!(stamped.merkle_root, compute_merkle_root(&chain(3)));
}

#[test]
fn parents_pair_consecutive_nodes() {
    assert_eq!(parents_of(&Vec::new()), Vec::<String>::new());
    assert_eq!(parents_of(&leaves(1)), vec![hash_pair(LEAF_A, LEAF_A)]);
    assert_eq!(parents_of(&leaves(4)), vec![NODE_AB.to_string(), NODE_CD.to_string()]);
    assert_eq!(
        parents_of(&leaves(5)),
        vec![NODE_AB.to_string(), NODE_CD.to_string(), NODE_EE.to_string()]
    );
}

#[test]
fn copies_of_proofs_and_blocks_are_equal() {
    let proof = proof_for_hashes(leaves(5), LEAF_C).unwrap();
    let copy = proof.clone();
    assert_eq!(copy.leaf_hash, proof.leaf_hash);
    assert_eq!(copy.path, proof.path);
    let block = MerkleBlock::at(chain(5), 42);
    let twin = block.clone();
    assert_eq!(twin.merkle_root, block.merkle_root);
    assert_eq!(twin.timestamp, 42);
    assert_eq!(twin.entries.len(), 5);
    assert_eq!(twin.entries[4].hash, block.entries[4].hash);
    assert_eq!(twin.entries[4].data, block.entries[4].data);
}
