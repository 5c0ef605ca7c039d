use miniqldb::cli::{first_by_id, history_positions, latest_by_id, proof_for_entry, ProofRequestError};
use miniqldb::ledger::next_entry_at;
use miniqldb::merkle::{verify_merkle_proof, MerkleBlock};
use miniqldb::models::LedgerEntry;

fn ledger_of(rows: &[(&str, i64)]) -> Vec<LedgerEntry> {
    let mut entries: Vec<LedgerEntry> = Vec::new();
    for (i, (id, stamp)) in rows.iter().enumerate() {
        let entry = next_entry_at(&entries, id.to_string(), format!("{}", i), *stamp);
        entries.push(entry);
    }
    entries
}

#[test]
fn lookup_returns_the_latest_record_of_an_id() {
    let entries = ledger_of(&[("a", 1), ("b", 2), ("a", 3), ("c", 4)]);
    assert_eq!(latest_by_id(&entries, "a"), Some(2));
    assert_eq!(latest_by_id(&entries, "b"), Some(1));
    assert_eq!(latest_by_id(&entries, "z"), None);
    assert_eq!(latest_by_id(&[], "a"), None);
    assert_eq!(first_by_id(&entries, "a"), Some(0));
    assert_eq!(first_by_id(&entries, "c"), Some(3));
    assert_eq!(first_by_id(&entries, "z"), None);
}

#[test]
fn history_is_ordered_by_time_and_stable() {
    let entries = ledger_of(&[("a", 30), ("b", 5), ("a", 10), ("a", 30), ("a", 10), ("a", -7)]);
    assert_eq!(history_positions(&entries, "a"), vec![5, 2, 4, 0, 3]);
    assert_eq!(history_positions(&entries, "b"), vec![1]);
    assert_eq!(history_positions(&entries, "z"), Vec::<usize>::new());
    assert_eq!(history_positions(&[], "a"), Vec::<usize>::new());
}

#[test]
fn history_of_an_appended_ledger_keeps_append_order() {
    let entries = ledger_of(&[("a", 1), ("a", 2), ("b", 2), ("a", 2), ("a", 9)]);
    assert_eq!(history_positions(&entries, "a"), vec![0, 1, 3, 4]);
}

#[test]
fn proof_request_checks_the_block_number() {
    let blocks = vec![MerkleBlock::at(ledger_of(&[("a", 1), ("b", 2), ("c", 3), ("d", 4), ("e", 5)]), 6)];
    assert_eq!(proof_for_entry(&blocks, 0, "a").unwrap_err(), ProofRequestError::InvalidBlockIndex);
    assert_eq!(proof_for_entry(&blocks, 2, "a").unwrap_err(), ProofRequestError::InvalidBlockIndex);
    assert_eq!(proof_for_entry(&[], 1, "a").unwrap_err(), ProofRequestError::InvalidBlockIndex);
    assert_eq!(proof_for_entry(&blocks, 1, "z").unwrap_err(), ProofRequestError::EntryNotFound);
}

#[test]
fn proof_request_proves_the_named_record() {
    let first = ledger_of(&[("a", 1), ("b", 2), ("c", 3), ("d", 4), ("e", 5)]);
    let second = ledger_of(&[("p", 1), ("q", 2), ("q", 3)]);
    let blocks = vec![MerkleBlock::at(first.clone(), 6), MerkleBlock::at(second.clone(), 7)];
    for entry in &first {
        let proof = proof_for_entry(&blocks, 1, &entry.id).unwrap();
        assert_eq!(proof.leaf_hash, entry.hash);
        assert!(verify_merkle_proof(&proof, &blocks[0].merkle_root));
        assert!(!verify_merkle_proof(&proof, &blocks[1].merkle_root));
    }
    let proof = proof_for_entry(&blocks, 2, "q").unwrap();
    assert_eq!(proof.leaf_hash, second[1].hash);
    assert!(verify_merkle_proof(&proof, &blocks[1].merkle_root));
}
