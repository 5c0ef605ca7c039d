use miniqldb::hashing::{canonical_form, hash_fields, hash_pair};
use miniqldb::models::LedgerEntry;
use sha2::{Digest, Sha256};

fn payload(key: &str, value: i64) -> String {
    let mut object = serde_json::Map::new();
    object.insert(key.to_string(), serde_json::Value::from(value));
    serde_json::to_string(&serde_json::Value::Object(object)).unwrap()
}

fn digest_of(text: &str) -> String {
    let mut hasher = Sha256::new();
    hasher.update(text);
    format!("{:x}", hasher.finalize())
}

#[test]
fn test_hash_consistency() {
    let entry1 = LedgerEntry::new("test".to_string(), payload("a", 1), "prevhash".to_string());
    let mut entry2 = LedgerEntry::new("test".to_string(), payload("a", 1), "prevhash".to_string());
    if entry2.timestamp != entry1.timestamp {
        entry2 = LedgerEntry::at(
            "test".to_string(),
            payload("a", 1),
            entry1.timestamp,
            "prevhash".to_string(),
        );
    }
    assert_eq!(entry1.hash, entry2.hash);
}

#[test]
fn test_hash_changes_with_data() {
    let entry1 = LedgerEntry::new("test".to_string(), payload("a", 1), "prevhash".to_string());
    let entry2 = LedgerEntry::new("test".to_string(), payload("a", 2), "prevhash".to_string());
    assert_ne!(entry1.hash, entry2.hash);
}

#[test]
fn test_append_and_read() {
    let entry = LedgerEntry::new("test_entry".to_string(), payload("a", 1), "0".to_string());
    let mut entries: Vec<LedgerEntry> = Vec::new();
    entries.push(entry);
    let found = entries.iter().any(|e| e.id == "test_entry");
    assert!(found);
}

#[test]
fn payload_text_is_compact_json() {
    assert_eq!(payload("a", 1), "{\"a\":1}");
}

#[test]
fn canonical_form_has_fixed_key_order() {
    let text = canonical_form("a", "{\"x\":1}", 5, "0");
    assert_eq!(text, "{\"id\":\"a\",\"data\":{\"x\":1},\"timestamp\":5,\"prevhash\":\"0\"}");
}

#[test]
fn canonical_form_escapes_strings() {
    let text = canonical_form("he\"llo\n", "null", 0, "back\\slash\t");
    assert_eq!(
        text,
        "{\"id\":\"he\\\"llo\\n\",\"data\":null,\"timestamp\":0,\"prevhash\":\"back\\\\slash\\t\"}"
    );
}

#[test]
fn canonical_form_writes_negative_and_extreme_timestamps() {
    assert_eq!(
        canonical_form("", "1", -42, ""),
        "{\"id\":\"\",\"data\":1,\"timestamp\":-42,\"prevhash\":\"\"}"
    );
    assert_eq!(
        canonical_form("", "1", i64::MIN, ""),
        "{\"id\":\"\",\"data\":1,\"timestamp\":-9223372036854775808,\"prevhash\":\"\"}"
    );
    assert_eq!(
        canonical_form("", "1", i64::MAX, ""),
        "{\"id\":\"\",\"data\":1,\"timestamp\":9223372036854775807,\"prevhash\":\"\"}"
    );
    assert_eq!(
        canonical_form("", "1", 1700000010, ""),
        "{\"id\":\"\",\"data\":1,\"timestamp\":1700000010,\"prevhash\":\"\"}"
    );
}

#[test]
fn canonical_form_parses_back_to_the_fields() {
    let text = canonical_form("id \u{1F600} \u{0001}", &payload("k", 7), 99, "abc");
    let value: serde_json::Value = serde_json::from_str(&text).unwrap();
    assert_eq!(value["id"].as_str(), Some("id \u{1F600} \u{0001}"));
    assert_eq!(value["data"]["k"].as_i64(), Some(7));
    assert_eq!(value["timestamp"].as_i64(), Some(99));
    assert_eq!(value["prevhash"].as_str(), Some("abc"));
}

#[test]
fn hash_pair_is_sha256_of_the_concatenation() {
    assert_eq!(
        hash_pair("a", "bc"),
        "ba7816bf8f01cfea414140de5dae2223b00361a396177a9cb410ff61f20015ad"
    );
    assert_eq!(
        hash_pair("", ""),
        "e3b0c44298fc1c149afbf4c8996fb92427ae41e4649b934ca495991b7852b855"
    );
    assert_ne!(hash_pair("a", "bc"), "abc");
}

#[test]
fn hash_fields_is_sha256_of_the_canonical_form() {
    assert_eq!(
        hash_fields("a", "{\"x\":1}", 5, "0"),
        "e6d3e6241e86bf9038bc66276582a7dd322a69c9af2ec903daf660e74cdf4b31"
    );
    let text = canonical_form("k", "[1,2]", 77, "ff");
    assert_eq!(hash_fields("k", "[1,2]", 77, "ff"), digest_of(&text));
}

#[test]
fn new_record_is_sealed_and_linked() {
    let entry = LedgerEntry::at("a".to_string(), "{\"x\":1}".to_string(), 5, "0".to_string());
    assert_eq!(entry.id, "a");
    assert_eq!(entry.data, "{\"x\":1}");
    assert_eq!(entry.timestamp, 5);
    assert_eq!(entry.prevhash, "0");
    assert_eq!(entry.hash, "e6d3e6241e86bf9038bc66276582a7dd322a69c9af2ec903daf660e74cdf4b31");
    assert_eq!(entry.hash.len(), 64);
    assert!(entry.is_sealed());
    let stamped = LedgerEntry::new("a".to_string(), "{\"x\":1}".to_string(), "0".to_string());
    assert!(stamped.is_sealed());
    assert_eq!(stamped.prevhash, "0");
}

#[test]
fn compute_hash_is_deterministic() {
    let entry = LedgerEntry::at("a".to_string(), payload("x", 1), 5, "0".to_string());
    assert_eq!(entry.compute_hash(), entry.compute_hash());
    assert_eq!(entry.compute_hash(), entry.hash);
    let twin = LedgerEntry::at("a".to_string(), payload("x", 1), 5, "0".to_string());
    assert_eq!(twin.hash, entry.hash);
    let copy = entry.clone();
    assert_eq!(copy.compute_hash(), entry.hash);
}

#[test]
fn compute_hash_ignores_the_stored_hash() {
    let mut entry = LedgerEntry::at("a".to_string(), payload("x", 1), 5, "0".to_string());
    let sealed = entry.hash.clone();
    entry.hash = "tampered".to_string();
    assert_eq!(entry.compute_hash(), sealed);
    assert!(!entry.is_sealed());
}

#[test]
fn every_field_changes_the_hash() {
    let base = hash_fields("a", &payload("x", 1), 5, "0");
    assert_ne!(hash_fields("b", &payload("x", 1), 5, "0"), base);
    assert_ne!(hash_fields("a", &payload("y", 1), 5, "0"), base);
    assert_ne!(hash_fields("a", &payload("x", 2), 5, "0"), base);
    assert_ne!(hash_fields("a", &payload("x", 1), 6, "0"), base);
    assert_ne!(hash_fields("a", &payload("x", 1), 5, "1"), base);
}
