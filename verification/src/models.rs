//! The ledger record and its content hash.

use crate::hashing::{hash_fields, record_digest, unix_now};
use vstd::prelude::*;
use vstd::string::*;

verus! {

/// One immutable, hash-linked ledger entry. `data` holds the payload as JSON
/// text in the compact form that `serde_json` writes; `hash` is computed from
/// the other four fields.
#[derive(Debug)]
pub struct LedgerEntry {
    pub id: String,
    pub data: String,
    pub timestamp: i64,
    pub prevhash: String,
    pub hash: String,
}

/// The mathematical value of a record.
pub struct EntryView {
    pub id: Seq<char>,
    pub data: Seq<char>,
    pub timestamp: int,
    pub prevhash: Seq<char>,
    pub hash: Seq<char>,
}

impl EntryView {
    /// The hash that the four logical fields call for.
    pub open spec fn digest(self) -> Seq<char> {
        record_digest(self.id, self.data, self.timestamp, self.prevhash)
    }

    /// The stored hash is the one that the fields call for.
    pub open spec fn sealed(self) -> bool {
        self.hash == self.digest()
    }
}

/// The content hash depends on nothing but `id`, `data`, `timestamp` and
/// `prevhash`: two records that agree on these four have the same digest,
/// whatever hashes they store.
pub proof fn law_digest_is_determined_by_fields(first: EntryView, second: EntryView)
    requires
        first.id == second.id,
        first.data == second.data,
        first.timestamp == second.timestamp,
        first.prevhash == second.prevhash,
    ensures
        first.digest() == second.digest(),
        first.sealed() && second.sealed() ==> first.hash == second.hash,
{
}

impl View for LedgerEntry {
    type V = EntryView;

    open spec fn view(&self) -> EntryView {
        EntryView {
            id: self.id@,
            data: self.data@,
            timestamp: self.timestamp as int,
            prevhash: self.prevhash@,
            hash: self.hash@,
        }
    }
}

impl Clone for LedgerEntry {
    fn clone(&self) -> (copy: Self)
        ensures
            copy@ == self@,
    {
        LedgerEntry {
            id: self.id.clone(),
            data: self.data.clone(),
            timestamp: self.timestamp,
            prevhash: self.prevhash.clone(),
            hash: self.hash.clone(),
        }
    }
}

impl LedgerEntry {
    /// A record stamped with the current time, linked to `prevhash` and sealed
    /// with its content hash.
    pub fn new(id: String, data: String, prevhash: String) -> (entry: LedgerEntry)
        ensures
            entry@.id == id@,
            entry@.data == data@,
            entry@.prevhash == prevhash@,
            entry@.sealed(),
    {
        let timestamp = unix_now();
        LedgerEntry::at(id, data, timestamp, prevhash)
    }

    /// A record with the given creation time, linked to `prevhash` and sealed
    /// with its content hash.
    pub fn at(id: String, data: String, timestamp: i64, prevhash: String) -> (entry: LedgerEntry)
        ensures
            entry@.id == id@,
            entry@.data == data@,
            entry@.timestamp == timestamp,
            entry@.prevhash == prevhash@,
            entry@.hash == record_digest(id@, data@, timestamp as int, prevhash@),
            entry@.sealed(),
    {
        let hash = hash_fields(id.as_str(), data.as_str(), timestamp, prevhash.as_str());
        LedgerEntry { id, data, timestamp, prevhash, hash }
    }

    /// The content hash of the record's four logical fields; the stored `hash`
    /// plays no part in it.
    pub fn compute_hash(&self) -> (digest: String)
        ensures
            digest@ == self@.digest(),
    {
        hash_fields(self.id.as_str(), self.data.as_str(), self.timestamp, self.prevhash.as_str())
    }

    /// Whether the stored hash is the one that the fields call for.
    pub fn is_sealed(&self) -> (ok: bool)
        ensures
            ok == self@.sealed(),
    {
        let digest = self.compute_hash();
        digest == self.hash
    }
}

} // verus!
