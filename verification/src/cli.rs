//! What the ledger's commands decide, apart from reading and printing: which
//! record answers a lookup, in what order a history is shown, and which proof
//! a request names.

use crate::merkle::{first_index, first_index_from, generate_merkle_proof, proof_path};
use crate::merkle::{records, stored_hashes};
use crate::merkle::{MerkleBlock, MerkleProof, ProofView};
use crate::models::{EntryView, LedgerEntry};
use vstd::prelude::*;
use vstd::string::*;

verus! {

/// Why a request for an inclusion proof was turned down.
#[derive(Clone, Copy, Debug, PartialEq, Eq, Structural)]
pub enum ProofRequestError {
    /// The block number is zero or beyond the last block.
    InvalidBlockIndex,
    /// No record of the block has the requested id.
    EntryNotFound,
}

/// The record at `i` comes before the record at `j` in a history: it is
/// older, or as old and appended earlier.
pub open spec fn shown_before(chain: Seq<EntryView>, i: int, j: int) -> bool {
    chain[i].timestamp < chain[j].timestamp || (chain[i].timestamp == chain[j].timestamp && i < j)
}

/// The ids of a list of records, in order.
pub open spec fn entry_ids(chain: Seq<EntryView>) -> Seq<Seq<char>> {
    Seq::new(chain.len(), |i: int| chain[i].id)
}

/// Position `i` holds the first record of `chain` with this id.
pub open spec fn first_with_id(chain: Seq<EntryView>, id: Seq<char>, i: int) -> bool {
    &&& 0 <= i < chain.len()
    &&& chain[i].id == id
    &&& forall|j: int| 0 <= j < i ==> chain[j].id != id
}

/// Position `i` holds the last record of `chain` with this id.
pub open spec fn last_with_id(chain: Seq<EntryView>, id: Seq<char>, i: int) -> bool {
    &&& 0 <= i < chain.len()
    &&& chain[i].id == id
    &&& forall|j: int| i < j < chain.len() ==> chain[j].id != id
}

/// No record of `chain` has this id.
pub open spec fn id_absent(chain: Seq<EntryView>, id: Seq<char>) -> bool {
    forall|j: int| 0 <= j < chain.len() ==> chain[j].id != id
}

/// The position of the most recently appended record with this id, if any.
pub fn latest_by_id(entries: &[LedgerEntry], id: &str) -> (found: Option<usize>)
    ensures
        match found {
            Some(i) => last_with_id(records(entries@), id@, i as int),
            None => id_absent(records(entries@), id@),
        },
{
    let wanted = String::from_str(id);
    let mut i: usize = entries.len();
    while i > 0
        invariant
            i <= entries.len(),
            wanted@ == id@,
            forall|j: int| i <= j < entries.len() ==> records(entries@)[j].id != id@,
        decreases i,
    {
        i -= 1;
        if entries[i].id == wanted {
            return Some(i);
        }
    }
    None
}

/// The position of the first record with this id, if any.
pub fn first_by_id(entries: &[LedgerEntry], id: &str) -> (found: Option<usize>)
    ensures
        match found {
            Some(i) => first_with_id(records(entries@), id@, i as int) && i == first_index(
                entry_ids(records(entries@)),
                id@,
            ),
            None => id_absent(records(entries@), id@) && first_index(
                entry_ids(records(entries@)),
                id@,
            ) == entries.len(),
        },
{
    let ghost ids = entry_ids(records(entries@));
    let wanted = String::from_str(id);
    let mut i: usize = 0;
    while i < entries.len()
        invariant
            i <= entries.len(),
            wanted@ == id@,
            ids == entry_ids(records(entries@)),
            first_index_from(ids, id@, i as int) == first_index(ids, id@),
            forall|j: int| 0 <= j < i ==> records(entries@)[j].id != id@,
        decreases entries.len() - i,
    {
        assert(ids[i as int] == entries[i as int]@.id);
        if entries[i].id == wanted {
            return Some(i);
        }
        i += 1;
    }
    None
}

/// The positions of all records with this id, oldest first; records of one
/// age keep the order in which they were appended.
pub fn history_positions(entries: &[LedgerEntry], id: &str) -> (order: Vec<usize>)
    ensures
        forall|k: int|
            0 <= k < order.len() ==> (#[trigger] order[k]) < entries.len() && records(
                entries@,
            )[order[k] as int].id == id@,
        forall|i: int|
            0 <= i < entries.len() && records(entries@)[i].id == id@ ==> exists|k: int|
                0 <= k < order.len() && order[k] == i,
        forall|a: int, b: int|
            0 <= a < b < order.len() ==> shown_before(
                records(entries@),
                order[a] as int,
                order[b] as int,
            ),
{
    let ghost chain = records(entries@);
    let wanted = String::from_str(id);
    let mut order: Vec<usize> = Vec::new();
    let mut i: usize = 0;
    while i < entries.len()
        invariant
            i <= entries.len(),
            wanted@ == id@,
            chain == records(entries@),
            forall|k: int|
                0 <= k < order.len() ==> (#[trigger] order[k]) < i && chain[order[k] as int].id
                    == id@,
            forall|j: int|
                0 <= j < i && chain[j].id == id@ ==> exists|k: int|
                    0 <= k < order.len() && order[k] == j,
            forall|a: int, b: int|
                0 <= a < b < order.len() ==> shown_before(chain, order[a] as int, order[b] as int),
        decreases entries.len() - i,
    {
        if entries[i].id == wanted {
            let stamp = entries[i].timestamp;
            let mut p: usize = order.len();
            while p > 0 && entries[order[p - 1]].timestamp > stamp
                invariant
                    p <= order.len(),
                    i < entries.len(),
                    chain == records(entries@),
                    stamp == entries[i as int].timestamp,
                    forall|k: int| 0 <= k < order.len() ==> (#[trigger] order[k]) < i,
                    forall|k: int|
                        p <= k < order.len() ==> chain[(#[trigger] order[k]) as int].timestamp
                            > stamp,
                decreases p,
            {
                p -= 1;
            }
            let ghost before = order@;
            assert forall|k: int| 0 <= k < p implies chain[(#[trigger] before[k]) as int].timestamp
                <= stamp by {
                assert(chain[before[p - 1] as int].timestamp <= stamp);
                if k < p - 1 {
                    assert(shown_before(chain, before[k] as int, before[p - 1] as int));
                }
            }
            order.insert(p, i);
            assert forall|k: int| 0 <= k < order.len() implies (#[trigger] order[k]) < i + 1
                && chain[order[k] as int].id == id@ by {
                if k < p {
                    assert(order[k] == before[k]);
                } else if k > p {
                    assert(order[k] == before[k - 1]);
                }
            }
            assert forall|j: int| 0 <= j < i + 1 && chain[j].id == id@ implies exists|k: int|
                0 <= k < order.len() && order[k] == j by {
                if j < i {
                    let k0 = choose|k: int| 0 <= k < before.len() && before[k] == j;
                    if k0 < p {
                        assert(order[k0] == j);
                    } else {
                        assert(order[k0 + 1] == before[k0]);
                    }
                } else {
                    assert(order[p as int] == j);
                }
            }
            assert forall|a: int, b: int| 0 <= a < b < order.len() implies shown_before(
                chain,
                order[a] as int,
                order[b] as int,
            ) by {
                let ia = if a < p { a } else { a - 1 };
                let ib = if b < p { b } else { b - 1 };
                if a != p {
                    assert(order[a] == before[ia]);
                }
                if b != p {
                    assert(order[b] == before[ib]);
                }
                if a != p && b != p {
                    assert(shown_before(chain, before[ia] as int, before[ib] as int));
                }
            }
        }
        i += 1;
    }
    order
}

/// The proof that a request for the record at position `i` of `chain` is
/// answered with: the one for the first leaf that carries that record's
/// stored hash.
pub open spec fn requested_proof(chain: Seq<EntryView>, i: int) -> ProofView {
    ProofView {
        leaf_hash: chain[i].hash,
        path: proof_path(stored_hashes(chain), first_index(stored_hashes(chain), chain[i].hash)),
    }
}

/// The inclusion proof for the first record with id `entry_id` in the block
/// numbered `block_index`, counting blocks from one.
pub fn proof_for_entry(blocks: &[MerkleBlock], block_index: usize, entry_id: &str) -> (outcome:
    Result<MerkleProof, ProofRequestError>)
    ensures
        outcome == Err::<MerkleProof, ProofRequestError>(ProofRequestError::InvalidBlockIndex)
            <==> (block_index == 0 || block_index > blocks.len()),
        outcome == Err::<MerkleProof, ProofRequestError>(ProofRequestError::EntryNotFound) <==> (1
            <= block_index <= blocks.len() && id_absent(blocks[block_index - 1]@.entries, entry_id@)),
        outcome is Ok ==> outcome->Ok_0@ == requested_proof(
            blocks[block_index - 1]@.entries,
            first_index(entry_ids(blocks[block_index - 1]@.entries), entry_id@),
        ),
{
    if block_index == 0 || block_index > blocks.len() {
        return Err(ProofRequestError::InvalidBlockIndex);
    }
    let block = &blocks[block_index - 1];
    let ghost chain = block@.entries;
    match first_by_id(block.entries.as_slice(), entry_id) {
        None => Err(ProofRequestError::EntryNotFound),
        Some(i) => {
            let target = block.entries[i].hash.clone();
            assert(chain[i as int].hash == target@);
            assert(stored_hashes(chain)[i as int] == target@);
            match generate_merkle_proof(block.entries.as_slice(), target.as_str()) {
                Some(proof) => Ok(proof),
                None => Err(ProofRequestError::EntryNotFound),
            }
        },
    }
}

} // verus!
