//! The ledger as a whole: linking new records to the chain's tail, sealing
//! batches into blocks, and the two integrity sweeps.

use crate::hashing::unix_now;
use crate::merkle::{records, MerkleBlock, BlockView};
use crate::models::{EntryView, LedgerEntry};
use vstd::prelude::*;
use vstd::string::*;

verus! {

/// The number of records that one block seals.
pub const BATCH_SIZE: usize = 5;

/// The values of a list of blocks, in order.
pub open spec fn block_views(blocks: Seq<MerkleBlock>) -> Seq<BlockView> {
    Seq::new(blocks.len(), |i: int| blocks[i]@)
}

/// The hash that the next record links to: the stored hash of the last record,
/// or the text `0` when there is none.
pub open spec fn tail_hash(chain: Seq<EntryView>) -> Seq<char> {
    if chain.len() == 0 {
        "0"@
    } else {
        chain.last().hash
    }
}

/// The record at `i` names the stored hash of the record before it.
pub open spec fn links(chain: Seq<EntryView>, i: int) -> bool {
    chain[i - 1].hash == chain[i].prevhash
}

/// Every record after the first and before position `n` names the stored hash
/// of the record before it.
pub open spec fn intact_upto(chain: Seq<EntryView>, n: int) -> bool {
    forall|i: int| 1 <= i < n ==> links(chain, i)
}

/// The whole chain is free of breaks.
pub open spec fn chain_intact(chain: Seq<EntryView>) -> bool {
    intact_upto(chain, chain.len() as int)
}

/// Position `i` is where the chain first breaks.
pub open spec fn first_break(chain: Seq<EntryView>, i: int) -> bool {
    &&& 1 <= i < chain.len()
    &&& intact_upto(chain, i)
    &&& !links(chain, i)
}

/// Position `i` holds the first block whose stored root is not the root of its
/// entries.
pub open spec fn first_mismatch(blocks: Seq<BlockView>, i: int) -> bool {
    &&& 0 <= i < blocks.len()
    &&& forall|j: int| 0 <= j < i ==> blocks[j].sealed()
    &&& !blocks[i].sealed()
}

/// What the chain sweep may report for `chain`: nothing when the chain is
/// intact, and otherwise the position of its first break.
pub open spec fn chain_report(chain: Seq<EntryView>, broken: Option<usize>) -> bool {
    match broken {
        None => chain_intact(chain),
        Some(i) => first_break(chain, i as int),
    }
}

/// What the block sweep may report for `blocks`: nothing when every block is
/// sealed, and otherwise the position of the first block that is not.
pub open spec fn block_report(blocks: Seq<BlockView>, mismatch: Option<usize>) -> bool {
    match mismatch {
        None => forall|j: int| 0 <= j < blocks.len() ==> blocks[j].sealed(),
        Some(i) => first_mismatch(blocks, i as int),
    }
}

/// The chain grew record by record, each one linked to the tail that it found:
/// the first to the text `0`, every later one to its predecessor's stored hash.
pub open spec fn built_by_linking(chain: Seq<EntryView>) -> bool
    decreases chain.len(),
{
    chain.len() == 0 || (built_by_linking(chain.drop_last()) && chain.last().prevhash
        == tail_hash(chain.drop_last()))
}

/// The chain with the `prevhash` of the record at `i` replaced by `forged`.
pub open spec fn with_prevhash(chain: Seq<EntryView>, i: int, forged: Seq<char>) -> Seq<
    EntryView,
> {
    chain.update(i, EntryView { prevhash: forged, ..chain[i] })
}

/// The hash that the next record must name as its predecessor.
pub fn get_last_hash(entries: &[LedgerEntry]) -> (hash: String)
    ensures
        hash@ == tail_hash(records(entries@)),
{
    let n = entries.len();
    if n == 0 {
        String::from_str("0")
    } else {
        entries[n - 1].hash.clone()
    }
}

/// A new record with the given creation time, linked to the tail of `entries`
/// and sealed with its content hash.
pub fn next_entry_at(entries: &[LedgerEntry], id: String, data: String, timestamp: i64) -> (entry:
    LedgerEntry)
    ensures
        entry@.id == id@,
        entry@.data == data@,
        entry@.timestamp == timestamp,
        entry@.prevhash == tail_hash(records(entries@)),
        entry@.sealed(),
        chain_intact(records(entries@)) ==> chain_intact(records(entries@).push(entry@)),
        built_by_linking(records(entries@)) ==> built_by_linking(records(entries@).push(entry@)),
{
    let prevhash = get_last_hash(entries);
    let entry = LedgerEntry::at(id, data, timestamp, prevhash);
    proof {
        let chain = records(entries@);
        assert(chain.push(entry@).drop_last() =~= chain);
        if chain_intact(chain) {
            law_linking_keeps_chain_intact(chain, entry@);
        }
    }
    entry
}

/// A new record stamped with the current time, linked to the tail of `entries`
/// and sealed with its content hash.
pub fn next_entry(entries: &[LedgerEntry], id: String, data: String) -> (entry: LedgerEntry)
    ensures
        entry@.id == id@,
        entry@.data == data@,
        entry@.prevhash == tail_hash(records(entries@)),
        entry@.sealed(),
        chain_intact(records(entries@)) ==> chain_intact(records(entries@).push(entry@)),
        built_by_linking(records(entries@)) ==> built_by_linking(records(entries@).push(entry@)),
{
    let timestamp = unix_now();
    next_entry_at(entries, id, data, timestamp)
}

/// Walks the records in append order and reports the position of the first
/// record that does not name its predecessor's stored hash, or nothing when
/// the chain is intact.
pub fn verify_chain(entries: &[LedgerEntry]) -> (broken: Option<usize>)
    ensures
        chain_report(records(entries@), broken),
        broken is None <==> chain_intact(records(entries@)),
{
    let mut i: usize = 1;
    while i < entries.len()
        invariant
            1 <= i,
            intact_upto(records(entries@), i as int),
        decreases entries.len() - i,
    {
        if !(entries[i - 1].hash == entries[i].prevhash) {
            assert(!links(records(entries@), i as int));
            return Some(i);
        }
        i += 1;
    }
    None
}

/// Recomputes every block's Merkle root over its stored entries and reports
/// the position of the first block whose stored root differs, or nothing when
/// all agree.
pub fn verify_blocks(blocks: &[MerkleBlock]) -> (mismatch: Option<usize>)
    ensures
        block_report(block_views(blocks@), mismatch),
        mismatch is None <==> forall|j: int|
            0 <= j < blocks.len() ==> block_views(blocks@)[j].sealed(),
{
    let mut i: usize = 0;
    while i < blocks.len()
        invariant
            i <= blocks.len(),
            forall|j: int| 0 <= j < i ==> block_views(blocks@)[j].sealed(),
        decreases blocks.len() - i,
    {
        if !blocks[i].is_sealed() {
            return Some(i);
        }
        i += 1;
    }
    None
}

/// Seals the first `BATCH_SIZE` records into a block with the given sealing
/// time; nothing when fewer are at hand.
pub fn build_block_at(entries: &[LedgerEntry], timestamp: i64) -> (block: Option<MerkleBlock>)
    ensures
        block is Some <==> entries.len() >= BATCH_SIZE,
        block is Some ==> {
            &&& block->Some_0@.entries == records(entries@).take(BATCH_SIZE as int)
            &&& block->Some_0@.timestamp == timestamp
            &&& block->Some_0@.sealed()
        },
{
    if entries.len() < BATCH_SIZE {
        return None;
    }
    let mut batch: Vec<LedgerEntry> = Vec::new();
    let mut i: usize = 0;
    while i < BATCH_SIZE
        invariant
            i <= BATCH_SIZE <= entries.len(),
            batch.len() == i,
            forall|j: int| 0 <= j < i ==> (#[trigger] batch[j])@ == entries[j]@,
        decreases BATCH_SIZE - i,
    {
        batch.push(entries[i].clone());
        i += 1;
    }
    assert(records(batch@) =~= records(entries@).take(BATCH_SIZE as int));
    Some(MerkleBlock::at(batch, timestamp))
}

/// Seals the first `BATCH_SIZE` records into a block stamped with the current
/// time; nothing when fewer are at hand.
pub fn build_block(entries: &[LedgerEntry]) -> (block: Option<MerkleBlock>)
    ensures
        block is Some <==> entries.len() >= BATCH_SIZE,
        block is Some ==> {
            &&& block->Some_0@.entries == records(entries@).take(BATCH_SIZE as int)
            &&& block->Some_0@.sealed()
        },
{
    let timestamp = unix_now();
    build_block_at(entries, timestamp)
}

/// Appending a record that names the tail's hash keeps an intact chain intact.
pub proof fn law_linking_keeps_chain_intact(chain: Seq<EntryView>, entry: EntryView)
    requires
        chain_intact(chain),
        entry.prevhash == tail_hash(chain),
    ensures
        chain_intact(chain.push(entry)),
{
    let longer = chain.push(entry);
    assert forall|i: int| 1 <= i < longer.len() implies links(longer, i) by {
        if i < chain.len() {
            assert(links(chain, i));
        }
    }
}

/// A chain that grew by linking alone is intact, and its first record names
/// the text `0`.
pub proof fn law_linked_chain_is_intact(chain: Seq<EntryView>)
    requires
        built_by_linking(chain),
    ensures
        chain_intact(chain),
        chain.len() > 0 ==> chain[0].prevhash == "0"@,
    decreases chain.len(),
{
    if chain.len() > 0 {
        let shorter = chain.drop_last();
        law_linked_chain_is_intact(shorter);
        law_linking_keeps_chain_intact(shorter, chain.last());
        assert(shorter.push(chain.last()) =~= chain);
        if shorter.len() > 0 {
            assert(shorter[0] == chain[0]);
        }
    }
}

/// In an intact chain, replacing the `prevhash` of any record but the first by
/// a text other than its predecessor's stored hash makes that record's
/// position the first break.
pub proof fn law_forged_link_is_found(chain: Seq<EntryView>, i: int, forged: Seq<char>)
    requires
        chain_intact(chain),
        1 <= i < chain.len(),
        forged != chain[i - 1].hash,
    ensures
        first_break(with_prevhash(chain, i, forged), i),
{
    let tampered = with_prevhash(chain, i, forged);
    assert forall|j: int| 1 <= j < i implies links(tampered, j) by {
        assert(links(chain, j));
    }
}

/// A chain has at most one first break, and an intact chain has none: what
/// the chain sweep reports is determined by the records alone.
pub proof fn law_first_break_is_unique(chain: Seq<EntryView>, i: int, j: int)
    requires
        first_break(chain, i),
    ensures
        !chain_intact(chain),
        first_break(chain, j) ==> i == j,
{
    if first_break(chain, j) {
        if i < j {
            assert(links(chain, i));
        }
        if j < i {
            assert(links(chain, j));
        }
    }
}

/// For a chain that grew by linking alone the chain sweep reports nothing.
pub proof fn law_linked_chain_verifies(chain: Seq<EntryView>, report: Option<usize>)
    requires
        built_by_linking(chain),
        chain_report(chain, report),
    ensures
        report is None,
{
    law_linked_chain_is_intact(chain);
    if report is Some {
        law_first_break_is_unique(chain, report->Some_0 as int, 0);
    }
}

/// After the `prevhash` of any record but the first of an intact chain is
/// replaced by a text other than its predecessor's stored hash, the chain
/// sweep reports exactly that record's position.
pub proof fn law_forged_link_is_reported(
    chain: Seq<EntryView>,
    i: int,
    forged: Seq<char>,
    report: Option<usize>,
)
    requires
        chain_intact(chain),
        1 <= i < chain.len(),
        forged != chain[i - 1].hash,
        chain_report(with_prevhash(chain, i, forged), report),
    ensures
        report is Some,
        report->Some_0 == i,
{
    let tampered = with_prevhash(chain, i, forged);
    law_forged_link_is_found(chain, i, forged);
    law_first_break_is_unique(tampered, i, 0);
    if report is Some {
        law_first_break_is_unique(tampered, i, report->Some_0 as int);
    }
}

/// For blocks that were all sealed from their entries the block sweep reports
/// nothing; once the stored root of one of them no longer is the root of its
/// entries, the sweep reports the first such block.
pub proof fn law_block_report_is_exact(blocks: Seq<BlockView>, report: Option<usize>)
    requires
        block_report(blocks, report),
    ensures
        report is None <==> forall|j: int| 0 <= j < blocks.len() ==> blocks[j].sealed(),
        forall|i: int| first_mismatch(blocks, i) ==> report == Some(i as usize),
{
    assert forall|i: int| first_mismatch(blocks, i) implies report == Some(i as usize) by {
        if report is Some {
            let r = report->Some_0 as int;
            if r < i {
                assert(blocks[r].sealed());
            }
            if i < r {
                assert(blocks[i].sealed());
            }
        }
    }
}

} // verus!
