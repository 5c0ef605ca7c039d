//! Merkle trees over a batch of record hashes: the root, inclusion proofs and
//! their replay.

use crate::hashing::{hash_pair, parent_digest, unix_now};
use crate::models::{EntryView, LedgerEntry};
use vstd::prelude::*;
use vstd::string::*;

verus! {

/// One step of an inclusion proof: a sibling's hash, and whether the sibling
/// stands to the left of the node on the path.
pub type Step = (Seq<char>, bool);

/// The texts of a list of hash strings.
pub open spec fn texts(hashes: Seq<String>) -> Seq<Seq<char>> {
    Seq::new(hashes.len(), |i: int| hashes[i]@)
}

/// The values of a list of records, in order.
pub open spec fn records(entries: Seq<LedgerEntry>) -> Seq<EntryView> {
    Seq::new(entries.len(), |i: int| entries[i]@)
}

/// The stored hashes of a list of records, in order.
pub open spec fn stored_hashes(records: Seq<EntryView>) -> Seq<Seq<char>> {
    Seq::new(records.len(), |i: int| records[i].hash)
}

/// The stored hashes of a list of records, in order.
pub open spec fn entry_hashes(entries: Seq<LedgerEntry>) -> Seq<Seq<char>> {
    stored_hashes(records(entries))
}

/// The views of a list of proof steps.
pub open spec fn steps(path: Seq<(String, bool)>) -> Seq<Step> {
    Seq::new(path.len(), |i: int| (path[i].0@, path[i].1))
}

/// A level with its last node repeated when the count is odd.
pub open spec fn padded(level: Seq<Seq<char>>) -> Seq<Seq<char>> {
    if level.len() % 2 == 1 {
        level.push(level.last())
    } else {
        level
    }
}

/// The parents of a level: consecutive pairs of the padded level, each hashed
/// as `left || right`.
pub open spec fn next_level(level: Seq<Seq<char>>) -> Seq<Seq<char>> {
    Seq::new(
        ((level.len() + 1) / 2) as nat,
        |k: int| parent_digest(padded(level)[2 * k], padded(level)[2 * k + 1]),
    )
}

/// The root of the tree over `level`: the text `Empty` for no leaves, the leaf
/// itself for one, and otherwise the root of the level of parents.
pub open spec fn merkle_root(level: Seq<Seq<char>>) -> Seq<char>
    decreases level.len(),
{
    if level.len() == 0 {
        "Empty"@
    } else if level.len() == 1 {
        level[0]
    } else {
        merkle_root(next_level(level))
    }
}

/// The sibling of the node at `index` in `level`, and the side it stands on.
pub open spec fn sibling(level: Seq<Seq<char>>, index: int) -> Step {
    if index % 2 == 0 {
        (padded(level)[index + 1], false)
    } else {
        (level[index - 1], true)
    }
}

/// The siblings on the way from the leaf at `index` up to the root, leaf level
/// first.
pub open spec fn proof_path(level: Seq<Seq<char>>, index: int) -> Seq<Step>
    decreases level.len(),
{
    if level.len() <= 1 {
        Seq::empty()
    } else {
        seq![sibling(level, index)] + proof_path(next_level(level), index / 2)
    }
}

/// One replay step: the parent of `hash` and its sibling, in the order that
/// the side calls for.
pub open spec fn climb(hash: Seq<char>, step: Step) -> Seq<char> {
    if step.1 {
        parent_digest(step.0, hash)
    } else {
        parent_digest(hash, step.0)
    }
}

/// The hash reached from `hash` by climbing along `path`.
pub open spec fn replay(hash: Seq<char>, path: Seq<Step>) -> Seq<char>
    decreases path.len(),
{
    if path.len() == 0 {
        hash
    } else {
        replay(climb(hash, path[0]), path.skip(1))
    }
}

/// The first position at or after `start` where `target` stands in `level`, or
/// the length of `level` when there is none.
pub open spec fn first_index_from(level: Seq<Seq<char>>, target: Seq<char>, start: int) -> int
    decreases level.len() - start,
{
    if start >= level.len() {
        level.len() as int
    } else if level[start] == target {
        start
    } else {
        first_index_from(level, target, start + 1)
    }
}

/// The first position where `target` stands in `level`, or the length of
/// `level` when it is absent.
pub open spec fn first_index(level: Seq<Seq<char>>, target: Seq<char>) -> int {
    first_index_from(level, target, 0)
}

/// What `first_index_from` finds: a position in range that holds `target`
/// with no earlier one from `start` on, or the length when none holds it.
pub proof fn lemma_first_index_from(level: Seq<Seq<char>>, target: Seq<char>, start: int)
    requires
        0 <= start <= level.len(),
    ensures
        start <= first_index_from(level, target, start) <= level.len(),
        first_index_from(level, target, start) < level.len() ==> level[first_index_from(
            level,
            target,
            start,
        )] == target,
        forall|j: int| start <= j < first_index_from(level, target, start) ==> level[j] != target,
    decreases level.len() - start,
{
    if start < level.len() && level[start] != target {
        lemma_first_index_from(level, target, start + 1);
    }
}

/// An inclusion claim for one leaf: the leaf's hash and the siblings from the
/// leaf level up to the root.
#[derive(Debug)]
pub struct MerkleProof {
    pub leaf_hash: String,
    pub path: Vec<(String, bool)>,
}

/// The mathematical value of a proof.
pub struct ProofView {
    pub leaf_hash: Seq<char>,
    pub path: Seq<Step>,
}

impl View for MerkleProof {
    type V = ProofView;

    open spec fn view(&self) -> ProofView {
        ProofView { leaf_hash: self.leaf_hash@, path: steps(self.path@) }
    }
}

impl Clone for MerkleProof {
    fn clone(&self) -> (copy: Self)
        ensures
            copy@ == self@,
    {
        let mut path: Vec<(String, bool)> = Vec::new();
        let mut i: usize = 0;
        while i < self.path.len()
            invariant
                i <= self.path.len(),
                path.len() == i,
                forall|j: int| 0 <= j < i ==> steps(path@)[j] == steps(self.path@)[j],
            decreases self.path.len() - i,
        {
            let ghost before = path@;
            let step = &self.path[i];
            path.push((step.0.clone(), step.1));
            assert forall|j: int| 0 <= j < i + 1 implies steps(path@)[j] == steps(self.path@)[j] by {
                if j < i {
                    assert(path@[j] == before[j]);
                    assert(steps(before)[j] == steps(self.path@)[j]);
                }
            }
            i += 1;
        }
        assert(steps(path@) =~= steps(self.path@));
        MerkleProof { leaf_hash: self.leaf_hash.clone(), path }
    }
}

/// A batch of records sealed with the Merkle root of their stored hashes.
#[derive(Debug)]
pub struct MerkleBlock {
    pub entries: Vec<LedgerEntry>,
    pub merkle_root: String,
    pub timestamp: i64,
}

/// The mathematical value of a block.
pub struct BlockView {
    pub entries: Seq<EntryView>,
    pub merkle_root: Seq<char>,
    pub timestamp: int,
}

impl BlockView {
    /// The stored root is the Merkle root of the entries' stored hashes.
    pub open spec fn sealed(self) -> bool {
        self.merkle_root == merkle_root(stored_hashes(self.entries))
    }
}

impl View for MerkleBlock {
    type V = BlockView;

    open spec fn view(&self) -> BlockView {
        BlockView {
            entries: records(self.entries@),
            merkle_root: self.merkle_root@,
            timestamp: self.timestamp as int,
        }
    }
}

impl Clone for MerkleBlock {
    fn clone(&self) -> (copy: Self)
        ensures
            copy@ == self@,
    {
        let mut entries: Vec<LedgerEntry> = Vec::new();
        let mut i: usize = 0;
        while i < self.entries.len()
            invariant
                i <= self.entries.len(),
                entries.len() == i,
                forall|j: int| 0 <= j < i ==> (#[trigger] entries[j])@ == self.entries[j]@,
            decreases self.entries.len() - i,
        {
            entries.push(self.entries[i].clone());
            i += 1;
        }
        assert(records(entries@) =~= records(self.entries@));
        MerkleBlock { entries, merkle_root: self.merkle_root.clone(), timestamp: self.timestamp }
    }
}

impl MerkleBlock {
    /// Seals `entries`, in their given order, into a block stamped with the
    /// current time.
    pub fn new(entries: Vec<LedgerEntry>) -> (block: MerkleBlock)
        ensures
            block@.entries == records(entries@),
            block@.sealed(),
    {
        let timestamp = unix_now();
        MerkleBlock::at(entries, timestamp)
    }

    /// Seals `entries`, in their given order, into a block with the given
    /// sealing time.
    pub fn at(entries: Vec<LedgerEntry>, timestamp: i64) -> (block: MerkleBlock)
        ensures
            block@.entries == records(entries@),
            block@.timestamp == timestamp,
            block@.merkle_root == merkle_root(entry_hashes(entries@)),
            block@.sealed(),
    {
        let merkle_root = compute_merkle_root(entries.as_slice());
        MerkleBlock { entries, merkle_root, timestamp }
    }

    /// Recomputes the Merkle root over the stored entries and compares it with
    /// the stored root.
    pub fn is_sealed(&self) -> (ok: bool)
        ensures
            ok == self@.sealed(),
    {
        let root = compute_merkle_root(self.entries.as_slice());
        root == self.merkle_root
    }
}

/// The level of parents of a level: consecutive pairs hashed together, the
/// last node paired with itself when the count is odd.
pub fn parents_of(level: &Vec<String>) -> (parents: Vec<String>)
    ensures
        texts(parents@) == next_level(texts(level@)),
        parents.len() == (level.len() + 1) / 2,
{
    let n = level.len();
    let pairs = n / 2 + n % 2;
    let mut parents: Vec<String> = Vec::new();
    let mut k: usize = 0;
    while k < pairs
        invariant
            n == level.len(),
            pairs == (n + 1) / 2,
            k <= pairs,
            parents.len() == k,
            forall|j: int| 0 <= j < k ==> (#[trigger] parents[j])@ == next_level(texts(level@))[j],
        decreases pairs - k,
    {
        let left = &level[2 * k];
        let right = if 2 * k + 1 < n {
            &level[2 * k + 1]
        } else {
            &level[2 * k]
        };
        let parent = hash_pair(left.as_str(), right.as_str());
        parents.push(parent);
        k += 1;
    }
    assert(texts(parents@) =~= next_level(texts(level@)));
    parents
}

/// The Merkle root over leaf hashes in their given order.
pub fn root_of_hashes(hashes: Vec<String>) -> (root: String)
    ensures
        root@ == merkle_root(texts(hashes@)),
{
    if hashes.len() == 0 {
        return String::from_str("Empty");
    }
    let ghost leaves = texts(hashes@);
    let mut level = hashes;
    while level.len() > 1
        invariant
            level.len() >= 1,
            merkle_root(texts(level@)) == merkle_root(leaves),
        decreases level.len(),
    {
        level = parents_of(&level);
    }
    level[0].clone()
}

/// The stored hashes of the records, in order.
pub fn collect_hashes(entries: &[LedgerEntry]) -> (hashes: Vec<String>)
    ensures
        texts(hashes@) == entry_hashes(entries@),
{
    let mut hashes: Vec<String> = Vec::new();
    let mut i: usize = 0;
    while i < entries.len()
        invariant
            i <= entries.len(),
            hashes.len() == i,
            forall|j: int| 0 <= j < i ==> (#[trigger] hashes[j])@ == entries[j]@.hash,
        decreases entries.len() - i,
    {
        hashes.push(entries[i].hash.clone());
        i += 1;
    }
    assert(texts(hashes@) =~= entry_hashes(entries@));
    hashes
}

/// The Merkle root over the stored hashes of `entries`, in their given order;
/// the text `Empty` when there are none.
pub fn compute_merkle_root(entries: &[LedgerEntry]) -> (root: String)
    ensures
        root@ == merkle_root(entry_hashes(entries@)),
{
    root_of_hashes(collect_hashes(entries))
}

/// The first position of `target` among `hashes`, if it occurs.
pub fn find_leaf(hashes: &Vec<String>, target: &str) -> (found: Option<usize>)
    ensures
        match found {
            Some(i) => i < hashes.len() && i == first_index(texts(hashes@), target@),
            None => first_index(texts(hashes@), target@) == hashes.len(),
        },
{
    let wanted = String::from_str(target);
    let mut i: usize = 0;
    while i < hashes.len()
        invariant
            i <= hashes.len(),
            wanted@ == target@,
            first_index_from(texts(hashes@), target@, i as int) == first_index(
                texts(hashes@),
                target@,
            ),
        decreases hashes.len() - i,
    {
        if hashes[i] == wanted {
            return Some(i);
        }
        i += 1;
    }
    None
}

/// The inclusion proof for the first leaf equal to `target`, or nothing when
/// no leaf equals it.
pub fn proof_for_hashes(hashes: Vec<String>, target: &str) -> (proof: Option<MerkleProof>)
    ensures
        proof is Some <==> exists|i: int| 0 <= i < hashes.len() && hashes[i]@ == target@,
        proof is Some ==> proof->Some_0@ == (ProofView {
            leaf_hash: target@,
            path: proof_path(texts(hashes@), first_index(texts(hashes@), target@)),
        }),
{
    let ghost leaves = texts(hashes@);
    proof {
        lemma_first_index_from(leaves, target@, 0);
    }
    let found = find_leaf(&hashes, target);
    let mut index = match found {
        Some(i) => i,
        None => {
            assert forall|i: int| 0 <= i < hashes.len() implies hashes[i]@ != target@ by {
                assert(leaves[i] == hashes[i]@);
            }
            return None;
        },
    };
    assert(leaves[index as int] == hashes[index as int]@);
    let ghost leaf_index = index as int;
    let mut path: Vec<(String, bool)> = Vec::new();
    let mut level = hashes;
    while level.len() > 1
        invariant
            index < level.len(),
            steps(path@) + proof_path(texts(level@), index as int) == proof_path(
                leaves,
                leaf_index,
            ),
        decreases level.len(),
    {
        let ghost before = steps(path@);
        let ghost current = texts(level@);
        let on_left = index % 2 == 1;
        let beside = if on_left {
            level[index - 1].clone()
        } else if index + 1 < level.len() {
            level[index + 1].clone()
        } else {
            level[index].clone()
        };
        assert((beside@, on_left) == sibling(current, index as int));
        path.push((beside, on_left));
        level = parents_of(&level);
        index = index / 2;
        assert(steps(path@) =~= before.push(sibling(current, 2 * index + (if on_left { 1int } else { 0int }))));
        assert(steps(path@) + proof_path(texts(level@), index as int) =~= before + proof_path(
            current,
            2 * index + (if on_left { 1int } else { 0int }),
        ));
    }
    assert(proof_path(texts(level@), index as int) =~= Seq::<Step>::empty());
    assert(steps(path@) =~= proof_path(leaves, leaf_index));
    Some(MerkleProof { leaf_hash: String::from_str(target), path })
}

/// The inclusion proof for the first record whose stored hash equals
/// `target_hash`, or nothing when no record has it.
pub fn generate_merkle_proof(entries: &[LedgerEntry], target_hash: &str) -> (proof: Option<
    MerkleProof,
>)
    ensures
        proof is Some <==> exists|i: int| 0 <= i < entries.len() && entries[i]@.hash == target_hash@,
        proof is Some ==> proof->Some_0@ == (ProofView {
            leaf_hash: target_hash@,
            path: proof_path(
                entry_hashes(entries@),
                first_index(entry_hashes(entries@), target_hash@),
            ),
        }),
{
    let hashes = collect_hashes(entries);
    let proof = proof_for_hashes(hashes, target_hash);
    proof {
        if proof is Some {
            let i = choose|i: int| 0 <= i < hashes.len() && hashes[i]@ == target_hash@;
            assert(texts(hashes@)[i] == entry_hashes(entries@)[i]);
        }
        if exists|i: int| 0 <= i < entries.len() && entries[i]@.hash == target_hash@ {
            let i = choose|i: int| 0 <= i < entries.len() && entries[i]@.hash == target_hash@;
            assert(texts(hashes@)[i] == entry_hashes(entries@)[i]);
        }
    }
    proof
}

/// Replays the proof from its leaf and says whether it arrives exactly at
/// `root`.
pub fn verify_merkle_proof(proof: &MerkleProof, root: &str) -> (valid: bool)
    ensures
        valid == (replay(proof@.leaf_hash, proof@.path) == root@),
{
    let mut hash = proof.leaf_hash.clone();
    let mut i: usize = 0;
    assert(proof@.path.skip(0) =~= proof@.path);
    while i < proof.path.len()
        invariant
            i <= proof.path.len(),
            replay(hash@, proof@.path.skip(i as int)) == replay(proof@.leaf_hash, proof@.path),
        decreases proof.path.len() - i,
    {
        let step = &proof.path[i];
        assert(proof@.path.skip(i as int)[0] == (step.0@, step.1));
        assert(proof@.path.skip(i as int).skip(1) =~= proof@.path.skip(i + 1));
        hash = if step.1 {
            hash_pair(step.0.as_str(), hash.as_str())
        } else {
            hash_pair(hash.as_str(), step.0.as_str())
        };
        i += 1;
    }
    hash == String::from_str(root)
}

/// Each level above the leaves holds the parent of every node below it: the
/// node at `index` and its sibling hash to the node at `index / 2`.
pub proof fn lemma_climb_reaches_parent(level: Seq<Seq<char>>, index: int)
    requires
        0 <= index < level.len(),
    ensures
        0 <= index / 2 < next_level(level).len(),
        climb(level[index], sibling(level, index)) == next_level(level)[index / 2],
{
    let k = index / 2;
    assert(padded(level)[2 * k] == level[2 * k]);
    if index % 2 == 1 {
        assert(padded(level)[2 * k + 1] == level[index]);
    }
}

/// Replaying the path derived for any leaf position arrives at the root of the
/// tree.
pub proof fn law_path_replays_to_root(level: Seq<Seq<char>>, index: int)
    requires
        0 <= index < level.len(),
    ensures
        replay(level[index], proof_path(level, index)) == merkle_root(level),
    decreases level.len(),
{
    if level.len() > 1 {
        let path = proof_path(level, index);
        let rest = proof_path(next_level(level), index / 2);
        lemma_climb_reaches_parent(level, index);
        assert(path[0] == sibling(level, index));
        assert(path.skip(1) =~= rest);
        law_path_replays_to_root(next_level(level), index / 2);
    }
}

/// For every hash that occurs among the leaves, the proof that is generated
/// for it verifies against the root that is built from the same leaves.
pub proof fn law_generated_proof_verifies(leaves: Seq<Seq<char>>, target: Seq<char>)
    requires
        exists|i: int| 0 <= i < leaves.len() && leaves[i] == target,
    ensures
        0 <= first_index(leaves, target) < leaves.len(),
        replay(target, proof_path(leaves, first_index(leaves, target))) == merkle_root(leaves),
{
    lemma_first_index_from(leaves, target, 0);
    law_path_replays_to_root(leaves, first_index(leaves, target));
}

/// A hash has a first position among the leaves exactly when it occurs among
/// them, and that position holds it with no earlier one that does.
pub proof fn law_first_index_is_first(leaves: Seq<Seq<char>>, target: Seq<char>)
    ensures
        0 <= first_index(leaves, target) <= leaves.len(),
        first_index(leaves, target) < leaves.len() <==> exists|i: int|
            0 <= i < leaves.len() && leaves[i] == target,
        first_index(leaves, target) < leaves.len() ==> leaves[first_index(leaves, target)]
            == target,
        forall|j: int| 0 <= j < first_index(leaves, target) ==> leaves[j] != target,
{
    lemma_first_index_from(leaves, target, 0);
}

/// The root depends on nothing but the leaves and their order: two lists that
/// agree position by position have the same root.
pub proof fn law_root_is_determined_by_leaves(first: Seq<Seq<char>>, second: Seq<Seq<char>>)
    requires
        first.len() == second.len(),
        forall|i: int| 0 <= i < first.len() ==> first[i] == second[i],
    ensures
        merkle_root(first) == merkle_root(second),
{
    assert(first =~= second);
}

/// With three leaves the last one is paired with itself.
pub proof fn law_three_leaf_root(a: Seq<char>, b: Seq<char>, c: Seq<char>)
    ensures
        merkle_root(seq![a, b, c]) == parent_digest(parent_digest(a, b), parent_digest(c, c)),
{
    let leaves = seq![a, b, c];
    let above = seq![parent_digest(a, b), parent_digest(c, c)];
    let top = seq![parent_digest(above[0], above[1])];
    assert(padded(leaves) =~= seq![a, b, c, c]);
    assert(next_level(leaves) =~= above);
    assert(next_level(above) =~= top);
    assert(merkle_root(top) == top[0]);
    assert(merkle_root(above) == merkle_root(top));
    assert(merkle_root(leaves) == merkle_root(above));
}

/// With five leaves the fifth is paired with itself, and so is its parent one
/// level up.
pub proof fn law_five_leaf_root(
    a: Seq<char>,
    b: Seq<char>,
    c: Seq<char>,
    d: Seq<char>,
    e: Seq<char>,
)
    ensures
        merkle_root(seq![a, b, c, d, e]) == parent_digest(
            parent_digest(parent_digest(a, b), parent_digest(c, d)),
            parent_digest(parent_digest(e, e), parent_digest(e, e)),
        ),
{
    let leaves = seq![a, b, c, d, e];
    let ee = parent_digest(e, e);
    let third = seq![parent_digest(a, b), parent_digest(c, d), ee];
    let second = seq![parent_digest(third[0], third[1]), parent_digest(ee, ee)];
    let top = seq![parent_digest(second[0], second[1])];
    assert(padded(leaves) =~= seq![a, b, c, d, e, e]);
    assert(next_level(leaves) =~= third);
    assert(padded(third) =~= seq![third[0], third[1], ee, ee]);
    assert(next_level(third) =~= second);
    assert(next_level(second) =~= top);
    assert(merkle_root(top) == top[0]);
    assert(merkle_root(second) == merkle_root(top));
    assert(merkle_root(third) == merkle_root(second));
    assert(merkle_root(leaves) == merkle_root(third));
}

} // verus!
