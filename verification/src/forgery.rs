//! What a tampered inclusion proof costs: a proof that differs from a valid
//! one in a single sibling or a single side can only replay to the same hash
//! if SHA-256 maps two different texts to one digest along the way.

use crate::hashing::{lemma_same_prefix, lemma_same_suffix};
use crate::merkle::{climb, lemma_climb_reaches_parent, law_path_replays_to_root, merkle_root};
use crate::merkle::{next_level, padded, proof_path, replay, sibling, stored_hashes, BlockView, Step};
use crate::models::EntryView;
use vstd::prelude::*;

verus! {

/// The text that is hashed when `hash` climbs one step.
pub open spec fn climb_text(hash: Seq<char>, step: Step) -> Seq<char> {
    if step.1 {
        step.0 + hash
    } else {
        hash + step.0
    }
}

/// Replaying `first` from `left` and `second` from `right` side by side, no
/// step hashes two different texts to the same digest.
pub open spec fn collision_free(
    left: Seq<char>,
    first: Seq<Step>,
    right: Seq<char>,
    second: Seq<Step>,
) -> bool
    decreases first.len(),
{
    if first.len() == 0 || second.len() == 0 {
        true
    } else {
        &&& climb_text(left, first[0]) != climb_text(right, second[0]) ==> climb(left, first[0])
            != climb(right, second[0])
        &&& collision_free(
            climb(left, first[0]),
            first.skip(1),
            climb(right, second[0]),
            second.skip(1),
        )
    }
}

/// The path with the sibling of step `k` replaced by `forged`.
pub open spec fn with_sibling(path: Seq<Step>, k: int, forged: Seq<char>) -> Seq<Step> {
    path.update(k, (forged, path[k].1))
}

/// The path with the side of step `k` flipped.
pub open spec fn with_flipped_side(path: Seq<Step>, k: int) -> Seq<Step> {
    path.update(k, (path[k].0, !path[k].1))
}

/// Two replays of one path from different hashes end in different hashes,
/// unless SHA-256 collides along the way.
pub proof fn law_divergence_persists(left: Seq<char>, right: Seq<char>, path: Seq<Step>)
    requires
        left != right,
        collision_free(left, path, right, path),
    ensures
        replay(left, path) != replay(right, path),
    decreases path.len(),
{
    if path.len() > 0 {
        if path[0].1 {
            lemma_same_prefix(path[0].0, left, right);
        } else {
            lemma_same_suffix(left, right, path[0].0);
        }
        law_divergence_persists(climb(left, path[0]), climb(right, path[0]), path.skip(1));
    }
}

/// Replacing the sibling of any one step by a different text changes the hash
/// that the replay arrives at, unless SHA-256 collides along the way: against
/// the root that the true path reaches, the forged path fails.
pub proof fn law_forged_sibling_fails(hash: Seq<char>, path: Seq<Step>, k: int, forged: Seq<char>)
    requires
        0 <= k < path.len(),
        forged != path[k].0,
        collision_free(hash, path, hash, with_sibling(path, k, forged)),
    ensures
        replay(hash, with_sibling(path, k, forged)) != replay(hash, path),
    decreases k,
{
    let other = with_sibling(path, k, forged);
    if k == 0 {
        if path[0].1 {
            lemma_same_suffix(path[0].0, forged, hash);
        } else {
            lemma_same_prefix(hash, path[0].0, forged);
        }
        assert(other.skip(1) =~= path.skip(1));
        law_divergence_persists(climb(hash, path[0]), climb(hash, other[0]), path.skip(1));
    } else {
        assert(other[0] == path[0]);
        assert(other.skip(1) =~= with_sibling(path.skip(1), k - 1, forged));
        law_forged_sibling_fails(climb(hash, path[0]), path.skip(1), k - 1, forged);
    }
}

/// Flipping the side of any one step changes the hash that the replay arrives
/// at, unless SHA-256 collides along the way, or the node reached below that
/// step and its sibling read the same in either order, as a node and the twin
/// that pads an odd level do.
pub proof fn law_flipped_side_fails(hash: Seq<char>, path: Seq<Step>, k: int)
    requires
        0 <= k < path.len(),
        replay(hash, path.take(k)) + path[k].0 != path[k].0 + replay(hash, path.take(k)),
        collision_free(hash, path, hash, with_flipped_side(path, k)),
    ensures
        replay(hash, with_flipped_side(path, k)) != replay(hash, path),
    decreases k,
{
    let other = with_flipped_side(path, k);
    if k == 0 {
        assert(path.take(0) =~= Seq::<Step>::empty());
        assert(other.skip(1) =~= path.skip(1));
        law_divergence_persists(climb(hash, path[0]), climb(hash, other[0]), path.skip(1));
    } else {
        assert(other[0] == path[0]);
        assert(other.skip(1) =~= with_flipped_side(path.skip(1), k - 1));
        assert(path.take(k)[0] == path[0]);
        assert(path.take(k).skip(1) =~= path.skip(1).take(k - 1));
        law_flipped_side_fails(climb(hash, path[0]), path.skip(1), k - 1);
    }
}

/// A text written twice differs from another text written twice.
pub proof fn lemma_doubled_texts_differ(a: Seq<char>, b: Seq<char>)
    requires
        a != b,
    ensures
        a + a != b + b,
{
    if a + a == b + b {
        assert((a + a).len() == 2 * a.len());
        assert((b + b).len() == 2 * b.len());
        assert forall|i: int| 0 <= i < a.len() implies a[i] == b[i] by {
            assert(a[i] == (a + a)[i]);
            assert(b[i] == (b + b)[i]);
        }
        assert(a =~= b);
    }
}

/// Replacing one node of a level replaces one parent and leaves the other
/// parents as they were.
pub proof fn lemma_parents_after_replacement(level: Seq<Seq<char>>, i: int, node: Seq<char>)
    requires
        0 <= i < level.len(),
    ensures
        next_level(level.update(i, node)) == next_level(level).update(
            i / 2,
            next_level(level.update(i, node))[i / 2],
        ),
{
    let changed = level.update(i, node);
    assert forall|k: int| 0 <= k < next_level(level).len() && k != i / 2 implies next_level(
        changed,
    )[k] == next_level(level)[k] by {
        assert(padded(changed)[2 * k] == padded(level)[2 * k]);
        assert(padded(changed)[2 * k + 1] == padded(level)[2 * k + 1]);
    }
    assert(next_level(changed) =~= next_level(level).update(i / 2, next_level(changed)[i / 2]));
}

/// Climbing from a replaced leaf and from the leaf it replaced, each along its
/// own path, ends in different hashes, unless SHA-256 collides along the way.
pub proof fn lemma_replaced_leaf_diverges(level: Seq<Seq<char>>, i: int, node: Seq<char>)
    requires
        0 <= i < level.len(),
        node != level[i],
        collision_free(
            level[i],
            proof_path(level, i),
            node,
            proof_path(level.update(i, node), i),
        ),
    ensures
        replay(level[i], proof_path(level, i)) != replay(
            node,
            proof_path(level.update(i, node), i),
        ),
    decreases level.len(),
{
    let changed = level.update(i, node);
    let first = proof_path(level, i);
    let second = proof_path(changed, i);
    if level.len() > 1 {
        let above = next_level(level);
        let parent = climb(node, sibling(changed, i));
        assert(first[0] == sibling(level, i));
        assert(second[0] == sibling(changed, i));
        assert(first.skip(1) =~= proof_path(above, i / 2));
        assert(second.skip(1) =~= proof_path(next_level(changed), i / 2));
        lemma_climb_reaches_parent(level, i);
        lemma_climb_reaches_parent(changed, i);
        lemma_parents_after_replacement(level, i, node);
        if i % 2 == 1 {
            lemma_same_prefix(level[i - 1], level[i], node);
        } else if i + 1 < level.len() {
            assert(padded(level)[i + 1] == level[i + 1]);
            assert(padded(changed)[i + 1] == level[i + 1]);
            lemma_same_suffix(level[i], node, level[i + 1]);
        } else {
            assert(padded(level)[i + 1] == level[i]);
            assert(padded(changed)[i + 1] == node);
            lemma_doubled_texts_differ(level[i], node);
        }
        assert(climb_text(level[i], first[0]) != climb_text(node, second[0]));
        assert(parent != above[i / 2]);
        assert(next_level(changed) == above.update(i / 2, parent));
        lemma_replaced_leaf_diverges(above, i / 2, parent);
    }
}

/// Replacing one leaf by a different text changes the root of the tree, unless
/// SHA-256 collides on the way from that leaf to the root.
pub proof fn law_replaced_leaf_changes_root(leaves: Seq<Seq<char>>, i: int, forged: Seq<char>)
    requires
        0 <= i < leaves.len(),
        forged != leaves[i],
        collision_free(
            leaves[i],
            proof_path(leaves, i),
            forged,
            proof_path(leaves.update(i, forged), i),
        ),
    ensures
        merkle_root(leaves.update(i, forged)) != merkle_root(leaves),
{
    law_path_replays_to_root(leaves, i);
    law_path_replays_to_root(leaves.update(i, forged), i);
    lemma_replaced_leaf_diverges(leaves, i, forged);
}

/// A sealed block in which one record is replaced by a record with another
/// stored hash, the stored root left as it was, is no longer sealed, unless
/// SHA-256 collides on the way from that record's leaf to the root.
pub proof fn law_replaced_record_unseals_block(block: BlockView, i: int, forged: EntryView)
    requires
        block.sealed(),
        0 <= i < block.entries.len(),
        forged.hash != block.entries[i].hash,
        collision_free(
            block.entries[i].hash,
            proof_path(stored_hashes(block.entries), i),
            forged.hash,
            proof_path(stored_hashes(block.entries).update(i, forged.hash), i),
        ),
    ensures
        !(BlockView { entries: block.entries.update(i, forged), ..block }).sealed(),
{
    let leaves = stored_hashes(block.entries);
    assert(stored_hashes(block.entries.update(i, forged)) =~= leaves.update(i, forged.hash));
    law_replaced_leaf_changes_root(leaves, i, forged.hash);
}

} // verus!
