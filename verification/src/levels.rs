//! Building level by level: what holds of each level of subtrees on the way
//! from the leaves to the root.

use vstd::prelude::*;
use crate::digest::digest;
use crate::model::{
    ceil_log2, collapsed, fold_levels, fold_nodes, halve, leaf_level, leaves_of, merkle_root,
    parent_level, root_of, depth_of, tree_of, NodeModel,
};

verus! {

/// The digests that a level of subtrees carries, in order.
pub open spec fn level_digests(level: Seq<NodeModel>) -> Seq<Seq<u8>> {
    Seq::new(level.len(), |j: int| level[j].digest())
}

/// Blob `i` is found at position `i` below its ancestor in a level that
/// lies `k` steps above the leaves.
pub open spec fn carries(level: Seq<NodeModel>, k: nat, blobs: Seq<Seq<u8>>, i: nat) -> bool {
    &&& halve(i, k) < level.len()
    &&& level[halve(i, k) as int].leaf_at(i) == digest(blobs[i as int])
}

/// `level` is what `k` collapsing steps make of the leaves of `blobs`.
pub open spec fn level_of(level: Seq<NodeModel>, k: nat, blobs: Seq<Seq<u8>>) -> bool {
    &&& level.len() > 0
    &&& blobs.len() > 0
    &&& forall|j: int|
        0 <= j < level.len() ==> (#[trigger] level[j]).well_formed() && level[j].height() == k
    &&& fold_levels(level_digests(level)) == fold_levels(leaf_level(blobs))
    &&& k + ceil_log2(level.len()) == ceil_log2(blobs.len())
    &&& forall|i: nat| i < blobs.len() ==> #[trigger] carries(level, k, blobs, i)
}

/// The leaves are the level that no step has collapsed yet.
pub proof fn lemma_leaves_level(blobs: Seq<Seq<u8>>)
    requires
        blobs.len() > 0,
    ensures
        level_of(leaves_of(blobs), 0, blobs),
{
    assert(level_digests(leaves_of(blobs)) =~= leaf_level(blobs));
    assert forall|i: nat| i < blobs.len() implies #[trigger] carries(leaves_of(blobs), 0, blobs, i) by {
        assert(halve(i, 0) == i);
    }
}

/// One collapsing step takes a level to the next one up.
pub proof fn lemma_collapse_level(level: Seq<NodeModel>, k: nat, blobs: Seq<Seq<u8>>)
    requires
        level_of(level, k, blobs),
        level.len() > 1,
    ensures
        level_of(collapsed(level), k + 1, blobs),
{
    let up = collapsed(level);
    assert(level_digests(up) =~= parent_level(level_digests(level)));
    assert forall|j: int| 0 <= j < up.len() implies (#[trigger] up[j]).well_formed()
        && up[j].height() == k + 1 by {
        assert(level[2 * j].well_formed());
        if 2 * j + 1 < level.len() {
            assert(level[2 * j + 1].well_formed());
        }
    }
    assert forall|i: nat| i < blobs.len() implies #[trigger] carries(up, k + 1, blobs, i) by {
        assert(carries(level, k, blobs, i));
        let pos = halve(i, k) as int;
        let q = pos / 2;
        assert(halve(i, k + 1) == q);
        assert(level[2 * q].well_formed());
        assert(up[q].height() == k + 1);
        if 2 * q + 1 < level.len() {
            assert(level[2 * q + 1].well_formed());
        } else {
            assert(pos == 2 * q);
        }
    }
}

/// A level of one subtree is the finished tree.
pub proof fn lemma_single_level(level: Seq<NodeModel>, k: nat, blobs: Seq<Seq<u8>>)
    requires
        level_of(level, k, blobs),
        level.len() == 1,
    ensures
        level[0].commits_to(blobs),
        k == ceil_log2(blobs.len()),
{
    assert(level[0].well_formed());
    assert(level_digests(level)[0] == level[0].digest());
    assert(fold_levels(level_digests(level)) == level[0].digest());
    assert(ceil_log2(1) == 0);
    assert(level[0].height() == k);
    assert forall|i: nat| i < blobs.len() implies #[trigger] level[0].leaf_at(i) == digest(
        blobs[i as int],
    ) by {
        assert(carries(level, k, blobs, i));
    }
}

/// Whatever level the leaves of `blobs` have come to, the tree it
/// collapses to holds `blobs`.
pub proof fn lemma_fold_commits(level: Seq<NodeModel>, k: nat, blobs: Seq<Seq<u8>>)
    requires
        level_of(level, k, blobs),
    ensures
        fold_nodes(level).commits_to(blobs),
    decreases level.len(),
{
    if level.len() == 1 {
        lemma_single_level(level, k, blobs);
    } else {
        lemma_collapse_level(level, k, blobs);
        lemma_fold_commits(collapsed(level), k + 1, blobs);
    }
}

/// The tree over a non-empty sequence of blobs holds them: it is well
/// formed, as deep as the ceiling of the binary logarithm of their
/// number, carries their root digest, and has blob `i` at position `i`.
pub proof fn lemma_tree_commits(blobs: Seq<Seq<u8>>)
    requires
        blobs.len() > 0,
    ensures
        tree_of(blobs) matches Some(tree) && tree.commits_to(blobs),
        root_of(tree_of(blobs)) == merkle_root(blobs),
        depth_of(tree_of(blobs)) == ceil_log2(blobs.len()),
{
    lemma_leaves_level(blobs);
    lemma_fold_commits(leaves_of(blobs), 0, blobs);
}

/// Collapsing takes no more steps than there are nodes.
pub proof fn lemma_ceil_log2_le(n: nat)
    ensures
        ceil_log2(n) <= n,
    decreases n,
{
    if n > 1 {
        lemma_ceil_log2_le((n + 1) / 2);
    }
}

} // verus!
