//! What holds of commitments, proofs and replays taken together.

use vstd::prelude::*;
use vstd::arithmetic::power2::{lemma2_to64, lemma_pow2_unfold, pow2};
use crate::digest::{collision_exists, digest, is_collision, DIGEST_LEN};
use crate::levels::lemma_tree_commits;
use crate::model::{
    accepts, ceil_log2, combine, fold_levels, goes_right, halve, leaf_level, merkle_root,
    parent_level, proof_of, replay, tree_of, NodeModel,
};

verus! {

/// Halving first and then `times` more is halving `times + 1` times.
pub proof fn lemma_halve_shift(index: nat, times: nat)
    ensures
        halve(index / 2, times) == halve(index, times + 1),
    decreases times,
{
    if times > 0 {
        lemma_halve_shift(index, (times - 1) as nat);
    } else {
        assert(halve(index, 1) == halve(index, 0) / 2);
    }
}

/// A proof from a well-formed tree has as many elements as the tree is
/// deep, whatever the position.
pub proof fn lemma_proof_len(node: NodeModel, index: nat)
    requires
        node.well_formed(),
    ensures
        node.proof_at(index).len() == node.height(),
    decreases node,
{
    match node {
        NodeModel::Leaf { .. } => {},
        NodeModel::Inner { left, right, .. } => {
            lemma_proof_len(*left, index);
            lemma_proof_len(*right, index);
        },
    }
}

/// The element next to the root is consumed last, on the side given by
/// the position halved once for every element below it.
pub proof fn lemma_replay_top(current: Seq<u8>, top: Seq<u8>, rest: Seq<Seq<u8>>, index: nat)
    ensures
        replay(current, seq![top] + rest, index) == combine(
            replay(current, rest, index),
            top,
            halve(index, rest.len()),
        ),
    decreases rest.len(),
{
    let whole = seq![top] + rest;
    if rest.len() == 0 {
        assert(whole.last() == top);
        assert(whole.drop_last() =~= Seq::<Seq<u8>>::empty());
        assert(replay(combine(current, top, index), whole.drop_last(), index / 2) == combine(
            current,
            top,
            index,
        ));
    } else {
        assert(whole.last() == rest.last());
        assert(whole.drop_last() =~= seq![top] + rest.drop_last());
        lemma_replay_top(combine(current, rest.last(), index), top, rest.drop_last(), index / 2);
        lemma_halve_shift(index, (rest.len() - 1) as nat);
    }
}

/// In a well-formed tree, the leaf at any position and the proof for that
/// position replay to the digest at the top.
pub proof fn lemma_node_round_trip(node: NodeModel, index: nat)
    requires
        node.well_formed(),
    ensures
        replay(node.leaf_at(index), node.proof_at(index), index) == node.digest(),
    decreases node,
{
    match node {
        NodeModel::Leaf { .. } => {},
        NodeModel::Inner { left, right, .. } => {
            let level = (node.height() - 1) as nat;
            lemma_node_round_trip(*left, index);
            lemma_node_round_trip(*right, index);
            lemma_proof_len(*left, index);
            lemma_proof_len(*right, index);
            if goes_right(index, level) {
                lemma_replay_top(
                    right.leaf_at(index),
                    left.digest(),
                    right.proof_at(index),
                    index,
                );
            } else {
                lemma_replay_top(
                    left.leaf_at(index),
                    right.digest(),
                    left.proof_at(index),
                    index,
                );
            }
        },
    }
}

/// Round trip: for every position `i` among `blobs`, the proof that the
/// tree over `blobs` gives for `i` is accepted for blob `i` at position
/// `i` against the root digest of `blobs`, and has as many elements as
/// the tree is deep.
pub proof fn lemma_round_trip(blobs: Seq<Seq<u8>>, i: nat)
    requires
        i < blobs.len(),
    ensures
        merkle_root(blobs) matches Some(root) && accepts(
            root,
            blobs[i as int],
            proof_of(tree_of(blobs), i),
            i,
        ),
        proof_of(tree_of(blobs), i).len() == ceil_log2(blobs.len()),
{
    lemma_tree_commits(blobs);
    let tree = tree_of(blobs).unwrap();
    lemma_node_round_trip(tree, i);
    lemma_proof_len(tree, i);
    assert(tree.leaf_at(i) == digest(blobs[i as int]));
}

/// Two joins that agree, with first parts of one length, agree part by
/// part.
pub proof fn lemma_split_join(a: Seq<u8>, b: Seq<u8>, c: Seq<u8>, d: Seq<u8>)
    requires
        a.len() == c.len(),
        a + b == c + d,
    ensures
        a == c,
        b == d,
{
    let ab = a + b;
    let cd = c + d;
    assert(ab.len() == a.len() + b.len());
    assert(cd.len() == c.len() + d.len());
    assert(ab.subrange(0, a.len() as int) =~= a);
    assert(cd.subrange(0, c.len() as int) =~= c);
    assert(ab.subrange(a.len() as int, ab.len() as int) =~= b);
    assert(cd.subrange(c.len() as int, cd.len() as int) =~= d);
}

/// Two levels of digests of one length that collapse to one digest are
/// the same level, unless the hash function has a collision.
pub proof fn lemma_levels_binding(first: Seq<Seq<u8>>, second: Seq<Seq<u8>>)
    requires
        first.len() == second.len(),
        first.len() > 0,
        forall|j: int| 0 <= j < first.len() ==> (#[trigger] first[j]).len() == DIGEST_LEN,
        forall|j: int| 0 <= j < second.len() ==> (#[trigger] second[j]).len() == DIGEST_LEN,
        fold_levels(first) == fold_levels(second),
    ensures
        first == second || collision_exists(),
    decreases first.len(),
{
    if collision_exists() {
    } else if first.len() == 1 {
        assert(first =~= second);
    } else {
        let above_first = parent_level(first);
        let above_second = parent_level(second);
        lemma_levels_binding(above_first, above_second);
        assert forall|j: int| 0 <= j < first.len() implies first[j] == second[j] by {
            let q = j / 2;
            let r = if 2 * q + 1 < first.len() {
                2 * q + 1
            } else {
                2 * q
            };
            assert(above_first[q] == above_second[q]);
            assert(!is_collision(first[2 * q] + first[r], second[2 * q] + second[r]));
            lemma_split_join(first[2 * q], first[r], second[2 * q], second[r]);
        }
        assert(first =~= second);
    }
}

/// Binding: two sequences of equally many blobs with one root digest are
/// the same sequence, unless the hash function has a collision.
pub proof fn lemma_root_binding(first: Seq<Seq<u8>>, second: Seq<Seq<u8>>)
    requires
        first.len() == second.len(),
        merkle_root(first) == merkle_root(second),
    ensures
        first == second || collision_exists(),
{
    if collision_exists() {
    } else if first.len() == 0 {
        assert(first =~= second);
    } else {
        lemma_levels_binding(leaf_level(first), leaf_level(second));
        assert forall|i: int| 0 <= i < first.len() implies first[i] == second[i] by {
            assert(leaf_level(first)[i] == leaf_level(second)[i]);
            assert(!is_collision(first[i], second[i]));
        }
        assert(first =~= second);
    }
}

/// `blobs` with the blobs at positions `i` and `j` exchanged.
pub open spec fn swapped(blobs: Seq<Seq<u8>>, i: int, j: int) -> Seq<Seq<u8>> {
    blobs.update(i, blobs[j]).update(j, blobs[i])
}

/// Order sensitivity: exchanging two blobs of different content changes
/// the root digest, unless the hash function has a collision.
pub proof fn lemma_order_sensitive(blobs: Seq<Seq<u8>>, i: int, j: int)
    requires
        0 <= i < blobs.len(),
        0 <= j < blobs.len(),
        blobs[i] != blobs[j],
    ensures
        merkle_root(swapped(blobs, i, j)) != merkle_root(blobs) || collision_exists(),
{
    let other = swapped(blobs, i, j);
    assert(other[i] == blobs[j]);
    if merkle_root(other) == merkle_root(blobs) {
        lemma_root_binding(other, blobs);
    }
}

/// Two replays at one position that arrive at one digest started from the
/// same digest with the same proof, unless the hash function has a
/// collision. The two proofs are of one shape: equally many elements, of
/// equal lengths.
pub proof fn lemma_replay_binding(
    start1: Seq<u8>,
    proof1: Seq<Seq<u8>>,
    start2: Seq<u8>,
    proof2: Seq<Seq<u8>>,
    index: nat,
)
    requires
        start1.len() == start2.len(),
        proof1.len() == proof2.len(),
        forall|k: int| 0 <= k < proof1.len() ==> (#[trigger] proof1[k]).len() == proof2[k].len(),
        replay(start1, proof1, index) == replay(start2, proof2, index),
    ensures
        (start1 == start2 && proof1 == proof2) || collision_exists(),
    decreases proof1.len(),
{
    if collision_exists() {
    } else if proof1.len() == 0 {
        assert(proof1 =~= proof2);
    } else {
        let s1 = proof1.last();
        let s2 = proof2.last();
        assert(s1.len() == s2.len());
        lemma_replay_binding(
            combine(start1, s1, index),
            proof1.drop_last(),
            combine(start2, s2, index),
            proof2.drop_last(),
            index / 2,
        );
        if index % 2 == 0 {
            assert(!is_collision(start1 + s1, start2 + s2));
            lemma_split_join(start1, s1, start2, s2);
        } else {
            assert(!is_collision(s1 + start1, s2 + start2));
            lemma_split_join(s1, start1, s2, start2);
        }
        assert(proof1 =~= proof1.drop_last().push(s1));
        assert(proof2 =~= proof2.drop_last().push(s2));
    }
}

/// Tamper detection, blob and proof: where a blob with its proof is
/// accepted at a position, no other blob and no other proof of the same
/// shape is accepted at that position against the same root, unless the
/// hash function has a collision. Flipping bits keeps the shape.
pub proof fn lemma_tamper_evident(
    root: Seq<u8>,
    blob: Seq<u8>,
    proof: Seq<Seq<u8>>,
    other_blob: Seq<u8>,
    other_proof: Seq<Seq<u8>>,
    index: nat,
)
    requires
        accepts(root, blob, proof, index),
        proof.len() == other_proof.len(),
        forall|k: int| 0 <= k < proof.len() ==> (#[trigger] proof[k]).len() == other_proof[k].len(),
        blob != other_blob || proof != other_proof,
    ensures
        !accepts(root, other_blob, other_proof, index) || collision_exists(),
{
    if accepts(root, other_blob, other_proof, index) {
        lemma_replay_binding(digest(blob), proof, digest(other_blob), other_proof, index);
        if !collision_exists() {
            assert(!is_collision(blob, other_blob));
        }
    }
}

/// In a well-formed tree every node carries a digest of the fixed length,
/// and so does every element of every proof.
pub proof fn lemma_proof_elements(node: NodeModel, index: nat)
    requires
        node.well_formed(),
    ensures
        node.digest().len() == DIGEST_LEN,
        forall|k: int|
            0 <= k < node.proof_at(index).len() ==> (#[trigger] node.proof_at(index)[k]).len()
                == DIGEST_LEN,
    decreases node,
{
    match node {
        NodeModel::Leaf { .. } => {},
        NodeModel::Inner { left, right, .. } => {
            lemma_proof_elements(*left, index);
            lemma_proof_elements(*right, index);
            let whole = node.proof_at(index);
            let (sibling, below) = if goes_right(index, (node.height() - 1) as nat) {
                (left.digest(), right.proof_at(index))
            } else {
                (right.digest(), left.proof_at(index))
            };
            assert(whole == seq![sibling] + below);
            assert forall|k: int| 0 <= k < whole.len() implies (#[trigger] whole[k]).len()
                == DIGEST_LEN by {
                if k > 0 {
                    assert(whole[k] == below[k - 1]);
                }
            }
        },
    }
}

/// Soundness of inclusion: what is accepted against the root digest of
/// `blobs` at a position among them, with a proof as long as the tree is
/// deep and made of digests, is the blob at that position with the proof
/// that the tree gives for it; unless the hash function has a collision.
pub proof fn lemma_accepted_is_committed(
    blobs: Seq<Seq<u8>>,
    blob: Seq<u8>,
    proof: Seq<Seq<u8>>,
    i: nat,
)
    requires
        i < blobs.len(),
        merkle_root(blobs) matches Some(root) && accepts(root, blob, proof, i),
        proof.len() == ceil_log2(blobs.len()),
        forall|k: int| 0 <= k < proof.len() ==> (#[trigger] proof[k]).len() == DIGEST_LEN,
    ensures
        (blob == blobs[i as int] && proof == proof_of(tree_of(blobs), i)) || collision_exists(),
{
    lemma_round_trip(blobs, i);
    lemma_tree_commits(blobs);
    lemma_proof_elements(tree_of(blobs).unwrap(), i);
    let given = proof_of(tree_of(blobs), i);
    if blob != blobs[i as int] || proof != given {
        lemma_tamper_evident(merkle_root(blobs).unwrap(), blobs[i as int], given, blob, proof, i);
    }
}

/// Two replays of one proof at two positions that arrive at one digest
/// started from the same digest, unless the hash function has a collision.
pub proof fn lemma_replay_start(
    start1: Seq<u8>,
    start2: Seq<u8>,
    proof: Seq<Seq<u8>>,
    i: nat,
    j: nat,
)
    requires
        start1.len() == DIGEST_LEN,
        start2.len() == DIGEST_LEN,
        forall|k: int| 0 <= k < proof.len() ==> (#[trigger] proof[k]).len() == DIGEST_LEN,
        replay(start1, proof, i) == replay(start2, proof, j),
    ensures
        start1 == start2 || collision_exists(),
    decreases proof.len(),
{
    if collision_exists() {
    } else if proof.len() > 0 {
        let s = proof.last();
        lemma_replay_start(combine(start1, s, i), combine(start2, s, j), proof.drop_last(), i / 2, j / 2);
        lemma_join_sides(start1, start2, s, i, j);
    }
}

/// Where one sibling joined to two digests, each on the side its position
/// gives, hashes to one digest, the two digests are the same, and on
/// different sides they are the sibling too; unless the hash function has
/// a collision.
pub proof fn lemma_join_sides(start1: Seq<u8>, start2: Seq<u8>, sibling: Seq<u8>, i: nat, j: nat)
    requires
        start1.len() == DIGEST_LEN,
        start2.len() == DIGEST_LEN,
        sibling.len() == DIGEST_LEN,
        combine(start1, sibling, i) == combine(start2, sibling, j),
    ensures
        collision_exists() || (start1 == start2 && (i % 2 != j % 2 ==> sibling == start1)),
{
    if !collision_exists() {
        if i % 2 == 0 && j % 2 == 0 {
            assert(!is_collision(start1 + sibling, start2 + sibling));
            lemma_split_join(start1, sibling, start2, sibling);
        } else if i % 2 == 0 {
            assert(!is_collision(start1 + sibling, sibling + start2));
            lemma_split_join(start1, sibling, sibling, start2);
        } else if j % 2 == 0 {
            assert(!is_collision(sibling + start1, start2 + sibling));
            lemma_split_join(sibling, start1, start2, sibling);
        } else {
            assert(!is_collision(sibling + start1, sibling + start2));
            lemma_split_join(sibling, start1, sibling, start2);
        }
    }
}

/// The digest that a replay has reached when `level` elements of `proof`
/// are consumed.
pub open spec fn reached(start: Seq<u8>, proof: Seq<Seq<u8>>, index: nat, level: nat) -> Seq<u8> {
    replay(start, proof.subrange(proof.len() - level, proof.len() as int), index)
}

/// Where two replays of one proof from one digest arrive at one digest
/// and their positions turn to different sides at `level`, the sibling at
/// that level is the digest reached there; unless the hash function has a
/// collision.
pub proof fn lemma_replay_turn(
    start: Seq<u8>,
    proof: Seq<Seq<u8>>,
    i: nat,
    j: nat,
    level: nat,
)
    requires
        start.len() == DIGEST_LEN,
        forall|k: int| 0 <= k < proof.len() ==> (#[trigger] proof[k]).len() == DIGEST_LEN,
        replay(start, proof, i) == replay(start, proof, j),
        level < proof.len(),
        goes_right(i, level) != goes_right(j, level),
    ensures
        collision_exists() || proof[proof.len() - 1 - level] == reached(start, proof, i, level),
    decreases level,
{
    if !collision_exists() {
        let s = proof.last();
        let rest = proof.drop_last();
        let next1 = combine(start, s, i);
        let next2 = combine(start, s, j);
        lemma_replay_start(next1, next2, rest, i / 2, j / 2);
        if level == 0 {
            lemma_join_sides(start, start, s, i, j);
            assert(proof.subrange(proof.len() - 0, proof.len() as int) =~= Seq::<Seq<u8>>::empty());
        } else {
            let below = (level - 1) as nat;
            lemma_halve_shift(i, below);
            lemma_halve_shift(j, below);
            lemma_replay_turn(next1, rest, i / 2, j / 2, below);
            let part = proof.subrange(proof.len() - level, proof.len() as int);
            assert(part.last() == s);
            assert(part.drop_last() =~= rest.subrange(rest.len() - below, rest.len() as int));
        }
    }
}

/// Tamper detection, position: where a blob with its proof is accepted at
/// one position, it is not accepted at another whose path turns the other
/// way at some level at which the sibling is not the digest reached
/// there, unless the hash function has a collision. The elements of the
/// proof are digests. (Where the sibling is the digest reached, a padded
/// node or equal content on both sides, the two sides give one parent.)
pub proof fn lemma_wrong_index_rejected(
    root: Seq<u8>,
    blob: Seq<u8>,
    proof: Seq<Seq<u8>>,
    index: nat,
    other: nat,
    level: nat,
)
    requires
        accepts(root, blob, proof, index),
        forall|k: int| 0 <= k < proof.len() ==> (#[trigger] proof[k]).len() == DIGEST_LEN,
        level < proof.len(),
        goes_right(index, level) != goes_right(other, level),
        proof[proof.len() - 1 - level] != reached(digest(blob), proof, index, level),
    ensures
        !accepts(root, blob, proof, other) || collision_exists(),
{
    if accepts(root, blob, proof, other) {
        lemma_replay_turn(digest(blob), proof, index, other, level);
    }
}

/// The depth of a built tree is the ceiling of the binary logarithm of
/// the number of leaves: the least `d` with `n <= 2^d`.
pub proof fn lemma_ceil_log2_bounds(n: nat)
    requires
        n >= 1,
    ensures
        n <= pow2(ceil_log2(n)),
        n >= 2 ==> pow2((ceil_log2(n) - 1) as nat) < n,
    decreases n,
{
    if n == 1 {
        lemma2_to64();
    } else {
        let half = (n + 1) / 2;
        lemma_ceil_log2_bounds(half);
        lemma_pow2_unfold(ceil_log2(n));
        if half >= 2 {
            lemma_pow2_unfold(ceil_log2(half));
        } else {
            lemma2_to64();
        }
    }
}

} // verus!
