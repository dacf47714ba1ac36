//! The mathematical side of the tree: what a commitment, an inclusion proof
//! and a proof replay are, over sequences of bytes.

use vstd::prelude::*;
use crate::digest::{digest, DIGEST_LEN};

verus! {

/// A hash tree as a value: a leaf with its digest, or a parent with its
/// digest and two subtrees.
pub enum NodeModel {
    Leaf { digest: Seq<u8> },
    Inner { digest: Seq<u8>, left: Box<NodeModel>, right: Box<NodeModel> },
}

/// `index` halved `times` times, rounding down: the position of the ancestor
/// `times` levels above leaf `index` within its own level.
pub open spec fn halve(index: nat, times: nat) -> nat
    decreases times,
{
    if times == 0 {
        index
    } else {
        halve(index, (times - 1) as nat) / 2
    }
}

/// Whether the ancestor `level` levels above leaf `index` is a right child.
pub open spec fn goes_right(index: nat, level: nat) -> bool {
    halve(index, level) % 2 == 1
}

/// The number of collapsing steps that take `n` nodes down to one:
/// the ceiling of the binary logarithm of `n`, and 0 for `n` below 2.
pub open spec fn ceil_log2(n: nat) -> nat
    decreases n,
{
    if n <= 1 {
        0
    } else {
        1 + ceil_log2((n + 1) / 2)
    }
}

/// The digest of a parent whose children carry `left` and `right`.
pub open spec fn parent_digest(left: Seq<u8>, right: Seq<u8>) -> Seq<u8> {
    digest(left + right)
}

/// The leaf digests of a sequence of blobs, in order.
pub open spec fn leaf_level(blobs: Seq<Seq<u8>>) -> Seq<Seq<u8>> {
    Seq::new(blobs.len(), |i: int| digest(blobs[i]))
}

/// The level above `level`: consecutive pairs hashed together, a trailing
/// unpaired digest hashed with itself.
pub open spec fn parent_level(level: Seq<Seq<u8>>) -> Seq<Seq<u8>> {
    Seq::new(
        ((level.len() + 1) / 2) as nat,
        |q: int|
            if 2 * q + 1 < level.len() {
                parent_digest(level[2 * q], level[2 * q + 1])
            } else {
                parent_digest(level[2 * q], level[2 * q])
            },
    )
}

/// The single digest that a non-empty level collapses to.
pub open spec fn fold_levels(level: Seq<Seq<u8>>) -> Seq<u8>
    decreases level.len(),
{
    if level.len() <= 1 {
        level[0]
    } else {
        fold_levels(parent_level(level))
    }
}

/// The root digest that commits to `blobs` in this order; none for no blobs.
pub open spec fn merkle_root(blobs: Seq<Seq<u8>>) -> Option<Seq<u8>> {
    if blobs.len() == 0 {
        None
    } else {
        Some(fold_levels(leaf_level(blobs)))
    }
}

/// One step of a replay: `current` joined with `sibling` on the side that
/// the parity of `index` gives, and hashed.
pub open spec fn combine(current: Seq<u8>, sibling: Seq<u8>, index: nat) -> Seq<u8> {
    if index % 2 == 0 {
        parent_digest(current, sibling)
    } else {
        parent_digest(sibling, current)
    }
}

/// The digest reached from `current` at position `index` by consuming
/// `proof` from its last element (next to the leaf) to its first (next to
/// the root).
pub open spec fn replay(current: Seq<u8>, proof: Seq<Seq<u8>>, index: nat) -> Seq<u8>
    decreases proof.len(),
{
    if proof.len() == 0 {
        current
    } else {
        replay(combine(current, proof.last(), index), proof.drop_last(), index / 2)
    }
}

/// Whether `blob` at position `index` with `proof` replays to `root`.
pub open spec fn accepts(root: Seq<u8>, blob: Seq<u8>, proof: Seq<Seq<u8>>, index: nat) -> bool {
    replay(digest(blob), proof, index) == root
}

impl NodeModel {
    /// The digest this node carries.
    pub open spec fn digest(self) -> Seq<u8> {
        match self {
            NodeModel::Leaf { digest } => digest,
            NodeModel::Inner { digest, .. } => digest,
        }
    }

    /// Edges on the longest path down to a leaf.
    pub open spec fn height(self) -> nat
        decreases self,
    {
        match self {
            NodeModel::Leaf { .. } => 0,
            NodeModel::Inner { left, right, .. } => {
                let l = left.height();
                let r = right.height();
                1 + if l >= r { l } else { r }
            },
        }
    }

    /// Every leaf carries a digest of the fixed length, every parent the
    /// digest of its children's digests, and all leaves lie at one depth.
    pub open spec fn well_formed(self) -> bool
        decreases self,
    {
        match self {
            NodeModel::Leaf { digest } => digest.len() == DIGEST_LEN,
            NodeModel::Inner { digest, left, right } => {
                &&& left.well_formed()
                &&& right.well_formed()
                &&& left.height() == right.height()
                &&& digest == parent_digest(left.digest(), right.digest())
            },
        }
    }

    /// The digest of the leaf that position `index` leads to, the path read
    /// from the low `height` bits of `index`, highest first.
    pub open spec fn leaf_at(self, index: nat) -> Seq<u8>
        decreases self,
    {
        match self {
            NodeModel::Leaf { digest } => digest,
            NodeModel::Inner { left, right, .. } => {
                if goes_right(index, (self.height() - 1) as nat) {
                    right.leaf_at(index)
                } else {
                    left.leaf_at(index)
                }
            },
        }
    }

    /// The inclusion proof for position `index`: at each step down the
    /// path, the digest of the child not taken, the step next to the root
    /// first.
    pub open spec fn proof_at(self, index: nat) -> Seq<Seq<u8>>
        decreases self,
    {
        match self {
            NodeModel::Leaf { .. } => Seq::empty(),
            NodeModel::Inner { left, right, .. } => {
                if goes_right(index, (self.height() - 1) as nat) {
                    seq![left.digest()] + right.proof_at(index)
                } else {
                    seq![right.digest()] + left.proof_at(index)
                }
            },
        }
    }

    /// This tree holds `blobs`: it is well formed, of the least height that
    /// holds them, carries their root digest, and has the digest of blob
    /// `i` at position `i`.
    pub open spec fn commits_to(self, blobs: Seq<Seq<u8>>) -> bool {
        &&& blobs.len() > 0
        &&& self.well_formed()
        &&& self.height() == ceil_log2(blobs.len())
        &&& Some(self.digest()) == merkle_root(blobs)
        &&& forall|i: nat| i < blobs.len() ==> #[trigger] self.leaf_at(i) == digest(blobs[i as int])
    }
}

/// The parent of two subtrees.
pub open spec fn join(left: NodeModel, right: NodeModel) -> NodeModel {
    NodeModel::Inner {
        digest: parent_digest(left.digest(), right.digest()),
        left: Box::new(left),
        right: Box::new(right),
    }
}

/// The level of parents above a level of subtrees: consecutive pairs
/// joined, a trailing unpaired subtree joined with itself.
pub open spec fn collapsed(level: Seq<NodeModel>) -> Seq<NodeModel> {
    Seq::new(
        ((level.len() + 1) / 2) as nat,
        |q: int|
            if 2 * q + 1 < level.len() {
                join(level[2 * q], level[2 * q + 1])
            } else {
                join(level[2 * q], level[2 * q])
            },
    )
}

/// The level of leaves for `blobs`.
pub open spec fn leaves_of(blobs: Seq<Seq<u8>>) -> Seq<NodeModel> {
    Seq::new(blobs.len(), |i: int| NodeModel::Leaf { digest: digest(blobs[i]) })
}

/// The single tree that a non-empty level of subtrees collapses to.
pub open spec fn fold_nodes(level: Seq<NodeModel>) -> NodeModel
    decreases level.len(),
{
    if level.len() <= 1 {
        level[0]
    } else {
        fold_nodes(collapsed(level))
    }
}

/// The tree over `blobs` in this order; none for no blobs.
pub open spec fn tree_of(blobs: Seq<Seq<u8>>) -> Option<NodeModel> {
    if blobs.len() == 0 {
        None
    } else {
        Some(fold_nodes(leaves_of(blobs)))
    }
}

/// Edges from the root of a tree down to its leaves; 0 for the empty tree.
pub open spec fn depth_of(tree: Option<NodeModel>) -> nat {
    match tree {
        Some(node) => node.height(),
        None => 0,
    }
}

/// The digest at the root of a tree; none for the empty tree.
pub open spec fn root_of(tree: Option<NodeModel>) -> Option<Seq<u8>> {
    match tree {
        Some(node) => Some(node.digest()),
        None => None,
    }
}

/// The inclusion proof that a tree gives for a position; empty for the
/// empty tree.
pub open spec fn proof_of(tree: Option<NodeModel>, index: nat) -> Seq<Seq<u8>> {
    match tree {
        Some(node) => node.proof_at(index),
        None => Seq::empty(),
    }
}

} // verus!
