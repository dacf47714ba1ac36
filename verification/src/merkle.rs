//! The hash tree in memory: building it from blobs, reading its depth and
//! root digest, deriving an inclusion proof, and replaying a proof.

use vstd::prelude::*;
use crate::digest::{bytes_equal, digest, hash_leaf, hash_pair};
use crate::laws::{lemma_node_round_trip, lemma_proof_len};
use crate::levels::{lemma_ceil_log2_le, lemma_tree_commits};
use crate::model::{
    accepts, ceil_log2, collapsed, depth_of, fold_nodes, goes_right, halve, join, leaves_of,
    merkle_root, proof_of, replay, root_of, tree_of, NodeModel,
};

verus! {

/// The byte strings that a sequence of byte vectors holds.
pub open spec fn byte_strings(items: Seq<Vec<u8>>) -> Seq<Seq<u8>> {
    Seq::new(items.len(), |i: int| items[i]@)
}

/// An inclusion proof: sibling digests, the one next to the root first.
#[derive(Clone, Debug)]
pub struct Proof {
    hashes: Vec<Vec<u8>>,
}

impl View for Proof {
    type V = Seq<Seq<u8>>;

    closed spec fn view(&self) -> Seq<Seq<u8>> {
        byte_strings(self.hashes@)
    }
}

/// One vertex of the tree. It owns its two children, or has none.
#[derive(Debug)]
pub struct MerkleNode {
    left: Option<Box<MerkleNode>>,
    right: Option<Box<MerkleNode>>,
    hash: Vec<u8>,
}

impl MerkleNode {
    /// The tree below this node as a value. A node with one child only
    /// counts as a leaf.
    pub closed spec fn model(self) -> NodeModel
        decreases self,
    {
        match self.left {
            Some(l) => match self.right {
                Some(r) => NodeModel::Inner {
                    digest: self.hash@,
                    left: Box::new(l.model()),
                    right: Box::new(r.model()),
                },
                None => NodeModel::Leaf { digest: self.hash@ },
            },
            None => NodeModel::Leaf { digest: self.hash@ },
        }
    }
}

impl View for MerkleNode {
    type V = NodeModel;

    closed spec fn view(&self) -> NodeModel {
        self.model()
    }
}

/// The models of a level of nodes, in order.
pub open spec fn level_models(nodes: Seq<MerkleNode>) -> Seq<NodeModel> {
    Seq::new(nodes.len(), |j: int| nodes[j]@)
}

impl MerkleNode {
    /// A leaf for one blob.
    fn leaf(data: &[u8]) -> (node: MerkleNode)
        ensures
            node@ == (NodeModel::Leaf { digest: digest(data@) }),
    {
        MerkleNode { left: None, right: None, hash: hash_leaf(data) }
    }

    /// The parent of `left` and `right`.
    fn parent(left: MerkleNode, right: MerkleNode) -> (node: MerkleNode)
        ensures
            node@ == join(left@, right@),
    {
        let hash = hash_pair(left.hash.as_slice(), right.hash.as_slice());
        MerkleNode { left: Some(Box::new(left)), right: Some(Box::new(right)), hash }
    }

    /// A copy of the whole subtree.
    fn duplicate(&self) -> (copy: MerkleNode)
        ensures
            copy@ == self@,
        decreases self,
    {
        let left = match &self.left {
            Some(child) => Some(Box::new(child.duplicate())),
            None => None,
        };
        let right = match &self.right {
            Some(child) => Some(Box::new(child.duplicate())),
            None => None,
        };
        let hash = self.hash.clone();
        assert(hash@ =~= self.hash@);
        MerkleNode { left, right, hash }
    }

    /// Edges from this node down to its leaves.
    fn depth(&self) -> (d: usize)
        requires
            self@.height() <= usize::MAX,
        ensures
            d == self@.height(),
        decreases self,
    {
        match &self.left {
            Some(l) => match &self.right {
                Some(r) => {
                    let a = l.depth();
                    let b = r.depth();
                    1 + if a >= b { a } else { b }
                },
                None => 0,
            },
            None => 0,
        }
    }
}

/// The level above `nodes`: consecutive pairs under a parent each, a
/// trailing unpaired node under a parent with a copy of itself.
fn collapse(nodes: &Vec<MerkleNode>) -> (next: Vec<MerkleNode>)
    ensures
        level_models(next@) == collapsed(level_models(nodes@)),
{
    let len = nodes.len();
    let pairs = len / 2;
    let mut next: Vec<MerkleNode> = Vec::new();
    let mut q: usize = 0;
    while q < pairs
        invariant
            len == nodes.len(),
            pairs == len / 2,
            q <= pairs,
            next.len() == q,
            forall|p: int| 0 <= p < q ==> (#[trigger] next[p])@ == join(nodes[2 * p]@, nodes[2 * p + 1]@),
        decreases pairs - q,
    {
        let left = nodes[2 * q].duplicate();
        let right = nodes[2 * q + 1].duplicate();
        next.push(MerkleNode::parent(left, right));
        q += 1;
    }
    if len % 2 == 1 {
        let left = nodes[len - 1].duplicate();
        let right = nodes[len - 1].duplicate();
        next.push(MerkleNode::parent(left, right));
    }
    proof {
        assert(level_models(next@) =~= collapsed(level_models(nodes@)));
    }
    next
}

/// The hash tree over an ordered set of blobs; empty when built from none.
pub struct MerkleTree {
    root: Option<Box<MerkleNode>>,
}

impl View for MerkleTree {
    type V = Option<NodeModel>;

    closed spec fn view(&self) -> Option<NodeModel> {
        match self.root {
            Some(node) => Some(node@),
            None => None,
        }
    }
}

impl MerkleTree {
    #[verifier::type_invariant]
    spec fn sound(self) -> bool {
        match self.root {
            Some(node) => node@.well_formed() && node@.height() <= usize::MAX,
            None => true,
        }
    }

    /// Builds the tree over `data`, whose order gives each blob its
    /// position; no blobs give the empty tree. The tree, and so its root
    /// digest and depth, is a function of the blobs and their order alone.
    pub fn new(data: Vec<Vec<u8>>) -> (tree: MerkleTree)
        ensures
            tree@ == tree_of(byte_strings(data@)),
            root_of(tree@) == merkle_root(byte_strings(data@)),
            depth_of(tree@) == ceil_log2(data.len() as nat),
    {
        let ghost blobs = byte_strings(data@);
        let n = data.len();
        let mut nodes: Vec<MerkleNode> = Vec::new();
        let mut i: usize = 0;
        while i < n
            invariant
                n == data.len(),
                i <= n,
                nodes.len() == i,
                blobs == byte_strings(data@),
                forall|j: int| 0 <= j < i ==> (#[trigger] nodes[j])@ == leaves_of(blobs)[j],
            decreases n - i,
        {
            nodes.push(MerkleNode::leaf(data[i].as_slice()));
            i += 1;
        }
        assert(level_models(nodes@) =~= leaves_of(blobs));
        while nodes.len() > 1
            invariant
                n == blobs.len(),
                n == 0 ==> nodes.len() == 0,
                n > 0 ==> nodes.len() > 0,
                fold_nodes(level_models(nodes@)) == fold_nodes(leaves_of(blobs)),
            decreases nodes.len(),
        {
            nodes = collapse(&nodes);
        }
        proof {
            if n > 0 {
                lemma_tree_commits(blobs);
                lemma_ceil_log2_le(n as nat);
                assert(level_models(nodes@)[0] == nodes[0]@);
            }
        }
        let root = match nodes.pop() {
            Some(node) => Some(Box::new(node)),
            None => None,
        };
        MerkleTree { root }
    }

    /// The number of edges from the root to any leaf; 0 for a tree of one
    /// leaf and for the empty tree.
    pub fn depth(&self) -> (d: usize)
        ensures
            d == depth_of(self@),
    {
        proof {
            use_type_invariant(self);
        }
        match &self.root {
            Some(node) => node.depth(),
            None => 0,
        }
    }

    /// The digest at the root, or none for the empty tree.
    pub fn root_hash(&self) -> (hash: Option<&Vec<u8>>)
        ensures
            match hash {
                Some(h) => root_of(self@) == Some(h@),
                None => root_of(self@).is_none(),
            },
    {
        match &self.root {
            Some(node) => Some(&node.hash),
            None => None,
        }
    }

    /// The inclusion proof for the leaf at position `index` of a tree
    /// that is not empty: the digest of the sibling at every step down
    /// from the root, the step next to the root first. The path is read
    /// from the low `depth` bits of `index`. The proof is as long as the
    /// tree is deep, and replays from the leaf at `index` to the root
    /// digest.
    pub fn get_proof(&self, index: usize) -> (proof: Vec<Vec<u8>>)
        requires
            self@ is Some,
        ensures
            byte_strings(proof@) == proof_of(self@, index as nat),
            proof.len() == depth_of(self@),
            replay(self@->0.leaf_at(index as nat), byte_strings(proof@), index as nat)
                == self@->0.digest(),
    {
        proof {
            use_type_invariant(self);
        }
        let mut proof: Vec<Vec<u8>> = Vec::new();
        match &self.root {
            None => unreached(),
            Some(root) => {
                let depth = root.depth();
                let turns = path_bits(index, depth);
                let mut node: &MerkleNode = root;
                let mut level: usize = depth;
                assert(byte_strings(proof@) + node@.proof_at(index as nat) =~= root@.proof_at(
                    index as nat,
                ));
                while level > 0
                    invariant
                        turns.len() == depth,
                        level <= depth,
                        forall|k: int| 0 <= k < depth ==> turns[k] == goes_right(index as nat, k as nat),
                        node@.well_formed(),
                        node@.height() == level,
                        byte_strings(proof@) + node@.proof_at(index as nat) == root@.proof_at(
                            index as nat,
                        ),
                    decreases level,
                {
                    level -= 1;
                    let ghost before = byte_strings(proof@);
                    match (&node.left, &node.right) {
                        (Some(l), Some(r)) => {
                            assert(node@ == join(l@, r@));
                            if turns[level] {
                                let sibling = l.hash.clone();
                                proof.push(sibling);
                                assert(byte_strings(proof@) + r@.proof_at(index as nat) =~= before
                                    + node@.proof_at(index as nat));
                                node = r;
                            } else {
                                let sibling = r.hash.clone();
                                proof.push(sibling);
                                assert(byte_strings(proof@) + l@.proof_at(index as nat) =~= before
                                    + node@.proof_at(index as nat));
                                node = l;
                            }
                        },
                        _ => {
                            assert(false);
                        },
                    }
                }
                proof {
                    assert(node@.proof_at(index as nat) =~= Seq::<Seq<u8>>::empty());
                    assert(byte_strings(proof@) =~= root@.proof_at(index as nat));
                    lemma_proof_len(root@, index as nat);
                    lemma_node_round_trip(root@, index as nat);
                }
                proof
            },
        }
    }
}

/// The turns of the path to position `index` in a tree `depth` deep, read
/// from the low `depth` bits of `index`: element `k` says whether the
/// ancestor `k` levels above the leaf is a right child.
pub fn path_bits(index: usize, depth: usize) -> (turns: Vec<bool>)
    ensures
        turns.len() == depth,
        forall|k: int| 0 <= k < depth ==> turns[k] == goes_right(index as nat, k as nat),
{
    let mut turns: Vec<bool> = Vec::new();
    let mut rest: usize = index;
    let mut k: usize = 0;
    while k < depth
        invariant
            k <= depth,
            turns.len() == k,
            rest == halve(index as nat, k as nat),
            forall|j: int| 0 <= j < k ==> turns[j] == goes_right(index as nat, j as nat),
        decreases depth - k,
    {
        turns.push(rest % 2 == 1);
        rest = rest / 2;
        k += 1;
    }
    turns
}

/// The two inputs of a parent's hash in order: at an even position
/// `current` is the left child and comes first, at an odd one `sibling`.
pub fn sides<'a>(current: &'a [u8], sibling: &'a [u8], index: usize) -> (pair: (&'a [u8], &'a [u8]))
    ensures
        index % 2 == 0 ==> pair.0@ == current@ && pair.1@ == sibling@,
        index % 2 == 1 ==> pair.0@ == sibling@ && pair.1@ == current@,
{
    if index % 2 == 0 {
        (current, sibling)
    } else {
        (sibling, current)
    }
}

/// Replays `proof` from `data` at position `index` and says whether it
/// arrives at `root_hash`: the sibling next to the leaf is the last element
/// of `proof`, and at every step the parity of the position says on which
/// side the sibling goes before the position is halved.
pub fn verify_proof(root_hash: &[u8], data: &[u8], proof: &[Vec<u8>], index: usize) -> (ok: bool)
    ensures
        ok == accepts(root_hash@, data@, byte_strings(proof@), index as nat),
{
    let mut current_hash = hash_leaf(data);
    let mut current_index: usize = index;
    let mut k: usize = proof.len();
    let ghost all = byte_strings(proof@);
    assert(all.take(k as int) =~= all);
    while k > 0
        invariant
            k <= proof.len(),
            all == byte_strings(proof@),
            replay(current_hash@, all.take(k as int), current_index as nat) == replay(
                digest(data@),
                all,
                index as nat,
            ),
        decreases k,
    {
        let ghost upto = all.take(k as int);
        k -= 1;
        let sibling = &proof[k];
        proof {
            assert(upto.last() == sibling@);
            assert(upto.drop_last() =~= all.take(k as int));
        }
        let (left, right) = sides(current_hash.as_slice(), sibling.as_slice(), current_index);
        let parent = hash_pair(left, right);
        current_hash = parent;
        current_index = current_index / 2;
    }
    bytes_equal(current_hash.as_slice(), root_hash)
}

} // verus!
