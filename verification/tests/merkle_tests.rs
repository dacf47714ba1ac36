use merkle_store::digest::{bytes_equal, hash_leaf, hash_pair};
use merkle_store::merkle::{path_bits, sides, verify_proof, MerkleTree};

fn h(data: &[u8]) -> Vec<u8> {
    blake3::hash(data).as_bytes().to_vec()
}

fn h2(left: &[u8], right: &[u8]) -> Vec<u8> {
    let mut joined = left.to_vec();
    joined.extend_from_slice(right);
    h(&joined)
}

fn blobs(n: usize) -> Vec<Vec<u8>> {
    (0..n).map(|i| format!("blob number {}", i).into_bytes()).collect()
}

fn hex(bytes: &[u8]) -> String {
    bytes.iter().map(|b| format!("{:02x}", b)).collect()
}

#[test]
fn leaf_hash_of_empty_input_is_the_known_digest() {
    assert_eq!(
        hex(&hash_leaf(b"")),
        "af1349b9f5f9a1a6a0404dea36dcc9499bcb25c9adc112b7cc9a93cae41f3262"
    );
}

#[test]
fn leaf_hash_is_the_hash_of_the_blob() {
    assert_eq!(hash_leaf(b"a"), h(b"a"));
    assert_eq!(hash_leaf(b"a").len(), 32);
    assert_ne!(hash_leaf(b"a"), b"a".to_vec());
    assert_ne!(hash_leaf(b"a"), hash_leaf(b"b"));
}

#[test]
fn pair_hash_is_the_hash_of_left_then_right() {
    let a = h(b"a");
    let b = h(b"b");
    assert_eq!(hash_pair(&a, &b), h2(&a, &b));
    assert_ne!(hash_pair(&a, &b), hash_pair(&b, &a));
    assert_ne!(hash_pair(&a, &b), a);
    assert_eq!(hash_pair(b"foo", b"bar"), h(b"foobar"));
    assert_eq!(hash_pair(b"", b""), h(b""));
}

#[test]
fn bytes_equal_compares_content() {
    assert!(bytes_equal(b"", b""));
    assert!(bytes_equal(b"abc", b"abc"));
    assert!(!bytes_equal(b"abc", b"abd"));
    assert!(!bytes_equal(b"abc", b"ab"));
    assert!(!bytes_equal(b"", b"a"));
}

#[test]
fn two_blobs_commit_and_prove() {
    let tree = MerkleTree::new(vec![b"a".to_vec(), b"b".to_vec()]);
    let root = tree.root_hash().unwrap().clone();
    assert_eq!(root, h2(&h(b"a"), &h(b"b")));
    assert_eq!(tree.depth(), 1);
    assert_eq!(tree.get_proof(0), vec![h(b"b")]);
    assert_eq!(tree.get_proof(1), vec![h(b"a")]);
    assert!(verify_proof(&root, b"a", &[h(b"b")], 0));
    assert!(verify_proof(&root, b"b", &[h(b"a")], 1));
}

#[test]
fn three_blobs_pad_the_odd_one() {
    let tree = MerkleTree::new(vec![b"a".to_vec(), b"b".to_vec(), b"c".to_vec()]);
    let parent1 = h2(&h(b"a"), &h(b"b"));
    let parent2 = h2(&h(b"c"), &h(b"c"));
    let root = tree.root_hash().unwrap().clone();
    assert_eq!(root, h2(&parent1, &parent2));
    assert_eq!(tree.depth(), 2);
    let proof = tree.get_proof(2);
    assert_eq!(proof, vec![parent1.clone(), h(b"c")]);
    assert!(verify_proof(&root, b"c", &proof, 2));
    assert_eq!(tree.get_proof(0), vec![parent2.clone(), h(b"b")]);
    assert_eq!(tree.get_proof(1), vec![parent2, h(b"a")]);
    assert!(!verify_proof(&root, b"c", &[h(b"c"), parent1], 2));
}

#[test]
fn single_blob_is_its_own_root() {
    let tree = MerkleTree::new(vec![b"a".to_vec()]);
    let root = tree.root_hash().unwrap().clone();
    assert_eq!(root, h(b"a"));
    assert_eq!(tree.depth(), 0);
    assert_eq!(tree.get_proof(0), Vec::<Vec<u8>>::new());
    assert!(verify_proof(&root, b"a", &[], 0));
    assert!(!verify_proof(&root, b"b", &[], 0));
}

#[test]
fn wrong_index_is_rejected() {
    let tree = MerkleTree::new(vec![b"a".to_vec(), b"b".to_vec()]);
    let root = tree.root_hash().unwrap().clone();
    let proof = tree.get_proof(0);
    assert!(verify_proof(&root, b"a", &proof, 0));
    assert!(!verify_proof(&root, b"a", &proof, 1));
}

#[test]
fn empty_input_gives_the_empty_tree() {
    let tree = MerkleTree::new(Vec::new());
    assert!(tree.root_hash().is_none());
    assert_eq!(tree.depth(), 0);
}

#[test]
fn building_twice_gives_one_root() {
    for n in 1..12 {
        let first = MerkleTree::new(blobs(n));
        let second = MerkleTree::new(blobs(n));
        assert_eq!(first.root_hash(), second.root_hash());
        assert_eq!(first.depth(), second.depth());
    }
}

#[test]
fn swapping_two_blobs_changes_the_root() {
    for n in 2..10 {
        for i in 0..n {
            for j in (i + 1)..n {
                let plain = blobs(n);
                let mut swapped = blobs(n);
                swapped.swap(i, j);
                let a = MerkleTree::new(plain);
                let b = MerkleTree::new(swapped);
                assert_ne!(a.root_hash(), b.root_hash());
            }
        }
    }
}

#[test]
fn every_position_round_trips() {
    for n in 1..20 {
        let data = blobs(n);
        let tree = MerkleTree::new(data.clone());
        let root = tree.root_hash().unwrap().clone();
        for i in 0..n {
            let proof = tree.get_proof(i);
            assert_eq!(proof.len(), tree.depth());
            assert!(verify_proof(&root, &data[i], &proof, i));
        }
    }
}

#[test]
fn depth_is_the_ceiling_of_the_binary_logarithm() {
    let expected = [0usize, 0, 1, 2, 2, 3, 3, 3, 3, 4, 4, 4, 4, 4, 4, 4, 4, 5];
    for n in 0..expected.len() {
        let tree = MerkleTree::new(blobs(n));
        assert_eq!(tree.depth(), expected[n], "leaf count {}", n);
    }
    assert_eq!(MerkleTree::new(blobs(100)).depth(), 7);
}

#[test]
fn five_blobs_collapse_level_by_level() {
    let data = blobs(5);
    let l: Vec<Vec<u8>> = data.iter().map(|d| h(d)).collect();
    let ab = h2(&l[0], &l[1]);
    let cd = h2(&l[2], &l[3]);
    let ee = h2(&l[4], &l[4]);
    let abcd = h2(&ab, &cd);
    let eeee = h2(&ee, &ee);
    let root = h2(&abcd, &eeee);
    let tree = MerkleTree::new(data);
    assert_eq!(tree.root_hash().unwrap(), &root);
    assert_eq!(tree.get_proof(4), vec![abcd.clone(), ee.clone(), l[4].clone()]);
    assert_eq!(tree.get_proof(3), vec![eeee.clone(), ab.clone(), l[2].clone()]);
    assert_eq!(tree.get_proof(0), vec![eeee, cd, l[1].clone()]);
}

#[test]
fn a_changed_blob_is_rejected() {
    let data = blobs(6);
    let tree = MerkleTree::new(data.clone());
    let root = tree.root_hash().unwrap().clone();
    for i in 0..6 {
        let proof = tree.get_proof(i);
        let mut blob = data[i].clone();
        blob[0] ^= 1;
        assert!(!verify_proof(&root, &blob, &proof, i));
    }
}

#[test]
fn a_changed_proof_element_is_rejected() {
    let data = blobs(6);
    let tree = MerkleTree::new(data.clone());
    let root = tree.root_hash().unwrap().clone();
    for i in 0..6 {
        let proof = tree.get_proof(i);
        for k in 0..proof.len() {
            for bit in [0u8, 3, 7] {
                let mut bad = proof.clone();
                bad[k][5] ^= 1 << bit;
                assert!(!verify_proof(&root, &data[i], &bad, i));
            }
        }
        let mut reordered = proof.clone();
        reordered.reverse();
        assert!(!verify_proof(&root, &data[i], &reordered, i));
        assert!(!verify_proof(&root, &data[i], &proof[1..], i));
    }
}

#[test]
fn a_changed_root_is_rejected() {
    let data = blobs(4);
    let tree = MerkleTree::new(data.clone());
    let mut root = tree.root_hash().unwrap().clone();
    let proof = tree.get_proof(1);
    assert!(verify_proof(&root, &data[1], &proof, 1));
    root[31] ^= 0x80;
    assert!(!verify_proof(&root, &data[1], &proof, 1));
    assert!(!verify_proof(&root[..31], &data[1], &proof, 1));
}

#[test]
fn another_position_is_rejected_where_the_paths_part() {
    let data = blobs(8);
    let tree = MerkleTree::new(data.clone());
    let root = tree.root_hash().unwrap().clone();
    for i in 0..8 {
        let proof = tree.get_proof(i);
        for j in 0..8 {
            assert_eq!(verify_proof(&root, &data[i], &proof, j), i == j);
        }
    }
}

#[test]
fn a_padding_position_shares_the_proof_of_the_padded_leaf() {
    let tree = MerkleTree::new(vec![b"a".to_vec(), b"b".to_vec(), b"c".to_vec()]);
    let root = tree.root_hash().unwrap().clone();
    let proof = tree.get_proof(2);
    assert_eq!(tree.get_proof(3), proof);
    assert!(verify_proof(&root, b"c", &proof, 3));
}

#[test]
fn only_the_low_bits_of_a_position_are_read() {
    let data = blobs(4);
    let tree = MerkleTree::new(data.clone());
    let root = tree.root_hash().unwrap().clone();
    assert_eq!(tree.get_proof(4 + 1), tree.get_proof(1));
    assert!(verify_proof(&root, &data[1], &tree.get_proof(1), 4 + 1));
}

#[test]
fn equal_blobs_side_by_side_swap_positions() {
    let tree = MerkleTree::new(vec![b"x".to_vec(), b"x".to_vec()]);
    let root = tree.root_hash().unwrap().clone();
    assert_eq!(root, h2(&h(b"x"), &h(b"x")));
    assert!(verify_proof(&root, b"x", &tree.get_proof(0), 1));
}

#[test]
fn sides_put_the_left_child_first() {
    let cur = [1u8, 2];
    let sib = [3u8];
    assert_eq!(sides(&cur, &sib, 0), (&cur[..], &sib[..]));
    assert_eq!(sides(&cur, &sib, 1), (&sib[..], &cur[..]));
    assert_eq!(sides(&cur, &sib, 6), (&cur[..], &sib[..]));
    assert_eq!(sides(&cur, &sib, usize::MAX), (&sib[..], &cur[..]));
}

#[test]
fn path_bits_read_the_low_bits_from_the_leaf_up() {
    assert_eq!(path_bits(0, 0), Vec::<bool>::new());
    assert_eq!(path_bits(5, 0), Vec::<bool>::new());
    assert_eq!(path_bits(6, 3), vec![false, true, true]);
    assert_eq!(path_bits(1, 3), vec![true, false, false]);
    assert_eq!(path_bits(13, 2), vec![true, false]);
    assert_eq!(path_bits(2, 5), vec![false, true, false, false, false]);
}

#[test]
fn verification_replays_from_the_leaf_up() {
    let leaf = h(b"payload");
    let top = h(b"top");
    let mid = h(b"mid");
    let low = h(b"low");
    // position 5 = 101b: right child, then left child, then right child
    let first_step = h2(&low, &leaf);
    let second_step = h2(&first_step, &mid);
    let root = h2(&top, &second_step);
    assert!(verify_proof(&root, b"payload", &[top.clone(), mid.clone(), low.clone()], 5));
    assert!(!verify_proof(&root, b"payload", &[top.clone(), mid.clone(), low.clone()], 4));
    assert!(!verify_proof(&root, b"payload", &[low, mid, top], 5));
}
