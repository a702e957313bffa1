use merkle_roll::node::{empty_node, hash_pair, recompute, Node};
use merkle_roll::roll::{CMTError, MerkleRoll};

const DEPTH: usize = 14;
const BUFFER_SIZE: usize = 64;
/// The depth of the tests that write every slot several times: at depth 14
/// their hashing outlasts the per-test time limit of an unoptimized build.
const SMALL_DEPTH: usize = 10;

struct Rng(u64);

impl Rng {
    fn new(seed: u64) -> Rng {
        Rng(seed | 1)
    }

    fn next_u64(&mut self) -> u64 {
        let mut x = self.0;
        x ^= x << 13;
        x ^= x >> 7;
        x ^= x << 17;
        self.0 = x;
        x
    }

    fn gen_leaf(&mut self) -> Node {
        let mut n = [0u8; 32];
        for chunk in n.chunks_mut(8) {
            chunk.copy_from_slice(&self.next_u64().to_le_bytes());
        }
        n
    }

    fn gen_range(&mut self, lo: usize, hi: usize) -> usize {
        lo + (self.next_u64() as usize) % (hi - lo)
    }
}

/// A full Merkle tree kept level by level, recomputed along one path per write.
struct MerkleTree {
    depth: usize,
    levels: Vec<Vec<Node>>,
}

impl MerkleTree {
    fn new(depth: usize) -> MerkleTree {
        let mut levels = Vec::new();
        let mut node = empty_node();
        for h in 0..=depth {
            levels.push(vec![node; 1 << (depth - h)]);
            node = hash_pair(&node, &node);
        }
        MerkleTree { depth, levels }
    }

    fn add_leaf(&mut self, leaf: Node, index: usize) {
        self.levels[0][index] = leaf;
        let mut i = index;
        for h in 0..self.depth {
            let left = self.levels[h][i & !1];
            let right = self.levels[h][i | 1];
            i >>= 1;
            self.levels[h + 1][i] = hash_pair(&left, &right);
        }
    }

    fn get_root(&self) -> Node {
        self.levels[self.depth][0]
    }

    fn get_leaf(&self, index: usize) -> Node {
        self.levels[0][index]
    }

    fn get_node(&self, index: usize) -> Node {
        self.levels[0][index]
    }

    fn get_proof_of_leaf(&self, index: usize) -> Vec<Node> {
        (0..self.depth).map(|h| self.levels[h][(index >> h) ^ 1]).collect()
    }
}

fn setup() -> (MerkleRoll, MerkleTree) {
    (MerkleRoll::new(DEPTH, BUFFER_SIZE), MerkleTree::new(DEPTH))
}

fn root_of(roll: &MerkleRoll) -> Node {
    roll.get_change_log().get_root()
}

#[test]
fn test_initialize() {
    let (mut merkle_roll, off_chain_tree) = setup();
    merkle_roll.initialize().unwrap();
    assert_eq!(root_of(&merkle_roll), off_chain_tree.get_root(), "Init failed to set root properly");
}

#[test]
fn test_append() {
    let (mut merkle_roll, mut off_chain_tree) = (MerkleRoll::new(SMALL_DEPTH, BUFFER_SIZE), MerkleTree::new(SMALL_DEPTH));
    let mut rng = Rng::new(1);
    merkle_roll.initialize().unwrap();
    for i in 0..(1 << SMALL_DEPTH) {
        let leaf = rng.gen_leaf();
        merkle_roll.append(leaf).unwrap();
        off_chain_tree.add_leaf(leaf, i);
        assert_eq!(
            root_of(&merkle_roll),
            off_chain_tree.get_root(),
            "On chain tree failed to update properly on an append",
        );
    }
    assert_eq!(merkle_roll.buffer_size, BUFFER_SIZE as u64, "Merkle roll buffer size is wrong");
}

#[test]
fn append_past_capacity_is_tree_full() {
    let mut merkle_roll = MerkleRoll::new(DEPTH, BUFFER_SIZE);
    let mut rng = Rng::new(2);
    merkle_roll.initialize().unwrap();
    for _ in 0..(1 << DEPTH) {
        merkle_roll.append(rng.gen_leaf()).unwrap();
    }
    let root = root_of(&merkle_roll);
    let sequence = merkle_roll.sequence_number;
    assert_eq!(merkle_roll.append(rng.gen_leaf()), Err(CMTError::TreeFull));
    assert_eq!(root_of(&merkle_roll), root);
    assert_eq!(merkle_roll.sequence_number, sequence);
}

#[test]
fn test_append_complete_subtree() {
    let (mut merkle_roll, mut off_chain_tree) = setup();
    let mut rng = Rng::new(3);
    merkle_roll.initialize().unwrap();
    for i in 0..8 {
        let leaf = rng.gen_leaf();
        merkle_roll.append(leaf).unwrap();
        off_chain_tree.add_leaf(leaf, i);
        assert_eq!(
            root_of(&merkle_roll),
            off_chain_tree.get_root(),
            "On chain tree failed to update properly on an append",
        );
    }
    let mut onchain_subtree = MerkleRoll::new(3, 8);
    onchain_subtree.initialize().unwrap();
    for i in 8..16 {
        let leaf = rng.gen_leaf();
        onchain_subtree.append(leaf).unwrap();
        off_chain_tree.add_leaf(leaf, i);
    }
    merkle_roll
        .append_subtree_direct(
            root_of(&onchain_subtree),
            onchain_subtree.rightmost_proof.leaf,
            onchain_subtree.rightmost_proof.index - 1,
            &onchain_subtree.rightmost_proof.proof.to_vec(),
        )
        .unwrap();
    assert_eq!(
        root_of(&merkle_roll),
        off_chain_tree.get_root(),
        "On chain tree failed to update properly on an append",
    );
    let leaf = rng.gen_leaf();
    merkle_roll.append(leaf).unwrap();
    off_chain_tree.add_leaf(leaf, 16);
    assert_eq!(
        root_of(&merkle_roll),
        off_chain_tree.get_root(),
        "Failed to append accurately to merkle roll after subtree append",
    );
}

#[test]
fn test_append_incomplete_subtree() {
    let (mut merkle_roll, mut off_chain_tree) = setup();
    let mut rng = Rng::new(4);
    merkle_roll.initialize().unwrap();
    for i in 0..4 {
        let leaf = rng.gen_leaf();
        merkle_roll.append(leaf).unwrap();
        off_chain_tree.add_leaf(leaf, i);
        assert_eq!(
            root_of(&merkle_roll),
            off_chain_tree.get_root(),
            "On chain tree failed to update properly on an append",
        );
    }
    // A depth-two subtree holding two leaves: its last two slots stay empty.
    let mut onchain_subtree = MerkleRoll::new(2, 8);
    onchain_subtree.initialize().unwrap();
    for i in 4..6 {
        let leaf = rng.gen_leaf();
        onchain_subtree.append(leaf).unwrap();
        off_chain_tree.add_leaf(leaf, i);
    }
    merkle_roll
        .append_subtree_direct(
            root_of(&onchain_subtree),
            onchain_subtree.rightmost_proof.leaf,
            onchain_subtree.rightmost_proof.index - 1,
            &onchain_subtree.rightmost_proof.proof.to_vec(),
        )
        .unwrap();
    assert_eq!(
        root_of(&merkle_roll),
        off_chain_tree.get_root(),
        "On chain tree failed to update properly on an append",
    );
    // The next append lands past the whole subtree.
    assert_eq!(merkle_roll.rightmost_proof.index, 8);
    let leaf = rng.gen_leaf();
    merkle_roll.append(leaf).unwrap();
    off_chain_tree.add_leaf(leaf, 8);
    assert_eq!(
        root_of(&merkle_roll),
        off_chain_tree.get_root(),
        "Failed to append accurately to merkle roll after subtree append",
    );
    // The empty slots inside the subtree can still be written.
    let leaf = rng.gen_leaf();
    merkle_roll
        .set_leaf(off_chain_tree.get_root(), empty_node(), leaf, &off_chain_tree.get_proof_of_leaf(6), 6)
        .unwrap();
    off_chain_tree.add_leaf(leaf, 6);
    assert_eq!(root_of(&merkle_roll), off_chain_tree.get_root());
}

#[test]
fn test_append_subtree_to_empty_tree() {
    let (mut merkle_roll, mut off_chain_tree) = setup();
    let mut rng = Rng::new(5);
    merkle_roll.initialize().unwrap();
    let mut onchain_subtree = MerkleRoll::new(2, 8);
    onchain_subtree.initialize().unwrap();
    for i in 0..4 {
        let leaf = rng.gen_leaf();
        onchain_subtree.append(leaf).unwrap();
        off_chain_tree.add_leaf(leaf, i);
    }
    merkle_roll
        .append_subtree_direct(
            root_of(&onchain_subtree),
            onchain_subtree.rightmost_proof.leaf,
            onchain_subtree.rightmost_proof.index - 1,
            &onchain_subtree.rightmost_proof.proof.to_vec(),
        )
        .unwrap();
    assert_eq!(
        root_of(&merkle_roll),
        off_chain_tree.get_root(),
        "On chain tree failed to update properly on an append",
    );
    let leaf = rng.gen_leaf();
    merkle_roll.append(leaf).unwrap();
    off_chain_tree.add_leaf(leaf, 4);
    assert_eq!(
        root_of(&merkle_roll),
        off_chain_tree.get_root(),
        "Failed to append accurately to merkle roll after subtree append",
    );
}

#[test]
fn test_append_complete_subtree_tightly_packed_depth_three() {
    let (mut merkle_roll, mut off_chain_tree) = setup();
    let mut rng = Rng::new(6);
    merkle_roll.initialize().unwrap();
    for i in 0..1 {
        let leaf = rng.gen_leaf();
        merkle_roll.append(leaf).unwrap();
        off_chain_tree.add_leaf(leaf, i);
        assert_eq!(
            root_of(&merkle_roll),
            off_chain_tree.get_root(),
            "Large tree failed to update properly on an append",
        );
    }
    let mut small_off_chain_tree = MerkleTree::new(3);
    let mut leaves_in_small_tree = vec![];
    for i in 0..8 {
        let leaf = rng.gen_leaf();
        small_off_chain_tree.add_leaf(leaf, i);
        leaves_in_small_tree.push(leaf);
    }
    off_chain_tree.add_leaf(leaves_in_small_tree[6], 1);
    off_chain_tree.add_leaf(leaves_in_small_tree[4], 2);
    off_chain_tree.add_leaf(leaves_in_small_tree[5], 3);
    off_chain_tree.add_leaf(leaves_in_small_tree[0], 4);
    off_chain_tree.add_leaf(leaves_in_small_tree[1], 5);
    off_chain_tree.add_leaf(leaves_in_small_tree[2], 6);
    off_chain_tree.add_leaf(leaves_in_small_tree[3], 7);
    off_chain_tree.add_leaf(leaves_in_small_tree[7], 8);
    let subtree_proofs: Vec<Vec<Node>> = vec![
        vec![],
        vec![],
        vec![small_off_chain_tree.get_node(4)],
        vec![small_off_chain_tree.get_node(2), small_off_chain_tree.get_proof_of_leaf(3)[1]],
    ];
    let subtree_rmls: Vec<Node> = vec![
        small_off_chain_tree.get_node(7),
        small_off_chain_tree.get_node(6),
        small_off_chain_tree.get_node(5),
        small_off_chain_tree.get_node(3),
    ];
    let subtree_roots: Vec<Node> = vec![
        small_off_chain_tree.get_node(7),
        small_off_chain_tree.get_node(6),
        small_off_chain_tree.get_proof_of_leaf(7)[1],
        small_off_chain_tree.get_proof_of_leaf(7)[2],
    ];
    merkle_roll.append_subtree_packed(&subtree_proofs, &subtree_rmls, &subtree_roots).unwrap();
    assert_eq!(
        root_of(&merkle_roll),
        off_chain_tree.get_root(),
        "On chain tree failed to update properly on an append",
    );
    assert_eq!(merkle_roll.rightmost_proof.index, 9, "On chain append was not tightly packed");
    let leaf = rng.gen_leaf();
    merkle_roll.append(leaf).unwrap();
    off_chain_tree.add_leaf(leaf, 9);
    assert_eq!(
        root_of(&merkle_roll),
        off_chain_tree.get_root(),
        "Failed to append accurately to merkle roll after subtree append",
    );
}

#[test]
fn test_append_complete_subtree_tightly_packed_depth_one() {
    let (mut merkle_roll, mut off_chain_tree) = setup();
    let mut rng = Rng::new(7);
    merkle_roll.initialize().unwrap();
    for i in 0..1 {
        let leaf = rng.gen_leaf();
        merkle_roll.append(leaf).unwrap();
        off_chain_tree.add_leaf(leaf, i);
        assert_eq!(
            root_of(&merkle_roll),
            off_chain_tree.get_root(),
            "Large tree failed to update properly on an append",
        );
    }
    let mut small_off_chain_tree = MerkleTree::new(1);
    let mut leaves_in_small_tree = vec![];
    for i in 0..2 {
        let leaf = rng.gen_leaf();
        small_off_chain_tree.add_leaf(leaf, i);
        leaves_in_small_tree.push(leaf);
    }
    off_chain_tree.add_leaf(leaves_in_small_tree[1], 1);
    off_chain_tree.add_leaf(leaves_in_small_tree[0], 2);
    let subtree_proofs: Vec<Vec<Node>> = vec![vec![], vec![]];
    let subtree_rmls: Vec<Node> = vec![small_off_chain_tree.get_node(0), small_off_chain_tree.get_node(1)];
    let subtree_roots: Vec<Node> = vec![small_off_chain_tree.get_node(0), small_off_chain_tree.get_node(1)];
    merkle_roll.append_subtree_packed(&subtree_proofs, &subtree_rmls, &subtree_roots).unwrap();
    assert_eq!(merkle_roll.rightmost_proof.index, 3, "On chain append was not tightly packed");
    assert_eq!(
        root_of(&merkle_roll),
        off_chain_tree.get_root(),
        "On chain tree failed to update properly on an append",
    );
    let leaf = rng.gen_leaf();
    merkle_roll.append(leaf).unwrap();
    off_chain_tree.add_leaf(leaf, 3);
    assert_eq!(
        root_of(&merkle_roll),
        off_chain_tree.get_root(),
        "Failed to append accurately to merkle roll after subtree append",
    );
}

#[test]
fn test_prove_leaf() {
    let (mut merkle_roll, mut off_chain_tree) = (MerkleRoll::new(SMALL_DEPTH, BUFFER_SIZE), MerkleTree::new(SMALL_DEPTH));
    let mut rng = Rng::new(8);
    merkle_roll.initialize().unwrap();
    for i in 0..(1 << SMALL_DEPTH) {
        let leaf = rng.gen_leaf();
        merkle_roll.append(leaf).unwrap();
        off_chain_tree.add_leaf(leaf, i);
    }
    for leaf_index in 0..(1 << SMALL_DEPTH) {
        merkle_roll
            .prove_leaf(
                off_chain_tree.get_root(),
                off_chain_tree.get_leaf(leaf_index),
                &off_chain_tree.get_proof_of_leaf(leaf_index),
                leaf_index as u32,
            )
            .unwrap();
    }
    // Test that old proofs can be verified, up to BUFFER_SIZE old.
    let num_leaves_to_try = 10;
    for _ in 0..num_leaves_to_try {
        let leaf_idx = rng.gen_range(0, 1 << SMALL_DEPTH);
        let root = off_chain_tree.get_root();
        let leaf = off_chain_tree.get_leaf(leaf_idx);
        let old_proof = off_chain_tree.get_proof_of_leaf(leaf_idx);
        for _ in 0..BUFFER_SIZE {
            let new_leaf = rng.gen_leaf();
            let mut random_leaf_idx = rng.gen_range(0, 1 << SMALL_DEPTH);
            while random_leaf_idx == leaf_idx {
                random_leaf_idx = rng.gen_range(0, 1 << SMALL_DEPTH);
            }
            merkle_roll
                .set_leaf(
                    off_chain_tree.get_root(),
                    off_chain_tree.get_leaf(random_leaf_idx),
                    new_leaf,
                    &off_chain_tree.get_proof_of_leaf(random_leaf_idx),
                    random_leaf_idx as u32,
                )
                .unwrap();
            off_chain_tree.add_leaf(new_leaf, random_leaf_idx);
            merkle_roll.prove_leaf(root, leaf, &old_proof, leaf_idx as u32).unwrap();
        }
    }
}

#[test]
fn test_initialize_with_root() {
    let (mut merkle_roll, mut tree) = setup();
    let mut rng = Rng::new(9);
    for i in 0..(1 << DEPTH) {
        tree.add_leaf(rng.gen_leaf(), i);
    }
    let last_leaf_idx = (1 << DEPTH) - 1;
    merkle_roll
        .initialize_with_root(
            tree.get_root(),
            tree.get_leaf(last_leaf_idx),
            &tree.get_proof_of_leaf(last_leaf_idx),
            (last_leaf_idx + 1) as u32,
        )
        .unwrap();
    assert_eq!(root_of(&merkle_roll), tree.get_root(), "Init failed to set root properly");
}

#[test]
fn initialize_with_root_then_prove_every_leaf() {
    let (mut merkle_roll, mut tree) = (MerkleRoll::new(SMALL_DEPTH, BUFFER_SIZE), MerkleTree::new(SMALL_DEPTH));
    let mut rng = Rng::new(10);
    for i in 0..(1 << SMALL_DEPTH) {
        tree.add_leaf(rng.gen_leaf(), i);
    }
    let last = (1 << SMALL_DEPTH) - 1;
    merkle_roll
        .initialize_with_root(tree.get_root(), tree.get_leaf(last), &tree.get_proof_of_leaf(last), (last + 1) as u32)
        .unwrap();
    for i in 0..(1 << SMALL_DEPTH) {
        merkle_roll.prove_leaf(tree.get_root(), tree.get_leaf(i), &tree.get_proof_of_leaf(i), i as u32).unwrap();
    }
}

#[test]
fn initialize_with_root_rejects_bad_input() {
    let mut tree = MerkleTree::new(4);
    let mut rng = Rng::new(11);
    for i in 0..5 {
        tree.add_leaf(rng.gen_leaf(), i);
    }
    let mut roll = MerkleRoll::new(4, 8);
    let proof = tree.get_proof_of_leaf(4);
    assert_eq!(roll.initialize_with_root(tree.get_root(), tree.get_leaf(3), &proof, 5), Err(CMTError::InvalidProof));
    assert_eq!(roll.initialize_with_root(tree.get_root(), tree.get_leaf(4), &proof[..3].to_vec(), 5), Err(CMTError::InvalidProof));
    assert_eq!(roll.initialize_with_root(tree.get_root(), tree.get_leaf(4), &proof, 0), Err(CMTError::IndexOutOfBounds));
    assert_eq!(roll.initialize_with_root(tree.get_root(), tree.get_leaf(4), &proof, 17), Err(CMTError::IndexOutOfBounds));
    assert_eq!(roll.initialize_with_root(tree.get_root(), tree.get_leaf(4), &proof, 5), Ok(tree.get_root()));
    assert_eq!(roll.rightmost_proof.index, 5);
    assert_eq!(roll.initialize_with_root(tree.get_root(), tree.get_leaf(4), &proof, 5), Err(CMTError::TreeAlreadyInitialized));
    let leaf = rng.gen_leaf();
    roll.append(leaf).unwrap();
    tree.add_leaf(leaf, 5);
    assert_eq!(root_of(&roll), tree.get_root());
}

#[test]
fn initialize_twice_is_refused() {
    let mut roll = MerkleRoll::new(3, 4);
    roll.initialize().unwrap();
    assert_eq!(roll.initialize(), Err(CMTError::TreeAlreadyInitialized));
    assert_eq!(roll.buffer_size, 1);
    assert_eq!(roll.sequence_number, 0);
}

#[test]
fn test_leaf_contents_modified() {
    let (mut merkle_roll, mut tree) = setup();
    let mut rng = Rng::new(12);
    merkle_roll.initialize().unwrap();
    let leaf = rng.gen_leaf();
    tree.add_leaf(leaf, 0);
    merkle_roll.append(leaf).unwrap();
    let root = tree.get_root();
    let proof = tree.get_proof_of_leaf(0);
    let new_leaf_0 = rng.gen_leaf();
    tree.add_leaf(leaf, 0);
    merkle_roll.set_leaf(root, leaf, new_leaf_0, &proof, 0 as u32).unwrap();
    let new_leaf_1 = rng.gen_leaf();
    tree.add_leaf(leaf, 0);
    match merkle_roll.set_leaf(root, leaf, new_leaf_1, &proof, 0 as u32) {
        Ok(_) => {
            assert!(false, "Merkle roll should fail when replacing leafs with outdated leaf proofs")
        }
        Err(e) => match e {
            CMTError::LeafContentsModified => {}
            _ => {
                assert!(false, "Wrong error was thrown: {:?}", e);
            }
        },
    }
}

#[test]
fn test_replaces() {
    let (mut merkle_roll, mut tree) = (MerkleRoll::new(SMALL_DEPTH, BUFFER_SIZE), MerkleTree::new(SMALL_DEPTH));
    let mut rng = Rng::new(13);
    merkle_roll.initialize().unwrap();
    for i in 0..(1 << SMALL_DEPTH) {
        let leaf = rng.gen_leaf();
        tree.add_leaf(leaf, i);
        merkle_roll.append(leaf).unwrap();
    }
    assert_eq!(root_of(&merkle_roll), tree.get_root());
    for i in 0..(1 << SMALL_DEPTH) {
        let leaf = rng.gen_leaf();
        merkle_roll.set_leaf(tree.get_root(), tree.get_leaf(i), leaf, &tree.get_proof_of_leaf(i), i as u32).unwrap();
        tree.add_leaf(leaf, i);
        assert_eq!(root_of(&merkle_roll), tree.get_root());
    }
    let test_capacity: usize = 4 * (1 << SMALL_DEPTH);
    for _ in 0..test_capacity {
        let index = rng.gen_range(0, test_capacity) % (1 << SMALL_DEPTH);
        let leaf = rng.gen_leaf();
        merkle_roll
            .set_leaf(tree.get_root(), tree.get_leaf(index), leaf, &tree.get_proof_of_leaf(index), index as u32)
            .unwrap();
        tree.add_leaf(leaf, index);
        assert_eq!(root_of(&merkle_roll), tree.get_root());
    }
}

#[test]
fn test_default_node_is_empty() {
    assert_eq!(Node::default(), empty_node(), "Expected default() to be the empty node");
}

#[test]
fn test_mixed() {
    let (mut merkle_roll, mut tree) = (MerkleRoll::new(SMALL_DEPTH, BUFFER_SIZE), MerkleTree::new(SMALL_DEPTH));
    let mut rng = Rng::new(14);
    merkle_roll.initialize().unwrap();
    let mut tree_size = 10;
    for i in 0..tree_size {
        let leaf = rng.gen_leaf();
        tree.add_leaf(leaf, i);
        merkle_roll.append(leaf).unwrap();
    }
    assert_eq!(root_of(&merkle_roll), tree.get_root());
    let tree_capacity: usize = 1 << SMALL_DEPTH;
    while tree_size < tree_capacity {
        let leaf = rng.gen_leaf();
        let random_num = rng.gen_range(0, 10);
        if random_num < 5 {
            merkle_roll.append(leaf).unwrap();
            tree.add_leaf(leaf, tree_size);
            tree_size += 1;
        } else {
            let index = rng.gen_range(0, tree_size) % tree_size;
            merkle_roll
                .set_leaf(tree.get_root(), tree.get_leaf(index), leaf, &tree.get_proof_of_leaf(index), index as u32)
                .unwrap();
            tree.add_leaf(leaf, index);
        }
        assert_eq!(root_of(&merkle_roll), tree.get_root());
    }
}

#[test]
fn test_append_bug_repro_1() {
    let (mut merkle_roll, mut tree) = setup();
    let mut rng = Rng::new(15);
    merkle_roll.initialize().unwrap();
    let mut tree_size = 10;
    for i in 0..tree_size {
        let leaf = rng.gen_leaf();
        tree.add_leaf(leaf, i);
        merkle_roll.append(leaf).unwrap();
    }
    assert_eq!(root_of(&merkle_roll), tree.get_root());
    let leaf_0 = rng.gen_leaf();
    let index = 9;
    merkle_roll.set_leaf(tree.get_root(), tree.get_leaf(index), leaf_0, &tree.get_proof_of_leaf(index), index as u32).unwrap();
    tree.add_leaf(leaf_0, index);
    let leaf_1 = rng.gen_leaf();
    merkle_roll.append(leaf_1).unwrap();
    tree.add_leaf(leaf_1, tree_size);
    tree_size += 1;
    assert_eq!(tree_size, 11);
    assert_eq!(root_of(&merkle_roll), tree.get_root());
}

#[test]
fn test_append_bug_repro_2() {
    let (mut merkle_roll, mut tree) = setup();
    let mut rng = Rng::new(16);
    merkle_roll.initialize().unwrap();
    let mut tree_size = 10;
    for i in 0..tree_size {
        let leaf = rng.gen_leaf();
        tree.add_leaf(leaf, i);
        merkle_roll.append(leaf).unwrap();
    }
    assert_eq!(root_of(&merkle_roll), tree.get_root());
    let mut leaf = rng.gen_leaf();
    let index = 10;
    merkle_roll.set_leaf(tree.get_root(), tree.get_leaf(index), leaf, &tree.get_proof_of_leaf(index), index as u32).unwrap();
    tree.add_leaf(leaf, index);
    tree_size += 1;
    leaf = rng.gen_leaf();
    merkle_roll.append(leaf).unwrap();
    tree.add_leaf(leaf, tree_size);
    assert_eq!(root_of(&merkle_roll), tree.get_root());
}

#[test]
fn stale_proof_accepted_up_to_buffer_size_writes() {
    let (mut merkle_roll, mut tree) = setup();
    let mut rng = Rng::new(17);
    merkle_roll.initialize().unwrap();
    for i in 0..10 {
        let leaf = rng.gen_leaf();
        tree.add_leaf(leaf, i);
        merkle_roll.append(leaf).unwrap();
    }
    let saved_root = tree.get_root();
    let leaf_0 = tree.get_leaf(0);
    let saved_proof = tree.get_proof_of_leaf(0);
    // The oldest write changes the sibling subtree at height 3; the later
    // ones stay among leaves 1..8 and never touch it again.
    for k in 0..BUFFER_SIZE {
        let index = if k == 0 { 9 } else { 1 + (k - 1) % 7 };
        let leaf = rng.gen_leaf();
        merkle_roll.set_leaf(tree.get_root(), tree.get_leaf(index), leaf, &tree.get_proof_of_leaf(index), index as u32).unwrap();
        tree.add_leaf(leaf, index);
    }
    assert_eq!(merkle_roll.prove_leaf(saved_root, leaf_0, &saved_proof, 0), Ok(()));
    let leaf = rng.gen_leaf();
    merkle_roll.set_leaf(tree.get_root(), tree.get_leaf(5), leaf, &tree.get_proof_of_leaf(5), 5).unwrap();
    assert_eq!(merkle_roll.prove_leaf(saved_root, leaf_0, &saved_proof, 0), Err(CMTError::RootNotFound));
}

#[test]
fn overwritten_leaf_is_detected() {
    let (mut merkle_roll, mut tree) = setup();
    let mut rng = Rng::new(18);
    merkle_roll.initialize().unwrap();
    let l = rng.gen_leaf();
    merkle_roll.append(l).unwrap();
    tree.add_leaf(l, 0);
    let saved_root = tree.get_root();
    let saved_proof = tree.get_proof_of_leaf(0);
    let l1 = rng.gen_leaf();
    merkle_roll.set_leaf(saved_root, l, l1, &saved_proof, 0).unwrap();
    let l2 = rng.gen_leaf();
    let before = root_of(&merkle_roll);
    assert_eq!(merkle_roll.set_leaf(saved_root, l, l2, &saved_proof, 0), Err(CMTError::LeafContentsModified));
    assert_eq!(root_of(&merkle_roll), before);
    assert_eq!(merkle_roll.prove_leaf(saved_root, l, &saved_proof, 0), Err(CMTError::LeafContentsModified));
}

#[test]
fn setting_a_leaf_to_itself_keeps_the_root() {
    let (mut merkle_roll, mut tree) = setup();
    let mut rng = Rng::new(19);
    merkle_roll.initialize().unwrap();
    for i in 0..6 {
        let leaf = rng.gen_leaf();
        tree.add_leaf(leaf, i);
        merkle_roll.append(leaf).unwrap();
    }
    let root = root_of(&merkle_roll);
    let sequence = merkle_roll.sequence_number;
    let x = tree.get_leaf(3);
    assert_eq!(merkle_roll.set_leaf(root, x, x, &tree.get_proof_of_leaf(3), 3), Ok(root));
    assert_eq!(root_of(&merkle_roll), root);
    assert_eq!(merkle_roll.sequence_number, sequence + 1);
}

#[test]
fn errors_for_bad_indices_and_proofs() {
    let (mut merkle_roll, mut tree) = setup();
    let mut rng = Rng::new(20);
    merkle_roll.initialize().unwrap();
    for i in 0..3 {
        let leaf = rng.gen_leaf();
        tree.add_leaf(leaf, i);
        merkle_roll.append(leaf).unwrap();
    }
    let root = tree.get_root();
    let proof = tree.get_proof_of_leaf(1);
    let leaf = tree.get_leaf(1);
    assert_eq!(merkle_roll.prove_leaf(root, leaf, &proof, 1 << DEPTH), Err(CMTError::IndexOutOfBounds));
    assert_eq!(merkle_roll.set_leaf(root, empty_node(), leaf, &tree.get_proof_of_leaf(5), 5), Err(CMTError::IndexOutOfBounds));
    assert_eq!(merkle_roll.prove_leaf(root, leaf, &proof[..5].to_vec(), 1), Err(CMTError::InvalidProof));
    assert_eq!(merkle_roll.prove_leaf(rng.gen_leaf(), leaf, &vec![rng.gen_leaf(); DEPTH], 1), Err(CMTError::RootNotFound));
    // Past the frontier, the proof is checked first.
    assert_eq!(merkle_roll.set_leaf(rng.gen_leaf(), empty_node(), leaf, &vec![rng.gen_leaf(); DEPTH], 5), Err(CMTError::RootNotFound));
    assert_eq!(merkle_roll.set_leaf(root, leaf, leaf, &tree.get_proof_of_leaf(5), 5), Err(CMTError::LeafContentsModified));
    assert_eq!(merkle_roll.prove_leaf(root, leaf, &proof, 1), Ok(()));
    assert_eq!(merkle_roll.prove_leaf(root, leaf, &proof, 2), Err(CMTError::LeafContentsModified));
}

#[test]
fn direct_subtree_append_errors() {
    let mut roll = MerkleRoll::new(4, 8);
    let mut rng = Rng::new(21);
    roll.initialize().unwrap();
    roll.append(rng.gen_leaf()).unwrap();
    let mut sub = MerkleTree::new(2);
    for i in 0..4 {
        sub.add_leaf(rng.gen_leaf(), i);
    }
    let p = sub.get_proof_of_leaf(3);
    assert_eq!(roll.append_subtree_direct(sub.get_root(), sub.get_leaf(3), 3, &p), Err(CMTError::Misaligned));
    assert_eq!(roll.append_subtree_direct(sub.get_root(), sub.get_leaf(3), 4, &p), Err(CMTError::IndexOutOfBounds));
    for _ in 0..3 {
        roll.append(rng.gen_leaf()).unwrap();
    }
    assert_eq!(roll.append_subtree_direct(sub.get_root(), sub.get_leaf(2), 3, &p), Err(CMTError::InvalidProof));
    let big = vec![empty_node(); 5];
    assert_eq!(roll.append_subtree_direct(sub.get_root(), sub.get_leaf(3), 3, &big), Err(CMTError::InvalidProof));
    for _ in 0..3 {
        roll.append_subtree_direct(sub.get_root(), sub.get_leaf(3), 3, &p).unwrap();
    }
    assert_eq!(roll.rightmost_proof.index, 16);
    assert_eq!(roll.append_subtree_direct(sub.get_root(), sub.get_leaf(3), 3, &p), Err(CMTError::TreeFull));
}

#[test]
fn packed_append_checks_every_piece_first() {
    let mut roll = MerkleRoll::new(4, 8);
    let mut rng = Rng::new(22);
    roll.initialize().unwrap();
    roll.append(rng.gen_leaf()).unwrap();
    let root = root_of(&roll);
    let a = rng.gen_leaf();
    let b = rng.gen_leaf();
    // The second piece goes first, at index 1; the first piece claims a wrong root.
    let r = roll.append_subtree_packed(&vec![vec![], vec![]], &vec![a, b], &vec![b, b]);
    assert_eq!(r, Err(CMTError::InvalidProof));
    assert_eq!(root_of(&roll), root);
    assert_eq!(roll.rightmost_proof.index, 1);
    assert_eq!(roll.sequence_number, 1);
    let r = roll.append_subtree_packed(&vec![vec![], vec![]], &vec![a], &vec![a, b]);
    assert_eq!(r, Err(CMTError::InvalidProof));
}

#[test]
fn recompute_follows_index_bits() {
    let a = [1u8; 32];
    let b = [2u8; 32];
    let c = [3u8; 32];
    assert_eq!(recompute(a, &vec![b, c], 0), hash_pair(&hash_pair(&a, &b), &c));
    assert_eq!(recompute(a, &vec![b, c], 1), hash_pair(&hash_pair(&b, &a), &c));
    assert_eq!(recompute(a, &vec![b, c], 2), hash_pair(&c, &hash_pair(&a, &b)));
    assert_eq!(recompute(a, &vec![b, c], 3), hash_pair(&c, &hash_pair(&b, &a)));
}

#[test]
fn hash_pair_is_keccak_of_the_concatenation() {
    let h = hash_pair(&empty_node(), &empty_node());
    let expected: [u8; 32] = [
        0xad, 0x32, 0x28, 0xb6, 0x76, 0xf7, 0xd3, 0xcd, 0x42, 0x84, 0xa5, 0x44, 0x3f, 0x17, 0xf1, 0x96,
        0x2b, 0x36, 0xe4, 0x91, 0xb3, 0x0a, 0x40, 0xb2, 0x40, 0x58, 0x49, 0xe5, 0x97, 0xba, 0x5f, 0xb5,
    ];
    assert_eq!(h, expected);
}
