use vstd::prelude::*;
use crate::node::{
    Node, compute_path, copy_nodes, empty_node, empty_roots, empty_root, empty_spec, hash_pair,
    hash_to_parent, lemma_shifted_step, node_at, nodes_equal, path_spec, recompute, recompute_spec,
    shifted, views,
};

verus! {

/// Errors that the engine reports; on each of them the roll is left unchanged.
#[derive(PartialEq, Eq, Structural, Debug, Clone, Copy)]
pub enum CMTError {
    TreeAlreadyInitialized,
    TreeFull,
    LeafContentsModified,
    RootNotFound,
    InvalidProof,
    Misaligned,
    IndexOutOfBounds,
}

/// The record of one mutation: the resulting root, the ancestors of the
/// mutated leaf from the leaf (height 0) up to the child of the root, and the
/// mutated leaf's index.
pub struct ChangeLog {
    pub root: Node,
    pub path: Vec<Node>,
    pub index: u32,
}

/// The sibling path of the last appended leaf, that leaf, and the number of
/// leaves appended so far (the slot that the next append fills).
pub struct Path {
    pub proof: Vec<Node>,
    pub leaf: Node,
    pub index: u32,
}

/// A Merkle tree of `max_depth` levels with a ring of the last
/// `max_buffer_size` change-logs.
pub struct MerkleRoll {
    pub max_depth: usize,
    pub max_buffer_size: usize,
    pub sequence_number: u64,
    pub active_index: u64,
    pub buffer_size: u64,
    pub change_logs: Vec<ChangeLog>,
    pub rightmost_proof: Path,
}

/// The deepest tree this engine holds; leaf indices then fit in `u32`.
pub const MAX_SUPPORTED_DEPTH: usize = 30;

/// The number of leaf slots of a tree of depth `depth`.
pub open spec fn leaf_count(depth: nat) -> nat
    decreases depth,
{
    if depth == 0 {
        1
    } else {
        2 * leaf_count((depth - 1) as nat)
    }
}

/// The number of halvings after which `a` and `b` agree: one more than the
/// height at which the ancestors of leaves `a` and `b` are siblings.
pub open spec fn diverge(a: nat, b: nat) -> nat
    decreases a + b,
{
    if a == b {
        0
    } else {
        1 + diverge(a / 2, b / 2)
    }
}

/// The number of trailing zero bits of `i`, for `i > 0`.
pub open spec fn trailing_zeros(i: nat) -> nat
    decreases i,
{
    if i == 0 || i % 2 == 1 {
        0
    } else {
        1 + trailing_zeros(i / 2)
    }
}

/// `proof`, a sibling path of leaf `index`, brought past the mutation `log`:
/// unless `log` changed `index` itself, the one sibling on `index`'s path that
/// it changed is taken from its path.
pub open spec fn patch(proof: Seq<Node>, log: ChangeLog, index: nat) -> Seq<Node> {
    if log.index as nat == index {
        proof
    } else {
        let k = diverge(index, log.index as nat) - 1;
        if 0 <= k < proof.len() && k < log.path@.len() {
            proof.update(k, log.path@[k])
        } else {
            proof
        }
    }
}

/// The sibling at height `h` of the slot after `i`, for the new leaf
/// appended at `i`, given the path `old_proof` of the leaf `old_leaf` at `i - 1`.
pub open spec fn appended_sibling(old_proof: Seq<Node>, old_leaf: Seq<u8>, i: nat, h: nat) -> Seq<u8> {
    if i == 0 || h < trailing_zeros(i) {
        empty_root(h)
    } else if h == trailing_zeros(i) {
        node_at(old_leaf, old_proof, (i - 1) as nat, h)
    } else {
        old_proof[h as int]@
    }
}

/// The sibling at height `h < d` of the last slot of a subtree of depth `d`
/// whose filled leaves end with `leaf` at `rightmost_index`, given that
/// leaf's sibling path `proof`: where the two paths meet it is the leaf's
/// sibling, just left of the meeting point it is the leaf's ancestor, and
/// further left it is an empty subtree.
pub open spec fn last_slot_sibling(proof: Seq<Node>, leaf: Seq<u8>, rightmost_index: nat, d: nat, h: nat) -> Seq<u8> {
    let a = shifted(rightmost_index, h);
    let b = shifted((leaf_count(d) - 1) as nat, h);
    if a == b {
        proof[h as int]@
    } else if a + 1 == b {
        node_at(leaf, proof, rightmost_index, h)
    } else {
        empty_root(h)
    }
}

pub proof fn lemma_leaf_count_mono(a: nat, b: nat)
    requires
        a <= b,
    ensures
        leaf_count(a) <= leaf_count(b),
        leaf_count(a) >= 1,
    decreases b,
{
    if a < b {
        lemma_leaf_count_mono(a, (b - 1) as nat);
    } else if a > 0 {
        lemma_leaf_count_mono((a - 1) as nat, (a - 1) as nat);
    }
}

pub proof fn lemma_leaf_count_bound(d: nat)
    requires
        d <= 30,
    ensures
        leaf_count(d) <= 0x4000_0000,
{
    lemma_leaf_count_mono(d, 30);
    reveal_with_fuel(leaf_count, 31);
}

pub proof fn lemma_diverge_bound(a: nat, b: nat, n: nat)
    requires
        a < leaf_count(n),
        b < leaf_count(n),
    ensures
        diverge(a, b) <= n,
    decreases n,
{
    if a != b && n > 0 {
        lemma_diverge_bound(a / 2, b / 2, (n - 1) as nat);
    }
}

pub proof fn lemma_trailing_zeros(i: nat, h: nat)
    requires
        i > 0,
    ensures
        h < trailing_zeros(i) ==> shifted(i, h) % 2 == 0,
        shifted(i, trailing_zeros(i)) % 2 == 1,
    decreases i,
{
    if i % 2 == 0 {
        lemma_trailing_zeros(i / 2, (h - 1) as nat);
        lemma_trailing_zeros(i / 2, 0);
        if h > 0 {
            assert(shifted(i, h) == shifted(i / 2, (h - 1) as nat));
        }
        assert(shifted(i, trailing_zeros(i)) == shifted(i / 2, trailing_zeros(i / 2)));
    }
}

pub proof fn lemma_trailing_zeros_bound(i: nat, n: nat)
    requires
        0 < i < leaf_count(n),
    ensures
        trailing_zeros(i) < n,
    decreases n,
{
    if i % 2 == 0 {
        lemma_trailing_zeros_bound(i / 2, (n - 1) as nat);
    }
}

/// `node_at` reads only the siblings below the height it is asked for.
pub proof fn lemma_node_at_prefix(leaf: Seq<u8>, p: Seq<Node>, q: Seq<Node>, index: nat, h: nat)
    requires
        h <= p.len(),
        h <= q.len(),
        forall|k: int| 0 <= k < h ==> p[k]@ == q[k]@,
    ensures
        forall|j: nat| j <= h ==> #[trigger] node_at(leaf, p, index, j) == node_at(leaf, q, index, j),
    decreases h,
{
    if h > 0 {
        lemma_node_at_prefix(leaf, p, q, index, (h - 1) as nat);
        assert(node_at(leaf, p, index, (h - 1) as nat) == node_at(leaf, q, index, (h - 1) as nat));
        assert(p[h - 1]@ == q[h - 1]@);
        assert(node_at(leaf, p, index, h) == node_at(leaf, q, index, h));
    }
}

/// The number of leaf slots of a tree of depth `depth`.
pub fn leaf_count_of(depth: usize) -> (r: u32)
    requires
        depth <= MAX_SUPPORTED_DEPTH,
    ensures
        r as nat == leaf_count(depth as nat),
{
    let mut c: u32 = 1;
    let mut h: usize = 0;
    while h < depth
        invariant
            0 <= h <= depth <= 30,
            c as nat == leaf_count(h as nat),
        decreases depth - h,
    {
        proof {
            lemma_leaf_count_bound((h + 1) as nat);
        }
        c = c * 2;
        h = h + 1;
    }
    c
}

/// The height at which the ancestors of leaves `a` and `b` are siblings.
pub fn critbit(a: u32, b: u32, depth: usize) -> (r: usize)
    requires
        a != b,
        depth <= MAX_SUPPORTED_DEPTH,
        (a as nat) < leaf_count(depth as nat),
        (b as nat) < leaf_count(depth as nat),
    ensures
        r + 1 == diverge(a as nat, b as nat),
        r < depth,
{
    proof {
        lemma_diverge_bound(a as nat, b as nat, depth as nat);
    }
    let mut x: u32 = a;
    let mut y: u32 = b;
    let mut c: usize = 0;
    while x != y
        invariant
            c + diverge(x as nat, y as nat) == diverge(a as nat, b as nat),
            diverge(a as nat, b as nat) <= depth <= 30,
        decreases x + y,
    {
        x = x / 2;
        y = y / 2;
        c = c + 1;
    }
    (c - 1) as usize
}

impl ChangeLog {
    /// The root recorded by this change-log.
    pub fn get_root(&self) -> (r: Node)
        ensures
            r == self.root,
    {
        self.root
    }
}

impl MerkleRoll {
    /// The shape that every roll keeps: the ring and every path sized by the
    /// depth, the cursor inside the ring, indices inside the tree.
    pub open spec fn wf(&self) -> bool {
        &&& 1 <= self.max_depth <= MAX_SUPPORTED_DEPTH
        &&& 1 <= self.max_buffer_size <= u32::MAX
        &&& self.change_logs@.len() == self.max_buffer_size
        &&& forall|k: int|
            0 <= k < self.max_buffer_size ==> {
                &&& (#[trigger] self.change_logs@[k]).path@.len() == self.max_depth
                &&& (self.change_logs@[k].index as nat) < leaf_count(self.max_depth as nat)
            }
        &&& self.rightmost_proof.proof@.len() == self.max_depth
        &&& self.rightmost_proof.index as nat <= leaf_count(self.max_depth as nat)
        &&& self.active_index < self.max_buffer_size
        &&& self.buffer_size <= self.max_buffer_size
        &&& self.buffer_size == 0 ==> self.sequence_number == 0
    }

    /// Whether the roll has been initialized.
    pub open spec fn is_active(&self) -> bool {
        self.buffer_size >= 1
    }

    /// The ring position of the change-log `d` steps before the newest.
    pub open spec fn slot(&self, d: nat) -> int {
        ((self.active_index + self.max_buffer_size - d % (self.max_buffer_size as nat)) as int)
            % (self.max_buffer_size as int)
    }

    /// The change-log `d` steps before the newest.
    pub open spec fn log_at(&self, d: nat) -> ChangeLog {
        self.change_logs@[self.slot(d)]
    }

    /// The current root.
    pub open spec fn current_root(&self) -> Seq<u8> {
        self.change_logs@[self.active_index as int].root@
    }

    /// The distance, counted from `d`, of the newest change-log whose root is `root`.
    pub open spec fn find_root(&self, root: Seq<u8>, d: nat) -> Option<nat>
        decreases self.buffer_size - d,
    {
        if d >= self.buffer_size {
            None
        } else if self.log_at(d).root@ == root {
            Some(d)
        } else {
            self.find_root(root, d + 1)
        }
    }

    /// `proof` brought past the `d` newest change-logs, oldest first.
    pub open spec fn fast_forward(&self, proof: Seq<Node>, index: nat, d: nat) -> Seq<Node>
        decreases d,
    {
        if d == 0 {
            proof
        } else {
            self.fast_forward(patch(proof, self.log_at((d - 1) as nat), index), index, (d - 1) as nat)
        }
    }

    /// The outcome of checking that `leaf` sits at `index`, given a proof that
    /// was valid against `root`: the fast-forwarded proof, or the error. A
    /// root still in the ring fixes how many change-logs to pass; a root just
    /// older than the ring is accepted when passing every change-log of the
    /// ring leads to the current root.
    pub open spec fn check_leaf(&self, root: Seq<u8>, leaf: Seq<u8>, proof: Seq<Node>, index: nat) -> Result<Seq<Node>, CMTError> {
        if index >= leaf_count(self.max_depth as nat) {
            Err(CMTError::IndexOutOfBounds)
        } else if proof.len() != self.max_depth {
            Err(CMTError::InvalidProof)
        } else {
            match self.find_root(root, 0) {
                None => {
                    let ff = self.fast_forward(proof, index, self.buffer_size as nat);
                    if recompute_spec(leaf, ff, index) == self.current_root() {
                        Ok(ff)
                    } else {
                        Err(CMTError::RootNotFound)
                    }
                },
                Some(d) => {
                    let ff = self.fast_forward(proof, index, d);
                    if recompute_spec(leaf, ff, index) == self.current_root() {
                        Ok(ff)
                    } else {
                        Err(CMTError::LeafContentsModified)
                    }
                }
            }
        }
    }

    /// `next` is this roll with one more change-log published, whose root,
    /// path and index are given; the rightmost proof is left to the caller.
    pub open spec fn publishes(&self, next: &Self, root: Seq<u8>, path: Seq<Seq<u8>>, index: u32) -> bool {
        &&& next.max_depth == self.max_depth
        &&& next.max_buffer_size == self.max_buffer_size
        &&& next.sequence_number == self.sequence_number + 1
        &&& next.active_index == (self.active_index + 1) % (self.max_buffer_size as int)
        &&& next.buffer_size == if self.buffer_size < self.max_buffer_size {
            self.buffer_size + 1
        } else {
            self.buffer_size as int
        }
        &&& next.change_logs@.len() == self.change_logs@.len()
        &&& forall|k: int|
            0 <= k < self.change_logs@.len() && k != next.active_index ==> next.change_logs@[k]
                == #[trigger] self.change_logs@[k]
        &&& next.current_root() == root
        &&& views(next.change_logs@[next.active_index as int].path@) == path
        &&& next.change_logs@[next.active_index as int].index == index
    }

    /// A zeroed, uninitialized roll of the given depth and ring capacity.
    pub fn new(max_depth: usize, max_buffer_size: usize) -> (r: MerkleRoll)
        requires
            1 <= max_depth <= MAX_SUPPORTED_DEPTH,
            1 <= max_buffer_size <= u32::MAX,
        ensures
            r.wf(),
            !r.is_active(),
            r.max_depth == max_depth,
            r.max_buffer_size == max_buffer_size,
            r.sequence_number == 0,
            r.active_index == 0,
            r.rightmost_proof.index == 0,
    {
        let mut change_logs: Vec<ChangeLog> = Vec::new();
        let mut k: usize = 0;
        while k < max_buffer_size
            invariant
                0 <= k <= max_buffer_size,
                1 <= max_depth <= MAX_SUPPORTED_DEPTH,
                change_logs@.len() == k,
                forall|j: int|
                    0 <= j < k ==> {
                        &&& (#[trigger] change_logs@[j]).path@.len() == max_depth
                        &&& change_logs@[j].index == 0
                    },
            decreases max_buffer_size - k,
        {
            change_logs.push(ChangeLog { root: [0u8; 32], path: vec![[0u8; 32]; max_depth], index: 0 });
            k = k + 1;
        }
        proof {
            lemma_leaf_count_mono(0, max_depth as nat);
        }
        MerkleRoll {
            max_depth,
            max_buffer_size,
            sequence_number: 0,
            active_index: 0,
            buffer_size: 0,
            change_logs,
            rightmost_proof: Path { proof: vec![[0u8; 32]; max_depth], leaf: [0u8; 32], index: 0 },
        }
    }

    /// Publishes a change-log with the given root, path and index.
    fn publish(&mut self, root: Node, path: Vec<Node>, index: u32)
        requires
            old(self).wf(),
            old(self).sequence_number < u64::MAX,
            path@.len() == old(self).max_depth,
            (index as nat) < leaf_count(old(self).max_depth as nat),
        ensures
            final(self).wf(),
            final(self).is_active(),
            old(self).publishes(&*final(self), root@, views(path@), index),
            final(self).rightmost_proof == old(self).rightmost_proof,
            final(self).change_logs@[final(self).active_index as int].path@ == path@,
    {
        let cap = self.max_buffer_size as u64;
        self.active_index = (self.active_index + 1) % cap;
        let a = self.active_index as usize;
        self.change_logs.set(a, ChangeLog { root, path, index });
        if self.buffer_size < cap {
            self.buffer_size = self.buffer_size + 1;
        }
        self.sequence_number = self.sequence_number + 1;
        assert(self.change_logs@[a as int].index == index);
    }

    /// The newest change-log.
    pub fn get_change_log(&self) -> (r: &ChangeLog)
        requires
            self.wf(),
        ensures
            *r == self.change_logs@[self.active_index as int],
    {
        &self.change_logs[self.active_index as usize]
    }

    /// What `initialize` leaves behind: `TreeAlreadyInitialized` with the roll
    /// unchanged on an active roll; else the empty tree.
    pub open spec fn initialize_post(&self, next: &Self, r: Result<Node, CMTError>) -> bool {
        &&& self.is_active() ==> r == Err::<Node, CMTError>(CMTError::TreeAlreadyInitialized)
            && *next == *self
        &&& !self.is_active() ==> {
            &&& r is Ok
            &&& r->Ok_0@ == empty_root(self.max_depth as nat)
            &&& next.is_active()
            &&& next.max_depth == self.max_depth
            &&& next.max_buffer_size == self.max_buffer_size
            &&& next.sequence_number == 0
            &&& next.active_index == 0
            &&& next.buffer_size == 1
            &&& next.current_root() == empty_root(self.max_depth as nat)
            &&& views(next.change_logs@[0].path@) == Seq::new(
                self.max_depth as nat,
                |h: int| empty_root(h as nat),
            )
            &&& next.change_logs@[0].index == 0
            &&& next.rightmost_proof.index == 0
            &&& next.rightmost_proof.leaf@ == empty_spec()
            &&& views(next.rightmost_proof.proof@) == Seq::new(
                self.max_depth as nat,
                |h: int| empty_root(h as nat),
            )
        }
    }

    /// Activates a zeroed roll as the empty tree: the first change-log holds
    /// the empty root and the path of empty-subtree roots, and the rightmost
    /// proof is made of empty-subtree roots.
    pub fn initialize(&mut self) -> (r: Result<Node, CMTError>)
        requires
            old(self).wf(),
        ensures
            final(self).wf(),
            old(self).initialize_post(&*final(self), r),
    {
        if self.buffer_size != 0 || self.sequence_number != 0 {
            return Err(CMTError::TreeAlreadyInitialized);
        }
        let depth = self.max_depth;
        let path = empty_roots(depth);
        let proof = empty_roots(depth);
        let root = crate::node::empty_subtree_root(depth);
        assert(views(path@) =~= Seq::new(depth as nat, |h: int| empty_root(h as nat)));
        assert(views(proof@) =~= Seq::new(depth as nat, |h: int| empty_root(h as nat)));
        self.change_logs.set(0, ChangeLog { root, path, index: 0 });
        self.sequence_number = 0;
        self.active_index = 0;
        self.buffer_size = 1;
        self.rightmost_proof = Path { proof, leaf: empty_node(), index: 0 };
        proof {
            lemma_leaf_count_mono(0, depth as nat);
        }
        Ok(root)
    }

    /// What `initialize_with_root` leaves behind: an error with the roll
    /// unchanged, or a roll whose first change-log is the path of
    /// `rightmost_leaf` at `index - 1` under `root`.
    pub open spec fn initialize_with_root_post(&self, next: &Self, root: Node, rightmost_leaf: Node, proof: Seq<Node>, index: u32, r: Result<Node, CMTError>) -> bool {
        &&& r is Err ==> *next == *self
        &&& self.is_active() ==> r == Err::<Node, CMTError>(CMTError::TreeAlreadyInitialized)
        &&& !self.is_active() && proof.len() != self.max_depth ==> r == Err::<Node, CMTError>(CMTError::InvalidProof)
        &&& !self.is_active() && proof.len() == self.max_depth && (index == 0 || index as nat > leaf_count(self.max_depth as nat))
            ==> r == Err::<Node, CMTError>(CMTError::IndexOutOfBounds)
        &&& !self.is_active() && proof.len() == self.max_depth && 0 < index && index as nat <= leaf_count(self.max_depth as nat)
            ==> if recompute_spec(rightmost_leaf@, proof, (index - 1) as nat) == root@ {
                &&& r == Ok::<Node, CMTError>(root)
                &&& next.is_active()
                &&& next.max_depth == self.max_depth
                &&& next.max_buffer_size == self.max_buffer_size
                &&& next.sequence_number == 0
                &&& next.active_index == 0
                &&& next.buffer_size == 1
                &&& next.current_root() == root@
                &&& views(next.change_logs@[0].path@) == path_spec(rightmost_leaf@, proof, (index - 1) as nat)
                &&& next.change_logs@[0].index == index - 1
                &&& next.rightmost_proof.index == index
                &&& next.rightmost_proof.leaf == rightmost_leaf
                &&& next.rightmost_proof.proof@ == proof
            } else {
                r == Err::<Node, CMTError>(CMTError::InvalidProof)
            }
    }

    /// Activates a zeroed roll over a tree whose first `index` slots are
    /// filled, given its root, its last leaf and that leaf's sibling path.
    pub fn initialize_with_root(&mut self, root: Node, rightmost_leaf: Node, proof: &Vec<Node>, index: u32) -> (r: Result<Node, CMTError>)
        requires
            old(self).wf(),
        ensures
            final(self).wf(),
            old(self).initialize_with_root_post(&*final(self), root, rightmost_leaf, proof@, index, r),
    {
        if self.buffer_size != 0 || self.sequence_number != 0 {
            return Err(CMTError::TreeAlreadyInitialized);
        }
        if proof.len() != self.max_depth {
            return Err(CMTError::InvalidProof);
        }
        let count = leaf_count_of(self.max_depth);
        if index == 0 || index > count {
            return Err(CMTError::IndexOutOfBounds);
        }
        let (path, implied) = compute_path(rightmost_leaf, proof, index - 1);
        if !nodes_equal(&implied, &root) {
            return Err(CMTError::InvalidProof);
        }
        self.change_logs.set(0, ChangeLog { root, path, index: index - 1 });
        self.active_index = 0;
        self.buffer_size = 1;
        self.rightmost_proof = Path { proof: copy_nodes(proof), leaf: rightmost_leaf, index };
        Ok(root)
    }

    /// What `append` leaves behind: `TreeFull` with the roll unchanged when
    /// every slot is taken; else a change-log for `leaf` at the frontier over
    /// the new rightmost proof, whose siblings are `appended_sibling`.
    pub open spec fn append_post(&self, next: &Self, leaf: Node, r: Result<Node, CMTError>) -> bool {
        &&& self.rightmost_proof.index as nat == leaf_count(self.max_depth as nat)
            ==> r == Err::<Node, CMTError>(CMTError::TreeFull) && *next == *self
        &&& (self.rightmost_proof.index as nat) < leaf_count(self.max_depth as nat) ==> {
            let i = self.rightmost_proof.index;
            let p = next.rightmost_proof.proof@;
            &&& r is Ok
            &&& r->Ok_0@ == recompute_spec(leaf@, p, i as nat)
            &&& self.publishes(next, r->Ok_0@, path_spec(leaf@, p, i as nat), i)
            &&& p.len() == self.max_depth
            &&& forall|h: int| 0 <= h < self.max_depth ==> #[trigger] p[h]@ == appended_sibling(
                self.rightmost_proof.proof@,
                self.rightmost_proof.leaf@,
                i as nat,
                h as nat,
            )
            &&& next.rightmost_proof.leaf == leaf
            &&& next.rightmost_proof.index == i + 1
        }
    }

    /// Appends `leaf` at the next free slot and returns the new root.
    pub fn append(&mut self, leaf: Node) -> (r: Result<Node, CMTError>)
        requires
            old(self).wf(),
            old(self).is_active(),
            old(self).sequence_number < u64::MAX,
        ensures
            final(self).wf(),
            old(self).append_post(&*final(self), leaf, r),
    {
        let count = leaf_count_of(self.max_depth);
        let i = self.rightmost_proof.index;
        if i == count {
            return Err(CMTError::TreeFull);
        }
        let depth = self.max_depth;
        let mut empty = empty_node();
        let ghost old_proof = self.rightmost_proof.proof@;
        let ghost old_leaf = self.rightmost_proof.leaf@;
        let mut proof = copy_nodes(&self.rightmost_proof.proof);
        let mut node = leaf;
        let mut inter = self.rightmost_proof.leaf;
        let mut idx_n: u32 = i;
        let mut idx_p: u32 = if i > 0 { i - 1 } else { 0 };
        let mut found = false;
        let mut path: Vec<Node> = Vec::new();
        let mut h: usize = 0;
        proof {
            if i > 0 {
                lemma_trailing_zeros_bound(i as nat, depth as nat);
            }
        }
        while h < depth
            invariant
                0 <= h <= depth,
                depth == self.max_depth,
                !found ==> empty@ == empty_root(h as nat),
                old_proof.len() == depth,
                proof@.len() == depth,
                path@.len() == h,
                i > 0 ==> trailing_zeros(i as nat) < depth,
                idx_n as nat == shifted(i as nat, h as nat),
                i > 0 ==> idx_p as nat == shifted((i - 1) as nat, h as nat),
                found <==> (i > 0 && trailing_zeros(i as nat) < h),
                (i > 0 && !found) ==> inter@ == node_at(old_leaf, old_proof, (i - 1) as nat, h as nat),
                node@ == node_at(leaf@, proof@, i as nat, h as nat),
                forall|k: int| 0 <= k < h ==> #[trigger] path@[k]@ == node_at(leaf@, proof@, i as nat, k as nat),
                forall|k: int| 0 <= k < h ==> #[trigger] proof@[k]@ == appended_sibling(old_proof, old_leaf, i as nat, k as nat),
                forall|k: int| h <= k < depth ==> #[trigger] proof@[k] == old_proof[k],
            decreases depth - h,
        {
            proof {
                lemma_shifted_step(i as nat, h as nat);
                if i > 0 {
                    lemma_shifted_step((i - 1) as nat, h as nat);
                    lemma_trailing_zeros(i as nat, h as nat);
                }
            }
            let ghost before = proof@;
            path.push(node);
            if !found && idx_n % 2 == 0 {
                let sibling = empty;
                inter = hash_to_parent(&inter, &proof[h], idx_p % 2 == 0);
                node = hash_pair(&node, &sibling);
                proof.set(h, sibling);
                empty = hash_pair(&empty, &empty);
            } else if !found {
                node = hash_pair(&inter, &node);
                proof.set(h, inter);
                found = true;
            } else {
                node = hash_to_parent(&node, &proof[h], idx_n % 2 == 0);
            }
            proof {
                lemma_node_at_prefix(leaf@, before, proof@, i as nat, h as nat);
                lemma_node_at_prefix(leaf@, proof@, before, i as nat, h as nat);
            }
            idx_n = idx_n / 2;
            idx_p = idx_p / 2;
            h = h + 1;
        }
        let ghost gpath = path@;
        assert(views(path@) =~= path_spec(leaf@, proof@, i as nat));
        self.publish(node, path, i);
        self.rightmost_proof.proof = proof;
        self.rightmost_proof.leaf = leaf;
        self.rightmost_proof.index = i + 1;
        Ok(node)
    }

    /// The distance from the newest change-log of the newest one whose root is `root`.
    fn find_root_distance(&self, root: &Node) -> (r: Option<u64>)
        requires
            self.wf(),
        ensures
            r matches Some(x) ==> x < self.buffer_size && self.find_root(root@, 0) == Some(x as nat),
            r is None ==> self.find_root(root@, 0) is None,
    {
        let cap = self.max_buffer_size as u64;
        let mut d: u64 = 0;
        while d < self.buffer_size
            invariant
                self.wf(),
                cap == self.max_buffer_size,
                0 <= d <= self.buffer_size,
                self.find_root(root@, 0) == self.find_root(root@, d as nat),
            decreases self.buffer_size - d,
        {
            let s = ((self.active_index + cap - d) % cap) as usize;
            assert(d as nat % (cap as nat) == d as nat) by {
                vstd::arithmetic::div_mod::lemma_small_mod(d as nat, cap as nat);
            }
            assert(s == self.slot(d as nat));
            if nodes_equal(&self.change_logs[s].root, root) {
                return Some(d);
            }
            d = d + 1;
        }
        None
    }

    /// Brings `proof`, a sibling path of `index`, past the `d` newest change-logs.
    fn fast_forward_proof(&self, proof: &mut Vec<Node>, index: u32, d: u64)
        requires
            self.wf(),
            d <= self.buffer_size,
            old(proof)@.len() == self.max_depth,
            (index as nat) < leaf_count(self.max_depth as nat),
        ensures
            final(proof)@ == self.fast_forward(old(proof)@, index as nat, d as nat),
            final(proof)@.len() == self.max_depth,
    {
        let ghost target = self.fast_forward(proof@, index as nat, d as nat);
        let cap = self.max_buffer_size as u64;
        let mut k: u64 = d;
        while k > 0
            invariant
                self.wf(),
                cap == self.max_buffer_size,
                k <= d <= self.buffer_size,
                proof@.len() == self.max_depth,
                (index as nat) < leaf_count(self.max_depth as nat),
                self.fast_forward(proof@, index as nat, k as nat) == target,
            decreases k,
        {
            let e = k - 1;
            let s = ((self.active_index + cap - e) % cap) as usize;
            assert(e as nat % (cap as nat) == e as nat) by {
                vstd::arithmetic::div_mod::lemma_small_mod(e as nat, cap as nat);
            }
            assert(s == self.slot(e as nat));
            let log = &self.change_logs[s];
            if log.index != index {
                let c = critbit(index, log.index, self.max_depth);
                let n = log.path[c];
                proof.set(c, n);
            }
            k = e;
        }
    }

    /// Checks `leaf` at `index` against a proof that was valid at `root` and
    /// returns the proof brought up to date.
    fn check_proof(&self, root: &Node, leaf: &Node, proof: &Vec<Node>, index: u32) -> (r: Result<Vec<Node>, CMTError>)
        requires
            self.wf(),
        ensures
            match self.check_leaf(root@, leaf@, proof@, index as nat) {
                Ok(ff) => r is Ok && r->Ok_0@ == ff,
                Err(e) => r == Err::<Vec<Node>, CMTError>(e),
            },
            r is Ok ==> r->Ok_0@.len() == self.max_depth,
    {
        let count = leaf_count_of(self.max_depth);
        if index >= count {
            return Err(CMTError::IndexOutOfBounds);
        }
        if proof.len() != self.max_depth {
            return Err(CMTError::InvalidProof);
        }
        match self.find_root_distance(root) {
            None => {
                let mut ff = copy_nodes(proof);
                self.fast_forward_proof(&mut ff, index, self.buffer_size);
                let implied = recompute(*leaf, &ff, index);
                if nodes_equal(&implied, &self.change_logs[self.active_index as usize].root) {
                    Ok(ff)
                } else {
                    Err(CMTError::RootNotFound)
                }
            },
            Some(d) => {
                let mut ff = copy_nodes(proof);
                self.fast_forward_proof(&mut ff, index, d);
                let implied = recompute(*leaf, &ff, index);
                if nodes_equal(&implied, &self.change_logs[self.active_index as usize].root) {
                    Ok(ff)
                } else {
                    Err(CMTError::LeafContentsModified)
                }
            }
        }
    }

    /// Succeeds when `leaf` sits at `index` in the current tree, given a sibling
    /// path that was valid against `root`, a root still held in the ring.
    pub fn prove_leaf(&self, root: Node, leaf: Node, proof: &Vec<Node>, index: u32) -> (r: Result<(), CMTError>)
        requires
            self.wf(),
        ensures
            r == match self.check_leaf(root@, leaf@, proof@, index as nat) {
                Ok(_) => Ok::<(), CMTError>(()),
                Err(e) => Err(e),
            },
    {
        match self.check_proof(&root, &leaf, proof, index) {
            Ok(_) => Ok(()),
            Err(e) => Err(e),
        }
    }

    /// The outcome of `set_leaf` before anything is written: the proof is
    /// checked, then a write past the frontier, which would leave a filled
    /// slot beyond it, is refused.
    pub open spec fn set_leaf_check(&self, root: Seq<u8>, previous_leaf: Seq<u8>, proof: Seq<Node>, index: nat) -> Result<Seq<Node>, CMTError> {
        match self.check_leaf(root, previous_leaf, proof, index) {
            Err(e) => Err(e),
            Ok(ff) => if index > self.rightmost_proof.index {
                Err(CMTError::IndexOutOfBounds)
            } else {
                Ok(ff)
            },
        }
    }

    /// What `set_leaf` leaves behind: on an error the roll unchanged; else a
    /// published change-log for `new_leaf` over the fast-forwarded proof, with
    /// the rightmost proof patched past it, or, where the slot written is the
    /// frontier itself, moved on to that slot.
    pub open spec fn set_leaf_post(&self, next: &Self, root: Seq<u8>, previous_leaf: Seq<u8>, new_leaf: Node, proof: Seq<Node>, index: u32, r: Result<Node, CMTError>) -> bool {
        match self.set_leaf_check(root, previous_leaf, proof, index as nat) {
            Err(e) => r == Err::<Node, CMTError>(e) && *next == *self,
            Ok(ff) => {
                let rp = self.rightmost_proof;
                &&& r is Ok
                &&& r->Ok_0@ == recompute_spec(new_leaf@, ff, index as nat)
                &&& self.publishes(next, r->Ok_0@, path_spec(new_leaf@, ff, index as nat), index)
                &&& if index == rp.index {
                    &&& next.rightmost_proof.index == rp.index + 1
                    &&& next.rightmost_proof.leaf == new_leaf
                    &&& next.rightmost_proof.proof@ == ff
                } else {
                    &&& next.rightmost_proof.index == rp.index
                    &&& next.rightmost_proof.leaf == if index + 1 == rp.index { new_leaf } else { rp.leaf }
                    &&& next.rightmost_proof.proof@ == patch(
                        rp.proof@,
                        next.change_logs@[next.active_index as int],
                        (rp.index - 1) as nat,
                    )
                }
            },
        }
    }

    /// Replaces `previous_leaf` at `index` with `new_leaf`, given a sibling path
    /// that was valid against `root`, and returns the new root.
    pub fn set_leaf(&mut self, root: Node, previous_leaf: Node, new_leaf: Node, proof: &Vec<Node>, index: u32) -> (r: Result<Node, CMTError>)
        requires
            old(self).wf(),
            old(self).is_active(),
            old(self).sequence_number < u64::MAX,
        ensures
            final(self).wf(),
            old(self).set_leaf_post(&*final(self), root@, previous_leaf@, new_leaf, proof@, index, r),
    {
        let ff = match self.check_proof(&root, &previous_leaf, proof, index) {
            Ok(ff) => ff,
            Err(e) => {
                return Err(e);
            },
        };
        if index > self.rightmost_proof.index {
            return Err(CMTError::IndexOutOfBounds);
        }
        let (path, new_root) = compute_path(new_leaf, &ff, index);
        if index == self.rightmost_proof.index {
            proof {
                lemma_leaf_count_bound(self.max_depth as nat);
            }
            self.publish(new_root, path, index);
            self.rightmost_proof.proof = ff;
            self.rightmost_proof.leaf = new_leaf;
            self.rightmost_proof.index = index + 1;
            return Ok(new_root);
        }
        let last = self.rightmost_proof.index - 1;
        let ghost old_rp = self.rightmost_proof;
        proof {
            lemma_leaf_count_mono(0, self.max_depth as nat);
        }
        if index != last {
            let c = critbit(last, index, self.max_depth);
            let n = path[c];
            self.publish(new_root, path, index);
            self.rightmost_proof.proof.set(c, n);
        } else {
            self.publish(new_root, path, index);
            self.rightmost_proof.leaf = new_leaf;
        }
        Ok(new_root)
    }

    /// The outcome of `append_subtree_direct` before anything is written.
    pub open spec fn subtree_check(&self, subtree_root: Seq<u8>, rightmost_leaf: Seq<u8>, rightmost_index: nat, proof: Seq<Node>) -> Result<(), CMTError> {
        let d = proof.len();
        let i = self.rightmost_proof.index as nat;
        if d > self.max_depth {
            Err(CMTError::InvalidProof)
        } else if rightmost_index >= leaf_count(d) {
            Err(CMTError::IndexOutOfBounds)
        } else if i + leaf_count(d) > leaf_count(self.max_depth as nat) {
            Err(CMTError::TreeFull)
        } else if i % leaf_count(d) != 0 {
            Err(CMTError::Misaligned)
        } else if recompute_spec(rightmost_leaf, proof, rightmost_index) != subtree_root {
            Err(CMTError::InvalidProof)
        } else {
            Ok(())
        }
    }

    /// What `append_subtree_direct` leaves behind: the error of
    /// `subtree_check` with the roll unchanged, or a change-log for the
    /// subtree's rightmost leaf and a rightmost proof for the subtree's last slot.
    pub open spec fn subtree_direct_post(&self, next: &Self, subtree_root: Node, subtree_rightmost_leaf: Node, subtree_rightmost_index: u32, subtree_proof: Seq<Node>, r: Result<Node, CMTError>) -> bool {
        match self.subtree_check(subtree_root@, subtree_rightmost_leaf@, subtree_rightmost_index as nat, subtree_proof) {
            Err(e) => r == Err::<Node, CMTError>(e) && *next == *self,
            Ok(_) => {
                let i = self.rightmost_proof.index;
                let d = subtree_proof.len();
                let p = next.rightmost_proof.proof@;
                let at = (i + subtree_rightmost_index) as nat;
                &&& r is Ok
                &&& exists|q: Seq<Node>| {
                    &&& q.len() == self.max_depth
                    &&& (forall|h: int| 0 <= h < d ==> #[trigger] q[h] == subtree_proof[h])
                    &&& (forall|h: int| d <= h < self.max_depth ==> #[trigger] q[h] == p[h])
                    &&& r->Ok_0@ == recompute_spec(subtree_rightmost_leaf@, q, at)
                    &&& self.publishes(next, r->Ok_0@, path_spec(subtree_rightmost_leaf@, q, at), at as u32)
                }
                &&& p.len() == self.max_depth
                &&& forall|h: int| 0 <= h < d ==> #[trigger] p[h]@ == last_slot_sibling(
                    subtree_proof,
                    subtree_rightmost_leaf@,
                    subtree_rightmost_index as nat,
                    d,
                    h as nat,
                )
                &&& forall|h: int| d <= h < self.max_depth ==> #[trigger] p[h]@ == appended_sibling(
                    self.rightmost_proof.proof@,
                    self.rightmost_proof.leaf@,
                    i as nat,
                    h as nat,
                )
                &&& next.rightmost_proof.leaf@ == if subtree_rightmost_index + 1 == leaf_count(d) {
                    subtree_rightmost_leaf@
                } else {
                    empty_spec()
                }
                &&& next.rightmost_proof.index == i + leaf_count(d)
                &&& subtree_rightmost_index + 1 == leaf_count(d) ==> next.current_root()
                    == recompute_spec(subtree_rightmost_leaf@, p, at)
            },
        }
    }

    /// Splices a subtree of depth `subtree_proof.len()`, given its root and
    /// its rightmost filled leaf with that leaf's index and sibling path
    /// inside it, onto the next free slot, which must be aligned to the
    /// subtree's size. The slots after that leaf inside the subtree stay
    /// empty, and the next append lands past the whole subtree.
    pub fn append_subtree_direct(&mut self, subtree_root: Node, subtree_rightmost_leaf: Node, subtree_rightmost_index: u32, subtree_proof: &Vec<Node>) -> (r: Result<Node, CMTError>)
        requires
            old(self).wf(),
            old(self).is_active(),
            old(self).sequence_number < u64::MAX,
        ensures
            final(self).wf(),
            old(self).subtree_direct_post(&*final(self), subtree_root, subtree_rightmost_leaf, subtree_rightmost_index, subtree_proof@, r),
    {
        let depth = self.max_depth;
        let d = subtree_proof.len();
        if d > depth {
            return Err(CMTError::InvalidProof);
        }
        let size = leaf_count_of(d);
        if subtree_rightmost_index >= size {
            return Err(CMTError::IndexOutOfBounds);
        }
        let count = leaf_count_of(depth);
        let i = self.rightmost_proof.index;
        proof {
            lemma_leaf_count_bound(d as nat);
        }
        if i as u64 + size as u64 > count as u64 {
            return Err(CMTError::TreeFull);
        }
        if i % size != 0 {
            return Err(CMTError::Misaligned);
        }
        let implied = recompute(subtree_rightmost_leaf, subtree_proof, subtree_rightmost_index);
        if !nodes_equal(&implied, &subtree_root) {
            return Err(CMTError::InvalidProof);
        }
        let empties = empty_roots(depth);
        let ghost old_proof = self.rightmost_proof.proof@;
        let ghost old_leaf = self.rightmost_proof.leaf@;
        let mut proof: Vec<Node> = Vec::new();
        let mut inter = self.rightmost_proof.leaf;
        let mut idx_n: u32 = i;
        let mut idx_p: u32 = if i > 0 { i - 1 } else { 0 };
        let mut found = false;
        let mut h: usize = 0;
        proof {
            if i > 0 {
                lemma_trailing_zeros_bound(i as nat, depth as nat);
            }
        }
        while h < depth
            invariant
                0 <= h <= depth,
                d <= depth,
                d == subtree_proof@.len(),
                depth == self.max_depth,
                empties@.len() == depth,
                forall|k: int| 0 <= k < depth ==> #[trigger] empties@[k]@ == empty_root(k as nat),
                old_proof == self.rightmost_proof.proof@,
                old_leaf == self.rightmost_proof.leaf@,
                old_proof.len() == depth,
                proof@.len() == h,
                i > 0 ==> trailing_zeros(i as nat) < depth,
                idx_n as nat == shifted(i as nat, h as nat),
                i > 0 ==> idx_p as nat == shifted((i - 1) as nat, h as nat),
                found <==> (i > 0 && trailing_zeros(i as nat) < h),
                (i > 0 && !found) ==> inter@ == node_at(old_leaf, old_proof, (i - 1) as nat, h as nat),
                forall|k: int| 0 <= k < h && k < d ==> #[trigger] proof@[k] == subtree_proof@[k],
                forall|k: int| d <= k < h ==> #[trigger] proof@[k]@ == appended_sibling(old_proof, old_leaf, i as nat, k as nat),
            decreases depth - h,
        {
            proof {
                lemma_shifted_step(i as nat, h as nat);
                if i > 0 {
                    lemma_shifted_step((i - 1) as nat, h as nat);
                    lemma_trailing_zeros(i as nat, h as nat);
                }
            }
            let sibling: Node;
            if !found && idx_n % 2 == 0 {
                sibling = empties[h];
                inter = hash_to_parent(&inter, &self.rightmost_proof.proof[h], idx_p % 2 == 0);
            } else if !found {
                sibling = inter;
                found = true;
            } else {
                sibling = self.rightmost_proof.proof[h];
            }
            if h < d {
                proof.push(subtree_proof[h]);
            } else {
                proof.push(sibling);
            }
            idx_n = idx_n / 2;
            idx_p = idx_p / 2;
            h = h + 1;
        }
        let at = i + subtree_rightmost_index;
        let (path, root) = compute_path(subtree_rightmost_leaf, &proof, at);
        let (inner, _) = compute_path(subtree_rightmost_leaf, subtree_proof, subtree_rightmost_index);
        let ghost q = proof@;
        let mut frontier = copy_nodes(&proof);
        let last = size - 1;
        let mut a: u32 = subtree_rightmost_index;
        let mut b: u32 = last;
        let mut h: usize = 0;
        while h < d
            invariant
                0 <= h <= d <= depth,
                d == subtree_proof@.len(),
                depth == q.len(),
                empties@.len() == depth,
                forall|k: int| 0 <= k < depth ==> #[trigger] empties@[k]@ == empty_root(k as nat),
                views(inner@) == path_spec(subtree_rightmost_leaf@, subtree_proof@, subtree_rightmost_index as nat),
                inner@.len() == d,
                last as nat == leaf_count(d as nat) - 1,
                a as nat == shifted(subtree_rightmost_index as nat, h as nat),
                b as nat == shifted(last as nat, h as nat),
                frontier@.len() == depth,
                forall|k: int| 0 <= k < h ==> #[trigger] frontier@[k]@ == last_slot_sibling(
                    subtree_proof@,
                    subtree_rightmost_leaf@,
                    subtree_rightmost_index as nat,
                    d as nat,
                    k as nat,
                ),
                forall|k: int| h <= k < depth ==> #[trigger] frontier@[k] == q[k],
                forall|k: int| 0 <= k < d ==> #[trigger] q[k] == subtree_proof@[k],
            decreases d - h,
        {
            proof {
                lemma_shifted_step(subtree_rightmost_index as nat, h as nat);
                lemma_shifted_step(last as nat, h as nat);
            }
            if a == b {
                let n = subtree_proof[h];
                frontier.set(h, n);
            } else if a as u64 + 1 == b as u64 {
                assert(views(inner@)[h as int] == inner@[h as int]@);
                let n = inner[h];
                frontier.set(h, n);
            } else {
                let n = empties[h];
                frontier.set(h, n);
            }
            a = a / 2;
            b = b / 2;
            h = h + 1;
        }
        self.publish(root, path, at);
        self.rightmost_proof.proof = frontier;
        if subtree_rightmost_index == last {
            self.rightmost_proof.leaf = subtree_rightmost_leaf;
        } else {
            self.rightmost_proof.leaf = empty_node();
        }
        self.rightmost_proof.index = i + size;
        proof {
            if subtree_rightmost_index == last {
                lemma_node_at_prefix(subtree_rightmost_leaf@, q, frontier@, at as nat, depth as nat);
            }
        }
        Ok(root)
    }

    /// The piece written `m`-th of `n`: the first piece given holds the
    /// subtree's rightmost leaf and goes last, the others go in order.
    pub open spec fn piece_order(m: nat, n: nat) -> nat {
        if m + 1 < n {
            m + 1
        } else {
            0
        }
    }

    /// Whether the pieces from `k` on fit one after another from the frontier
    /// `i` in a tree of depth `depth`: the frontier reached, or the first error.
    pub open spec fn pieces_check(
        depth: nat,
        i: nat,
        proofs: Seq<Vec<Node>>,
        rmls: Seq<Node>,
        roots: Seq<Node>,
        k: nat,
    ) -> Result<nat, CMTError>
        decreases proofs.len() - k,
    {
        if k >= proofs.len() {
            Ok(i)
        } else {
            let j = Self::piece_order(k, proofs.len()) as int;
            let d = proofs[j]@.len();
            if d > depth {
                Err(CMTError::InvalidProof)
            } else if i + leaf_count(d) > leaf_count(depth) {
                Err(CMTError::TreeFull)
            } else if i % leaf_count(d) != 0 {
                Err(CMTError::Misaligned)
            } else if recompute_spec(rmls[j]@, proofs[j]@, (leaf_count(d) - 1) as nat) != roots[j]@ {
                Err(CMTError::InvalidProof)
            } else {
                Self::pieces_check(depth, i + leaf_count(d), proofs, rmls, roots, k + 1)
            }
        }
    }

    /// `states` runs from this roll to `next` through one direct subtree
    /// append per piece, in `piece_order`, the `k`-th returning `outs[k]`;
    /// `r` is the last root returned, or the current root when there are no pieces.
    pub open spec fn packed_trace(
        &self,
        next: &Self,
        proofs: Seq<Vec<Node>>,
        rmls: Seq<Node>,
        roots: Seq<Node>,
        states: Seq<MerkleRoll>,
        outs: Seq<Node>,
        r: Result<Node, CMTError>,
    ) -> bool {
        let n = proofs.len();
        &&& states.len() == n + 1
        &&& outs.len() == n
        &&& states[0] == *self
        &&& states[n as int] == *next
        &&& forall|k: int|
            #![trigger states[k]]
            0 <= k < n ==> {
                let j = Self::piece_order(k as nat, n) as int;
                states[k].subtree_direct_post(
                    &states[k + 1],
                    roots[j],
                    rmls[j],
                    (leaf_count(proofs[j]@.len()) - 1) as u32,
                    proofs[j]@,
                    Ok(outs[k]),
                )
            }
        &&& r == Ok::<Node, CMTError>(
            if n == 0 {
                self.change_logs@[self.active_index as int].root
            } else {
                outs[n - 1]
            },
        )
    }

    /// The outcome of `append_subtree_packed` before anything is written.
    pub open spec fn packed_check(&self, proofs: Seq<Vec<Node>>, rmls: Seq<Node>, roots: Seq<Node>) -> Result<nat, CMTError> {
        if rmls.len() != proofs.len() || roots.len() != proofs.len() {
            Err(CMTError::InvalidProof)
        } else {
            Self::pieces_check(self.max_depth as nat, self.rightmost_proof.index as nat, proofs, rmls, roots, 0)
        }
    }

    /// Appends a sequence of complete subtrees, each given by the sibling path
    /// of its rightmost leaf, that leaf and its root. They are written in the
    /// order of `piece_order`, each aligned at the frontier that the previous
    /// ones left. Every piece is checked before any is written; the new root
    /// is returned.
    pub fn append_subtree_packed(&mut self, subtree_proofs: &Vec<Vec<Node>>, subtree_rmls: &Vec<Node>, subtree_roots: &Vec<Node>) -> (r: Result<Node, CMTError>)
        requires
            old(self).wf(),
            old(self).is_active(),
            old(self).sequence_number + subtree_proofs@.len() <= u64::MAX,
        ensures
            final(self).wf(),
            match old(self).packed_check(subtree_proofs@, subtree_rmls@, subtree_roots@) {
                Err(e) => r == Err::<Node, CMTError>(e) && *final(self) == *old(self),
                Ok(end) => {
                    let n = subtree_proofs@.len();
                    &&& r is Ok
                    &&& exists|states: Seq<MerkleRoll>, outs: Seq<Node>|
                        #[trigger] old(self).packed_trace(
                            &*final(self),
                            subtree_proofs@,
                            subtree_rmls@,
                            subtree_roots@,
                            states,
                            outs,
                            r,
                        )
                    &&& r->Ok_0@ == final(self).current_root()
                    &&& final(self).rightmost_proof.index == end
                    &&& final(self).sequence_number == old(self).sequence_number + n
                    &&& final(self).max_depth == old(self).max_depth
                    &&& final(self).max_buffer_size == old(self).max_buffer_size
                    &&& n > 0 ==> {
                        &&& final(self).rightmost_proof.leaf == subtree_rmls@[0]
                        &&& final(self).current_root() == recompute_spec(
                            subtree_rmls@[0]@,
                            final(self).rightmost_proof.proof@,
                            (end - 1) as nat,
                        )
                    }
                },
            },
    {
        let n = subtree_proofs.len();
        if subtree_rmls.len() != n || subtree_roots.len() != n {
            return Err(CMTError::InvalidProof);
        }
        let depth = self.max_depth;
        let count = leaf_count_of(depth);
        let ghost i0 = self.rightmost_proof.index as nat;
        let mut i: u32 = self.rightmost_proof.index;
        let mut k: usize = 0;
        while k < n
            invariant
                n == subtree_proofs@.len(),
                n == subtree_rmls@.len(),
                n == subtree_roots@.len(),
                *self == *old(self),
                self.wf(),
                i0 == old(self).rightmost_proof.index,
                depth == self.max_depth,
                1 <= depth <= MAX_SUPPORTED_DEPTH,
                count as nat == leaf_count(depth as nat),
                0 <= k <= n,
                i as nat <= leaf_count(depth as nat),
                Self::pieces_check(depth as nat, i0, subtree_proofs@, subtree_rmls@, subtree_roots@, 0)
                    == Self::pieces_check(depth as nat, i as nat, subtree_proofs@, subtree_rmls@, subtree_roots@, k as nat),
            decreases n - k,
        {
            let j: usize = if k + 1 < n { k + 1 } else { 0 };
            let d = subtree_proofs[j].len();
            if d > depth {
                return Err(CMTError::InvalidProof);
            }
            let size = leaf_count_of(d);
            proof {
                lemma_leaf_count_bound(d as nat);
                lemma_leaf_count_mono(0, d as nat);
            }
            if i as u64 + size as u64 > count as u64 {
                return Err(CMTError::TreeFull);
            }
            if i % size != 0 {
                return Err(CMTError::Misaligned);
            }
            let implied = recompute(subtree_rmls[j], &subtree_proofs[j], size - 1);
            if !nodes_equal(&implied, &subtree_roots[j]) {
                return Err(CMTError::InvalidProof);
            }
            i = i + size;
            k = k + 1;
        }
        let ghost end = i as nat;
        let ghost s0 = self.sequence_number;
        let mut root = self.change_logs[self.active_index as usize].root;
        let ghost mut states: Seq<MerkleRoll> = seq![*self];
        let ghost mut outs: Seq<Node> = Seq::empty();
        let mut k: usize = 0;
        while k < n
            invariant
                states.len() == k + 1,
                outs.len() == k,
                states[0] == *old(self),
                states[k as int] == *self,
                root == (if k == 0 {
                    old(self).change_logs@[old(self).active_index as int].root
                } else {
                    outs[k - 1]
                }),
                forall|m: int|
                    #![trigger states[m]]
                    0 <= m < k ==> {
                        let j = Self::piece_order(m as nat, n as nat) as int;
                        states[m].subtree_direct_post(
                            &states[m + 1],
                            subtree_roots@[j],
                            subtree_rmls@[j],
                            (leaf_count(subtree_proofs@[j]@.len()) - 1) as u32,
                            subtree_proofs@[j]@,
                            Ok(outs[m]),
                        )
                    },
                n == subtree_proofs@.len(),
                n == subtree_rmls@.len(),
                n == subtree_roots@.len(),
                self.wf(),
                self.is_active(),
                depth == self.max_depth,
                self.max_buffer_size == old(self).max_buffer_size,
                0 <= k <= n,
                self.sequence_number == s0 + k,
                s0 + n <= u64::MAX,
                root@ == self.current_root(),
                Self::pieces_check(depth as nat, self.rightmost_proof.index as nat, subtree_proofs@, subtree_rmls@, subtree_roots@, k as nat)
                    == Ok::<nat, CMTError>(end),
                k > 0 ==> {
                    &&& self.rightmost_proof.leaf == subtree_rmls@[Self::piece_order((k - 1) as nat, n as nat) as int]
                    &&& self.current_root() == recompute_spec(
                        subtree_rmls@[Self::piece_order((k - 1) as nat, n as nat) as int]@,
                        self.rightmost_proof.proof@,
                        (self.rightmost_proof.index - 1) as nat,
                    )
                },
            decreases n - k,
        {
            let j: usize = if k + 1 < n { k + 1 } else { 0 };
            let d = subtree_proofs[j].len();
            proof {
                lemma_leaf_count_mono(0, d as nat);
            }
            let size = leaf_count_of(d);
            let ghost before = *self;
            match self.append_subtree_direct(subtree_roots[j], subtree_rmls[j], size - 1, &subtree_proofs[j]) {
                Ok(r) => {
                    root = r;
                    proof {
                        states = states.push(*self);
                        outs = outs.push(r);
                        assert forall|m: int|
                            #![trigger states[m]]
                            0 <= m < k + 1 implies {
                                let j2 = Self::piece_order(m as nat, n as nat) as int;
                                states[m].subtree_direct_post(
                                    &states[m + 1],
                                    subtree_roots@[j2],
                                    subtree_rmls@[j2],
                                    (leaf_count(subtree_proofs@[j2]@.len()) - 1) as u32,
                                    subtree_proofs@[j2]@,
                                    Ok(outs[m]),
                                )
                            } by {
                            if m == k {
                                assert(states[m] == before);
                            }
                        }
                    }
                },
                Err(e) => {
                    return Err(e);
                },
            }
            k = k + 1;
        }
        assert(old(self).packed_trace(
            &*self,
            subtree_proofs@,
            subtree_rmls@,
            subtree_roots@,
            states,
            outs,
            Ok::<Node, CMTError>(root),
        ));
        Ok(root)
    }
}

} // verus!
