use vstd::prelude::*;

verus! {

/// A 32-byte tree node: a leaf value or an inner hash.
pub type Node = [u8; 32];

/// What keccak256 returns on the given bytes.
pub uninterp spec fn keccak_of(data: Seq<u8>) -> Seq<u8>;

/// Relies on solana_program's `keccak::hashv`: the keccak256 digest of the
/// two slices one after the other, a function of their bytes alone.
#[verifier::external_body]
pub(crate) fn keccak(first: &[u8], second: &[u8]) -> (r: Node)
    ensures
        r@ == keccak_of(first@ + second@),
{
    anchor_lang::solana_program::keccak::hashv(&[first, second]).to_bytes()
}

/// The empty node: 32 zero bytes.
pub open spec fn empty_spec() -> Seq<u8> {
    Seq::new(32, |i: int| 0u8)
}

/// The hash of two children, left then right.
pub open spec fn hash_pair_spec(left: Seq<u8>, right: Seq<u8>) -> Seq<u8> {
    keccak_of(left + right)
}

/// The parent of `child` and `sibling`, with `child` on the left when `child_is_left`.
pub open spec fn parent_spec(child: Seq<u8>, sibling: Seq<u8>, child_is_left: bool) -> Seq<u8> {
    if child_is_left {
        hash_pair_spec(child, sibling)
    } else {
        hash_pair_spec(sibling, child)
    }
}

/// `index` shifted right by `h` bits: the position of its ancestor at height `h`.
pub open spec fn shifted(index: nat, h: nat) -> nat
    decreases h,
{
    if h == 0 {
        index
    } else {
        shifted(index / 2, (h - 1) as nat)
    }
}

/// Whether the ancestor of leaf `index` at height `h` is a left child.
pub open spec fn is_left(index: nat, h: nat) -> bool {
    shifted(index, h) % 2 == 0
}

/// The ancestor at height `h` of `leaf`, placed at `index`, with the siblings `proof`.
pub open spec fn node_at(leaf: Seq<u8>, proof: Seq<Node>, index: nat, h: nat) -> Seq<u8>
    decreases h,
{
    if h == 0 {
        leaf
    } else {
        parent_spec(
            node_at(leaf, proof, index, (h - 1) as nat),
            proof[h - 1]@,
            is_left(index, (h - 1) as nat),
        )
    }
}

/// The root implied by `leaf` at `index` with the sibling path `proof`.
pub open spec fn recompute_spec(leaf: Seq<u8>, proof: Seq<Node>, index: nat) -> Seq<u8> {
    node_at(leaf, proof, index, proof.len())
}

/// The ancestors of `leaf` at heights `0 .. proof.len()`, the leaf first.
pub open spec fn path_spec(leaf: Seq<u8>, proof: Seq<Node>, index: nat) -> Seq<Seq<u8>> {
    Seq::new(proof.len(), |h: int| node_at(leaf, proof, index, h as nat))
}

/// The root of an empty subtree of height `h`.
pub open spec fn empty_root(h: nat) -> Seq<u8>
    decreases h,
{
    if h == 0 {
        empty_spec()
    } else {
        let below = empty_root((h - 1) as nat);
        hash_pair_spec(below, below)
    }
}

/// The views of a sequence of nodes.
pub open spec fn views(s: Seq<Node>) -> Seq<Seq<u8>> {
    Seq::new(s.len(), |i: int| s[i]@)
}

pub proof fn lemma_shifted_step(index: nat, h: nat)
    ensures
        shifted(index, h + 1) == shifted(index, h) / 2,
    decreases h,
{
    if h > 0 {
        lemma_shifted_step(index / 2, (h - 1) as nat);
    } else {
        assert(shifted(index / 2, 0) == index / 2);
    }
}

/// The empty node.
pub fn empty_node() -> (r: Node)
    ensures
        r@ == empty_spec(),
{
    let r: Node = [0u8; 32];
    assert(r@ =~= empty_spec());
    r
}

/// Whether two nodes hold the same bytes.
pub fn nodes_equal(a: &Node, b: &Node) -> (r: bool)
    ensures
        r == (a@ == b@),
        r == (*a == *b),
{
    let mut i: usize = 0;
    while i < 32
        invariant
            0 <= i <= 32,
            forall|k: int| 0 <= k < i ==> a[k] == b[k],
        decreases 32 - i,
    {
        if a[i] != b[i] {
            assert(a@[i as int] != b@[i as int]);
            return false;
        }
        i = i + 1;
    }
    assert(a@ =~= b@);
    assert(*a =~= *b);
    true
}

/// The keccak256 hash of `left ∥ right`.
pub fn hash_pair(left: &Node, right: &Node) -> (r: Node)
    ensures
        r@ == hash_pair_spec(left@, right@),
{
    keccak(left.as_slice(), right.as_slice())
}

/// The parent of `child` and `sibling`; `child` is hashed on the left when `child_is_left`.
pub fn hash_to_parent(child: &Node, sibling: &Node, child_is_left: bool) -> (r: Node)
    ensures
        r@ == parent_spec(child@, sibling@, child_is_left),
{
    if child_is_left {
        hash_pair(child, sibling)
    } else {
        hash_pair(sibling, child)
    }
}

/// The root implied by `leaf` at `index` with the sibling path `proof`.
pub fn recompute(leaf: Node, proof: &Vec<Node>, index: u32) -> (r: Node)
    ensures
        r@ == recompute_spec(leaf@, proof@, index as nat),
{
    let mut node = leaf;
    let mut idx: u32 = index;
    let mut h: usize = 0;
    while h < proof.len()
        invariant
            0 <= h <= proof@.len(),
            idx as nat == shifted(index as nat, h as nat),
            node@ == node_at(leaf@, proof@, index as nat, h as nat),
        decreases proof@.len() - h,
    {
        proof {
            lemma_shifted_step(index as nat, h as nat);
        }
        node = hash_to_parent(&node, &proof[h], idx % 2 == 0);
        idx = idx / 2;
        h = h + 1;
    }
    node
}

/// The ancestors of `leaf` at `index` with the siblings `proof`, the leaf
/// first, and the root they lead to.
pub fn compute_path(leaf: Node, proof: &Vec<Node>, index: u32) -> (r: (Vec<Node>, Node))
    ensures
        views(r.0@) == path_spec(leaf@, proof@, index as nat),
        r.0@.len() == proof@.len(),
        r.1@ == recompute_spec(leaf@, proof@, index as nat),
{
    let mut path: Vec<Node> = Vec::new();
    let mut node = leaf;
    let mut idx: u32 = index;
    let mut h: usize = 0;
    while h < proof.len()
        invariant
            0 <= h <= proof@.len(),
            path@.len() == h,
            idx as nat == shifted(index as nat, h as nat),
            node@ == node_at(leaf@, proof@, index as nat, h as nat),
            forall|k: int| 0 <= k < h ==> #[trigger] path@[k]@ == node_at(leaf@, proof@, index as nat, k as nat),
        decreases proof@.len() - h,
    {
        proof {
            lemma_shifted_step(index as nat, h as nat);
        }
        path.push(node);
        node = hash_to_parent(&node, &proof[h], idx % 2 == 0);
        idx = idx / 2;
        h = h + 1;
    }
    assert(views(path@) =~= path_spec(leaf@, proof@, index as nat));
    (path, node)
}

/// A copy of a sequence of nodes.
pub fn copy_nodes(v: &Vec<Node>) -> (r: Vec<Node>)
    ensures
        r@ == v@,
{
    let mut r: Vec<Node> = Vec::new();
    let mut i: usize = 0;
    while i < v.len()
        invariant
            0 <= i <= v@.len(),
            r@ =~= v@.take(i as int),
        decreases v@.len() - i,
    {
        r.push(v[i]);
        i = i + 1;
    }
    assert(r@ =~= v@);
    r
}

/// The empty-subtree roots at heights `0 .. depth`.
pub fn empty_roots(depth: usize) -> (r: Vec<Node>)
    ensures
        r@.len() == depth,
        forall|h: int| 0 <= h < depth ==> #[trigger] r@[h]@ == empty_root(h as nat),
{
    let mut r: Vec<Node> = Vec::new();
    let mut node = empty_node();
    let mut h: usize = 0;
    while h < depth
        invariant
            0 <= h <= depth,
            r@.len() == h,
            node@ == empty_root(h as nat),
            forall|k: int| 0 <= k < h ==> #[trigger] r@[k]@ == empty_root(k as nat),
        decreases depth - h,
    {
        r.push(node);
        node = hash_pair(&node, &node);
        h = h + 1;
    }
    r
}

/// The root of an empty subtree of height `height`.
pub fn empty_subtree_root(height: usize) -> (r: Node)
    ensures
        r@ == empty_root(height as nat),
{
    let mut node = empty_node();
    let mut h: usize = 0;
    while h < height
        invariant
            0 <= h <= height,
            node@ == empty_root(h as nat),
        decreases height - h,
    {
        node = hash_pair(&node, &node);
        h = h + 1;
    }
    node
}

} // verus!
