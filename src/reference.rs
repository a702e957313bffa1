use vstd::prelude::*;
use crate::node::{Node, empty_root, empty_spec, hash_pair_spec, lemma_shifted_step, node_at, shifted};
use crate::roll::{MerkleRoll, diverge, leaf_count, lemma_leaf_count_mono, lemma_trailing_zeros, trailing_zeros};

verus! {

/// The node at height `h` and position `q` of the full tree over `leaves`;
/// slots past the end read as empty.
pub open spec fn tree_node(leaves: Seq<Seq<u8>>, h: nat, q: nat) -> Seq<u8>
    decreases h,
{
    if h == 0 {
        if q < leaves.len() {
            leaves[q as int]
        } else {
            empty_spec()
        }
    } else {
        hash_pair_spec(tree_node(leaves, (h - 1) as nat, 2 * q), tree_node(leaves, (h - 1) as nat, 2 * q + 1))
    }
}

/// The sibling at height `h` of the ancestor of leaf `j` in the full tree.
pub open spec fn true_sibling(leaves: Seq<Seq<u8>>, j: nat, h: nat) -> Seq<u8> {
    let a = shifted(j, h);
    if a % 2 == 0 {
        tree_node(leaves, h, a + 1)
    } else {
        tree_node(leaves, h, (a - 1) as nat)
    }
}

/// The roll stands for the tree over `leaves`: its root is that tree's root,
/// the slots from the frontier on are empty, and the rightmost proof is the
/// true sibling path of the last appended leaf.
pub open spec fn models(m: MerkleRoll, leaves: Seq<Seq<u8>>) -> bool {
    let d = m.max_depth as nat;
    let rp = m.rightmost_proof;
    &&& leaves.len() == leaf_count(d)
    &&& forall|s: int| rp.index <= s < leaves.len() ==> #[trigger] leaves[s] == empty_spec()
    &&& m.current_root() == tree_node(leaves, d, 0)
    &&& rp.index >= 1 ==> {
        &&& rp.leaf@ == leaves[rp.index - 1]
        &&& forall|h: int| 0 <= h < d ==> #[trigger] rp.proof@[h]@ == true_sibling(leaves, (rp.index - 1) as nat, h as nat)
    }
}

/// Following a true sibling path from a leaf climbs the full tree.
pub proof fn lemma_path_climbs_tree(leaves: Seq<Seq<u8>>, proof: Seq<Node>, j: nat, h: nat)
    requires
        j < leaves.len(),
        h <= proof.len(),
        forall|k: int| 0 <= k < h ==> #[trigger] proof[k]@ == true_sibling(leaves, j, k as nat),
    ensures
        node_at(leaves[j as int], proof, j, h) == tree_node(leaves, h, shifted(j, h)),
    decreases h,
{
    if h > 0 {
        let g = (h - 1) as nat;
        lemma_path_climbs_tree(leaves, proof, j, g);
        lemma_shifted_step(j, g);
        let a = shifted(j, g);
        assert(proof[g as int]@ == true_sibling(leaves, j, g));
        if a % 2 == 0 {
            assert(2 * (a / 2) == a);
        } else {
            assert(2 * (a / 2) + 1 == a);
        }
    }
}

/// Writing slot `i` leaves every subtree that does not hold it as it was.
pub proof fn lemma_tree_node_local(leaves: Seq<Seq<u8>>, i: nat, x: Seq<u8>, h: nat, q: nat)
    requires
        i < leaves.len(),
        shifted(i, h) != q,
    ensures
        tree_node(leaves.update(i as int, x), h, q) == tree_node(leaves, h, q),
    decreases h,
{
    if h > 0 {
        let g = (h - 1) as nat;
        lemma_shifted_step(i, g);
        lemma_tree_node_local(leaves, i, x, g, 2 * q);
        lemma_tree_node_local(leaves, i, x, g, 2 * q + 1);
    }
}

/// A subtree lying wholly at or past slot `n`, where all is empty, is empty.
pub proof fn lemma_tree_node_empty(leaves: Seq<Seq<u8>>, n: nat, h: nat, q: nat)
    requires
        forall|s: int| n <= s < leaves.len() ==> #[trigger] leaves[s] == empty_spec(),
        q * leaf_count(h) >= n,
    ensures
        tree_node(leaves, h, q) == empty_root(h),
    decreases h,
{
    if h > 0 {
        let g = (h - 1) as nat;
        assert(2 * q * leaf_count(g) == q * leaf_count(h)) by (nonlinear_arith)
            requires
                leaf_count(h) == 2 * leaf_count(g),
        ;
        assert((2 * q + 1) * leaf_count(g) >= 2 * q * leaf_count(g)) by (nonlinear_arith);
        lemma_tree_node_empty(leaves, n, g, 2 * q);
        lemma_tree_node_empty(leaves, n, g, 2 * q + 1);
    } else {
        assert(q * 1 == q);
    }
}

pub proof fn lemma_shifted_bound(i: nat, h: nat)
    ensures
        i < (shifted(i, h) + 1) * leaf_count(h),
    decreases h,
{
    lemma_leaf_count_mono(0, h);
    if h > 0 {
        let g = (h - 1) as nat;
        lemma_shifted_bound(i, g);
        lemma_shifted_step(i, g);
        let a = shifted(i, g);
        let l = leaf_count(g);
        assert(shifted(i, h) == a / 2);
        assert(leaf_count(h) == 2 * l);
        assert((a + 1) * l <= (a / 2 + 1) * (2 * l)) by (nonlinear_arith)
            requires
                l >= 1,
        ;
    } else {
        assert((i + 1) * 1 == i + 1);
    }
}

pub proof fn lemma_shifted_past_end(i: nat, d: nat)
    requires
        i < leaf_count(d),
    ensures
        shifted(i, d) == 0,
    decreases d,
{
    if d > 0 {
        lemma_shifted_past_end(i / 2, (d - 1) as nat);
    }
}

pub proof fn lemma_shifted_zero(h: nat)
    ensures
        shifted(0, h) == 0,
    decreases h,
{
    if h > 0 {
        lemma_shifted_zero((h - 1) as nat);
    }
}

/// Just below the lowest set bit of `i`, the ancestor of `i - 1` is the left
/// neighbour of the ancestor of `i`; above it the two share ancestors.
pub proof fn lemma_previous_slot(i: nat, h: nat)
    requires
        i > 0,
    ensures
        shifted((i - 1) as nat, trailing_zeros(i)) + 1 == shifted(i, trailing_zeros(i)),
        h > trailing_zeros(i) ==> shifted((i - 1) as nat, h) == shifted(i, h),
    decreases i, h,
{
    if i % 2 == 0 {
        lemma_previous_slot(i / 2, 0);
        assert((i - 1) as nat / 2 == (i / 2 - 1) as nat);
        assert(shifted((i - 1) as nat, trailing_zeros(i)) == shifted((i / 2 - 1) as nat, trailing_zeros(i / 2)));
        assert(shifted(i, trailing_zeros(i)) == shifted(i / 2, trailing_zeros(i / 2)));
        if h > trailing_zeros(i) {
            lemma_previous_slot(i / 2, (h - 1) as nat);
        }
    } else if h > 0 {
        lemma_previous_slot(i, (h - 1) as nat);
        lemma_shifted_step((i - 1) as nat, (h - 1) as nat);
        lemma_shifted_step(i, (h - 1) as nat);
        lemma_trailing_zeros(i, (h - 1) as nat);
        if h - 1 == 0 {
            assert(((i - 1) as nat) / 2 == i / 2);
        }
    }
}

/// The paths of leaves `a` and `b` differ below `diverge(a, b)` and agree from there on.
pub proof fn lemma_diverge_shifted(a: nat, b: nat, h: nat)
    ensures
        h >= diverge(a, b) ==> shifted(a, h) == shifted(b, h),
        h < diverge(a, b) ==> shifted(a, h) != shifted(b, h),
    decreases a + b, h,
{
    if a != b && h > 0 {
        lemma_diverge_shifted(a / 2, b / 2, (h - 1) as nat);
    } else if a == b {
        assert(shifted(a, h) == shifted(b, h));
    }
}

/// The paths of two leaves meet one height above the height at which their
/// ancestors are siblings; below it no ancestor of one is the other's sibling.
pub proof fn lemma_meeting_point(a: nat, b: nat, h: nat)
    requires
        a != b,
    ensures
        h + 1 == diverge(a, b) ==> (if shifted(a, h) % 2 == 0 {
            shifted(b, h) == shifted(a, h) + 1
        } else {
            shifted(b, h) + 1 == shifted(a, h)
        }),
        h + 1 < diverge(a, b) ==> shifted(b, h) != (if shifted(a, h) % 2 == 0 {
            shifted(a, h) + 1
        } else {
            (shifted(a, h) - 1) as nat
        }),
        h >= diverge(a, b) ==> shifted(b, h) == shifted(a, h),
{
    lemma_diverge_shifted(a, b, h);
    lemma_diverge_shifted(a, b, h + 1);
    lemma_shifted_step(a, h);
    lemma_shifted_step(b, h);
}

} // verus!
