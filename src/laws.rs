use vstd::prelude::*;
use crate::layout::{decoded, encode, lemma_encode_injective, lemma_node_eq, paths_sized, same_state};
use crate::node::{Node, empty_spec, lemma_shifted_step, node_at, path_spec, recompute_spec, shifted, views};
use crate::reference::{
    lemma_meeting_point, lemma_path_climbs_tree, lemma_previous_slot, lemma_shifted_bound,
    lemma_shifted_past_end, lemma_shifted_zero, lemma_tree_node_empty, lemma_tree_node_local, models, tree_node,
    true_sibling,
};
use crate::roll::{
    CMTError, MerkleRoll, patch, appended_sibling, diverge, leaf_count, lemma_diverge_bound, lemma_trailing_zeros,
    trailing_zeros,
};

verus! {

/// Writing over a leaf the value it already holds leaves the root as it was,
/// while the sequence number still moves on by one.
pub proof fn lemma_set_same_leaf_keeps_root(
    before: MerkleRoll,
    after: MerkleRoll,
    root: Seq<u8>,
    leaf: Node,
    proof: Seq<Node>,
    index: u32,
    r: Result<Node, CMTError>,
)
    requires
        before.wf(),
        before.set_leaf_post(&after, root, leaf@, leaf, proof, index, r),
        r is Ok,
    ensures
        after.current_root() == before.current_root(),
        after.sequence_number == before.sequence_number + 1,
{
}

/// Reading back the bytes of a well-formed roll gives a roll in the same
/// state, field by field, so that every later operation behaves alike on both.
pub proof fn lemma_bytes_round_trip(m: MerkleRoll, r: Option<MerkleRoll>)
    requires
        m.wf(),
        decoded(encode(m), m.max_depth, m.max_buffer_size, r),
    ensures
        r is Some,
        same_state(m, r->Some_0),
{
    if r is None {
        assert(encode(m) != encode(m));
    }
    let m2 = r->Some_0;
    assert(paths_sized(m.change_logs@, m.max_depth as nat));
    assert(paths_sized(m2.change_logs@, m2.max_depth as nat));
    lemma_encode_injective(m, m2);
}

/// A freshly initialized roll stands for the tree whose every slot is empty.
pub proof fn lemma_initialize_models_empty_tree(before: MerkleRoll, after: MerkleRoll, r: Result<Node, CMTError>)
    requires
        before.wf(),
        !before.is_active(),
        before.initialize_post(&after, r),
    ensures
        models(after, Seq::new(leaf_count(before.max_depth as nat), |s: int| empty_spec())),
{
    let leaves = Seq::new(leaf_count(before.max_depth as nat), |s: int| empty_spec());
    lemma_tree_node_empty(leaves, 0, before.max_depth as nat, 0);
}

/// Appending to a roll that stands for the tree over `leaves` gives a roll
/// that stands for the same tree with the leaf written at the frontier: its
/// root is that tree's root, recomputed from scratch.
pub proof fn lemma_append_models_tree(
    before: MerkleRoll,
    after: MerkleRoll,
    leaves: Seq<Seq<u8>>,
    leaf: Node,
    r: Result<Node, CMTError>,
)
    requires
        before.wf(),
        models(before, leaves),
        before.append_post(&after, leaf, r),
        r is Ok,
    ensures
        models(after, leaves.update(before.rightmost_proof.index as int, leaf@)),
{
    let d = before.max_depth as nat;
    let i = before.rightmost_proof.index as nat;
    let old_proof = before.rightmost_proof.proof@;
    let old_leaf = before.rightmost_proof.leaf@;
    let l2 = leaves.update(i as int, leaf@);
    let p = after.rightmost_proof.proof@;
    assert(i < leaf_count(d));
    assert forall|h: int| 0 <= h < d implies #[trigger] p[h]@ == true_sibling(l2, i, h as nat) by {
        let hn = h as nat;
        let a = shifted(i, hn);
        assert(p[h]@ == appended_sibling(old_proof, old_leaf, i, hn));
        if i == 0 || hn < trailing_zeros(i) {
            if i == 0 {
                lemma_shifted_zero(hn);
            } else {
                lemma_trailing_zeros(i, hn);
            }
            lemma_shifted_bound(i, hn);
            assert forall|s: int| i + 1 <= s < l2.len() implies #[trigger] l2[s] == empty_spec() by {
                assert(leaves[s] == empty_spec());
            }
            lemma_tree_node_empty(l2, i + 1, hn, a + 1);
        } else if hn == trailing_zeros(i) {
            let j = (i - 1) as nat;
            lemma_previous_slot(i, hn);
            lemma_trailing_zeros(i, hn);
            lemma_path_climbs_tree(leaves, old_proof, j, hn);
            lemma_tree_node_local(leaves, i, leaf@, hn, shifted(j, hn));
        } else {
            let j = (i - 1) as nat;
            lemma_previous_slot(i, hn);
            assert(old_proof[h]@ == true_sibling(leaves, j, hn));
            if a % 2 == 0 {
                lemma_tree_node_local(leaves, i, leaf@, hn, a + 1);
            } else {
                lemma_tree_node_local(leaves, i, leaf@, hn, (a - 1) as nat);
            }
        }
    }
    lemma_path_climbs_tree(l2, p, i, d);
    lemma_shifted_past_end(i, d);
    assert(l2[i as int] == leaf@);
    assert(r->Ok_0@ == recompute_spec(leaf@, p, i));
}

/// The true sibling of `j` at height `h` is not in the subtree of `i` at that
/// height, so writing slot `i` leaves it as it was.
proof fn lemma_sibling_untouched(leaves: Seq<Seq<u8>>, i: nat, j: nat, x: Seq<u8>, h: nat)
    requires
        i < leaves.len(),
        shifted(i, h) != (if shifted(j, h) % 2 == 0 {
            shifted(j, h) + 1
        } else {
            (shifted(j, h) - 1) as nat
        }),
    ensures
        true_sibling(leaves.update(i as int, x), j, h) == true_sibling(leaves, j, h),
{
    let a = shifted(j, h);
    if a % 2 == 0 {
        lemma_tree_node_local(leaves, i, x, h, a + 1);
    } else {
        lemma_tree_node_local(leaves, i, x, h, (a - 1) as nat);
    }
}

/// Writing a leaf with its true sibling path in the current tree gives a
/// roll that stands for that tree with the leaf replaced: the new root is the
/// root of the tree with leaf `index` set to `new_leaf`.
pub proof fn lemma_set_leaf_models_tree(
    before: MerkleRoll,
    after: MerkleRoll,
    leaves: Seq<Seq<u8>>,
    previous_leaf: Seq<u8>,
    new_leaf: Node,
    proof: Seq<Node>,
    index: u32,
    r: Result<Node, CMTError>,
)
    requires
        before.wf(),
        before.is_active(),
        models(before, leaves),
        before.set_leaf_post(&after, before.current_root(), previous_leaf, new_leaf, proof, index, r),
        r is Ok,
        proof.len() == before.max_depth,
        (index as nat) < leaves.len(),
        forall|h: int| 0 <= h < before.max_depth ==> #[trigger] proof[h]@ == true_sibling(leaves, index as nat, h as nat),
    ensures
        models(after, leaves.update(index as int, new_leaf@)),
{
    let d = before.max_depth as nat;
    let i = index as nat;
    let rp = before.rightmost_proof;
    let l2 = leaves.update(i as int, new_leaf@);
    let cap = before.max_buffer_size as int;
    let a = before.active_index as int;
    assert((a + cap - 0nat % (cap as nat)) % cap == a) by {
        vstd::arithmetic::div_mod::lemma_mod_add_multiples_vanish(a, cap);
        vstd::arithmetic::div_mod::lemma_small_mod(a as nat, cap as nat);
        vstd::arithmetic::div_mod::lemma_small_mod(0, cap as nat);
    }
    assert(before.slot(0) == a);
    assert(before.find_root(before.current_root(), 0) == Some(0nat));
    assert(before.fast_forward(proof, i, 0) == proof);
    assert forall|h: int| 0 <= h < d implies #[trigger] proof[h]@ == true_sibling(l2, i, h as nat) by {
        lemma_shifted_step(i, h as nat);
        lemma_sibling_untouched(leaves, i, i, new_leaf@, h as nat);
    }
    lemma_path_climbs_tree(l2, proof, i, d);
    lemma_shifted_past_end(i, d);
    assert(l2[i as int] == new_leaf@);
    if index == rp.index {
        assert forall|s: int| after.rightmost_proof.index <= s < l2.len() implies #[trigger] l2[s] == empty_spec() by {
            assert(leaves[s] == empty_spec());
        }
    } else {
        let last = (rp.index - 1) as nat;
        let log = after.change_logs@[after.active_index as int];
        assert(log.index == index);
        assert forall|s: int| after.rightmost_proof.index <= s < l2.len() implies #[trigger] l2[s] == empty_spec() by {
            assert(leaves[s] == empty_spec());
        }
        if i == last {
            assert forall|h: int| 0 <= h < d implies #[trigger] after.rightmost_proof.proof@[h]@ == true_sibling(l2, last, h as nat) by {
                lemma_sibling_untouched(leaves, i, last, new_leaf@, h as nat);
            }
        } else {
            lemma_diverge_bound(last, i, d);
            let k = diverge(last, i) - 1;
            assert(diverge(last, i) >= 1);
            assert(views(log.path@).len() == log.path@.len());
            assert(log.path@.len() == d);
            assert(after.rightmost_proof.proof@ == rp.proof@.update(k, log.path@[k]));
            assert(log.path@[k]@ == views(log.path@)[k]);
            assert(views(log.path@)[k] == node_at(new_leaf@, proof, i, k as nat));
            lemma_path_climbs_tree(l2, proof, i, k as nat);
            assert forall|h: int| 0 <= h < d implies #[trigger] after.rightmost_proof.proof@[h]@ == true_sibling(l2, last, h as nat) by {
                lemma_meeting_point(last, i, h as nat);
                if h != k {
                    lemma_sibling_untouched(leaves, i, last, new_leaf@, h as nat);
                }
            }
        }
    }
}

/// A roll initialized from the root of the tree over `leaves`, its last
/// filled leaf and that leaf's true sibling path stands for that tree.
pub proof fn lemma_initialize_with_root_models_tree(
    before: MerkleRoll,
    after: MerkleRoll,
    leaves: Seq<Seq<u8>>,
    root: Node,
    rightmost_leaf: Node,
    proof: Seq<Node>,
    index: u32,
    r: Result<Node, CMTError>,
)
    requires
        before.wf(),
        before.initialize_with_root_post(&after, root, rightmost_leaf, proof, index, r),
        r is Ok,
        leaves.len() == leaf_count(before.max_depth as nat),
        root@ == tree_node(leaves, before.max_depth as nat, 0),
        forall|s: int| index <= s < leaves.len() ==> #[trigger] leaves[s] == empty_spec(),
        index >= 1,
        rightmost_leaf@ == leaves[index - 1],
        proof.len() == before.max_depth,
        forall|h: int| 0 <= h < before.max_depth ==> #[trigger] proof[h]@ == true_sibling(leaves, (index - 1) as nat, h as nat),
    ensures
        models(after, leaves),
{
}

/// In a roll that stands for the tree over `leaves`, every leaf is proved
/// against the current root by its true sibling path.
pub proof fn lemma_true_path_proves(m: MerkleRoll, leaves: Seq<Seq<u8>>, proof: Seq<Node>, index: nat)
    requires
        m.wf(),
        m.is_active(),
        models(m, leaves),
        index < leaves.len(),
        proof.len() == m.max_depth,
        forall|h: int| 0 <= h < m.max_depth ==> #[trigger] proof[h]@ == true_sibling(leaves, index, h as nat),
    ensures
        m.check_leaf(m.current_root(), leaves[index as int], proof, index) == Ok::<Seq<Node>, CMTError>(proof),
{
    let cap = m.max_buffer_size as int;
    let a = m.active_index as int;
    assert((a + cap - 0nat % (cap as nat)) % cap == a) by {
        vstd::arithmetic::div_mod::lemma_mod_add_multiples_vanish(a, cap);
        vstd::arithmetic::div_mod::lemma_small_mod(a as nat, cap as nat);
        vstd::arithmetic::div_mod::lemma_small_mod(0, cap as nat);
    }
    assert(m.slot(0) == a);
    assert(m.find_root(m.current_root(), 0) == Some(0nat));
    lemma_path_climbs_tree(leaves, proof, index, m.max_depth as nat);
    lemma_shifted_past_end(index, m.max_depth as nat);
}

proof fn lemma_same_state_find_root(a: MerkleRoll, b: MerkleRoll, root: Seq<u8>, d: nat)
    requires
        a.wf(),
        same_state(a, b),
    ensures
        a.find_root(root, d) == b.find_root(root, d),
    decreases a.buffer_size - d,
{
    if d < a.buffer_size {
        assert(0 <= a.slot(d) < a.max_buffer_size) by {
            vstd::arithmetic::div_mod::lemma_mod_bound(
                (a.active_index + a.max_buffer_size - d % (a.max_buffer_size as nat)) as int,
                a.max_buffer_size as int,
            );
        }
        lemma_same_state_find_root(a, b, root, d + 1);
    }
}

proof fn lemma_same_state_fast_forward(a: MerkleRoll, b: MerkleRoll, proof: Seq<Node>, index: nat, d: nat)
    requires
        a.wf(),
        same_state(a, b),
    ensures
        a.fast_forward(proof, index, d) == b.fast_forward(proof, index, d),
    decreases d,
{
    if d > 0 {
        let e = (d - 1) as nat;
        assert(0 <= a.slot(e) < a.max_buffer_size) by {
            vstd::arithmetic::div_mod::lemma_mod_bound(
                (a.active_index + a.max_buffer_size - e % (a.max_buffer_size as nat)) as int,
                a.max_buffer_size as int,
            );
        }
        assert(patch(proof, a.log_at(e), index) == patch(proof, b.log_at(e), index));
        lemma_same_state_fast_forward(a, b, patch(proof, a.log_at(e), index), index, e);
    }
}

/// Two rolls in the same state give the same outcome to every proof check,
/// so `prove_leaf` answers alike on both and `set_leaf` fails or succeeds
/// alike, over the same reconciled proof.
pub proof fn lemma_same_state_same_checks(
    a: MerkleRoll,
    b: MerkleRoll,
    root: Seq<u8>,
    leaf: Seq<u8>,
    proof: Seq<Node>,
    index: nat,
)
    requires
        a.wf(),
        same_state(a, b),
    ensures
        a.check_leaf(root, leaf, proof, index) == b.check_leaf(root, leaf, proof, index),
        a.set_leaf_check(root, leaf, proof, index) == b.set_leaf_check(root, leaf, proof, index),
{
    lemma_same_state_find_root(a, b, root, 0);
    lemma_same_state_fast_forward(a, b, proof, index, a.buffer_size as nat);
    if let Some(d) = a.find_root(root, 0) {
        lemma_same_state_fast_forward(a, b, proof, index, d);
    }
}

/// Publishing the same change-log on two rolls in the same state leaves
/// their change-logs and counters in the same state.
proof fn lemma_same_publish(
    a: MerkleRoll,
    b: MerkleRoll,
    a2: MerkleRoll,
    b2: MerkleRoll,
    root: Seq<u8>,
    path: Seq<Seq<u8>>,
    index: u32,
)
    requires
        same_state(a, b),
        a.publishes(&a2, root, path, index),
        b.publishes(&b2, root, path, index),
    ensures
        a2.change_logs@[a2.active_index as int].path@ == b2.change_logs@[b2.active_index as int].path@,
        forall|k: int| 0 <= k < a2.change_logs@.len() ==> {
            &&& (#[trigger] a2.change_logs@[k]).root == b2.change_logs@[k].root
            &&& a2.change_logs@[k].path@ == b2.change_logs@[k].path@
            &&& a2.change_logs@[k].index == b2.change_logs@[k].index
        },
{
    let ca = a2.change_logs@[a2.active_index as int];
    let cb = b2.change_logs@[b2.active_index as int];
    assert(views(ca.path@).len() == ca.path@.len());
    assert(views(cb.path@).len() == cb.path@.len());
    assert forall|h: int| 0 <= h < ca.path@.len() implies ca.path@[h] == cb.path@[h] by {
        assert(views(ca.path@)[h] == ca.path@[h]@);
        assert(views(cb.path@)[h] == cb.path@[h]@);
        lemma_node_eq(ca.path@[h], cb.path@[h]);
    }
    assert(ca.path@ =~= cb.path@);
    lemma_node_eq(ca.root, cb.root);
    assert forall|k: int| 0 <= k < a2.change_logs@.len() implies {
        &&& (#[trigger] a2.change_logs@[k]).root == b2.change_logs@[k].root
        &&& a2.change_logs@[k].path@ == b2.change_logs@[k].path@
        &&& a2.change_logs@[k].index == b2.change_logs@[k].index
    } by {
        if k != a2.active_index {
            assert(a2.change_logs@[k] == a.change_logs@[k]);
            assert(b2.change_logs@[k] == b.change_logs@[k]);
        }
    }
}

/// Appending the same leaf to two rolls in the same state returns the same
/// result and leaves them in the same state again.
pub proof fn lemma_same_state_same_append(
    a: MerkleRoll,
    b: MerkleRoll,
    a2: MerkleRoll,
    b2: MerkleRoll,
    leaf: Node,
    ra: Result<Node, CMTError>,
    rb: Result<Node, CMTError>,
)
    requires
        a.wf(),
        same_state(a, b),
        a.append_post(&a2, leaf, ra),
        b.append_post(&b2, leaf, rb),
    ensures
        ra == rb,
        same_state(a2, b2),
{
    let i = a.rightmost_proof.index;
    if (i as nat) < leaf_count(a.max_depth as nat) {
        let pa = a2.rightmost_proof.proof@;
        let pb = b2.rightmost_proof.proof@;
        assert forall|h: int| 0 <= h < pa.len() implies pa[h] == pb[h] by {
            lemma_node_eq(pa[h], pb[h]);
        }
        assert(pa =~= pb);
        lemma_node_eq(ra->Ok_0, rb->Ok_0);
        lemma_same_publish(a, b, a2, b2, ra->Ok_0@, path_spec(leaf@, pa, i as nat), i);
    }
}

/// Setting the same leaf on two rolls in the same state returns the same
/// result and leaves them in the same state again.
pub proof fn lemma_same_state_same_set_leaf(
    a: MerkleRoll,
    b: MerkleRoll,
    a2: MerkleRoll,
    b2: MerkleRoll,
    root: Seq<u8>,
    previous_leaf: Seq<u8>,
    new_leaf: Node,
    proof: Seq<Node>,
    index: u32,
    ra: Result<Node, CMTError>,
    rb: Result<Node, CMTError>,
)
    requires
        a.wf(),
        same_state(a, b),
        a.set_leaf_post(&a2, root, previous_leaf, new_leaf, proof, index, ra),
        b.set_leaf_post(&b2, root, previous_leaf, new_leaf, proof, index, rb),
    ensures
        ra == rb,
        same_state(a2, b2),
{
    lemma_same_state_same_checks(a, b, root, previous_leaf, proof, index as nat);
    if let Ok(ff) = a.set_leaf_check(root, previous_leaf, proof, index as nat) {
        lemma_node_eq(ra->Ok_0, rb->Ok_0);
        lemma_same_publish(a, b, a2, b2, ra->Ok_0@, path_spec(new_leaf@, ff, index as nat), index);
    }
}

} // verus!
