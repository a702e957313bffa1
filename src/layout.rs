use vstd::prelude::*;
use crate::node::Node;
use crate::roll::{ChangeLog, MerkleRoll, Path, leaf_count, leaf_count_of, MAX_SUPPORTED_DEPTH};

verus! {

/// The eight little-endian bytes of `x`.
pub open spec fn u64_le(x: u64) -> Seq<u8> {
    seq![
        x as u8,
        (x >> 8) as u8,
        (x >> 16) as u8,
        (x >> 24) as u8,
        (x >> 32) as u8,
        (x >> 40) as u8,
        (x >> 48) as u8,
        (x >> 56) as u8,
    ]
}

/// The four little-endian bytes of `x`.
pub open spec fn u32_le(x: u32) -> Seq<u8> {
    seq![x as u8, (x >> 8) as u8, (x >> 16) as u8, (x >> 24) as u8]
}

/// The nodes' bytes, one after another.
pub open spec fn nodes_bytes(s: Seq<Node>) -> Seq<u8>
    decreases s.len(),
{
    if s.len() == 0 {
        Seq::empty()
    } else {
        nodes_bytes(s.drop_last()) + s.last()@
    }
}

/// One change-log: root, path, index, and four zero bytes of padding.
pub open spec fn log_bytes(c: ChangeLog) -> Seq<u8> {
    c.root@ + nodes_bytes(c.path@) + u32_le(c.index) + seq![0u8, 0u8, 0u8, 0u8]
}

/// The change-logs' bytes, one after another.
pub open spec fn logs_bytes(s: Seq<ChangeLog>) -> Seq<u8>
    decreases s.len(),
{
    if s.len() == 0 {
        Seq::empty()
    } else {
        logs_bytes(s.drop_last()) + log_bytes(s.last())
    }
}

/// The byte layout of a roll: counters, change-logs, rightmost proof, its
/// index and its leaf, little-endian and packed in that order.
pub open spec fn encode(m: MerkleRoll) -> Seq<u8> {
    u64_le(m.sequence_number) + u64_le(m.active_index) + u64_le(m.buffer_size) + logs_bytes(
        m.change_logs@,
    ) + nodes_bytes(m.rightmost_proof.proof@) + u32_le(m.rightmost_proof.index)
        + m.rightmost_proof.leaf@
}

/// The number of bytes of one change-log in a tree of depth `depth`.
pub open spec fn log_len(depth: nat) -> nat {
    40 + 32 * depth
}

/// The number of bytes of a roll of the given depth and ring capacity.
pub open spec fn encoded_len(depth: nat, capacity: nat) -> nat {
    24 + capacity * log_len(depth) + 32 * depth + 36
}

/// What reading `bytes` as a roll of the given shape gives: a well-formed
/// roll whose layout is exactly `bytes`, or `None` when there is none.
pub open spec fn decoded(bytes: Seq<u8>, max_depth: usize, max_buffer_size: usize, r: Option<MerkleRoll>) -> bool {
    &&& r matches Some(m) ==> {
        &&& m.wf()
        &&& m.max_depth == max_depth
        &&& m.max_buffer_size == max_buffer_size
        &&& encode(m) == bytes
    }
    &&& r is None ==> forall|m: MerkleRoll|
        m.wf() && m.max_depth == max_depth && m.max_buffer_size == max_buffer_size
            ==> #[trigger] encode(m) != bytes
}

/// Whether two rolls hold the same state, field by field.
pub open spec fn same_state(a: MerkleRoll, b: MerkleRoll) -> bool {
    &&& a.max_depth == b.max_depth
    &&& a.max_buffer_size == b.max_buffer_size
    &&& a.sequence_number == b.sequence_number
    &&& a.active_index == b.active_index
    &&& a.buffer_size == b.buffer_size
    &&& a.change_logs@.len() == b.change_logs@.len()
    &&& forall|k: int|
        0 <= k < a.change_logs@.len() ==> {
            &&& (#[trigger] a.change_logs@[k]).root == b.change_logs@[k].root
            &&& a.change_logs@[k].path@ == b.change_logs@[k].path@
            &&& a.change_logs@[k].index == b.change_logs@[k].index
        }
    &&& a.rightmost_proof.proof@ == b.rightmost_proof.proof@
    &&& a.rightmost_proof.leaf == b.rightmost_proof.leaf
    &&& a.rightmost_proof.index == b.rightmost_proof.index
}

/// Every change-log of `s` has a path of `depth` nodes.
pub open spec fn paths_sized(s: Seq<ChangeLog>, depth: nat) -> bool {
    forall|k: int| 0 <= k < s.len() ==> (#[trigger] s[k]).path@.len() == depth
}

proof fn lemma_concat_split(a1: Seq<u8>, b1: Seq<u8>, a2: Seq<u8>, b2: Seq<u8>)
    requires
        a1 + b1 == a2 + b2,
        a1.len() == a2.len(),
    ensures
        a1 == a2,
        b1 == b2,
{
    assert(a1 =~= (a1 + b1).subrange(0, a1.len() as int));
    assert(a2 =~= (a2 + b2).subrange(0, a2.len() as int));
    assert(b1 =~= (a1 + b1).subrange(a1.len() as int, (a1 + b1).len() as int));
    assert(b2 =~= (a2 + b2).subrange(a2.len() as int, (a2 + b2).len() as int));
}

pub proof fn lemma_node_eq(a: Node, b: Node)
    requires
        a@ == b@,
    ensures
        a == b,
{
    assert forall|i: int| 0 <= i < 32 implies a[i] == b[i] by {
        assert(a@[i] == b@[i]);
    }
    assert(a =~= b);
}

proof fn lemma_u64_le_injective(x: u64, y: u64)
    requires
        u64_le(x) == u64_le(y),
    ensures
        x == y,
{
    assert(u64_le(x)[0] == u64_le(y)[0]);
    assert(u64_le(x)[1] == u64_le(y)[1]);
    assert(u64_le(x)[2] == u64_le(y)[2]);
    assert(u64_le(x)[3] == u64_le(y)[3]);
    assert(u64_le(x)[4] == u64_le(y)[4]);
    assert(u64_le(x)[5] == u64_le(y)[5]);
    assert(u64_le(x)[6] == u64_le(y)[6]);
    assert(u64_le(x)[7] == u64_le(y)[7]);
    assert((x as u8 == y as u8 && (x >> 8) as u8 == (y >> 8) as u8 && (x >> 16) as u8 == (y >> 16) as u8
        && (x >> 24) as u8 == (y >> 24) as u8 && (x >> 32) as u8 == (y >> 32) as u8 && (x >> 40) as u8
        == (y >> 40) as u8 && (x >> 48) as u8 == (y >> 48) as u8 && (x >> 56) as u8 == (y >> 56) as u8)
        ==> x == y) by (bit_vector);
}

proof fn lemma_u32_le_injective(x: u32, y: u32)
    requires
        u32_le(x) == u32_le(y),
    ensures
        x == y,
{
    assert(u32_le(x)[0] == u32_le(y)[0]);
    assert(u32_le(x)[1] == u32_le(y)[1]);
    assert(u32_le(x)[2] == u32_le(y)[2]);
    assert(u32_le(x)[3] == u32_le(y)[3]);
    assert((x as u8 == y as u8 && (x >> 8) as u8 == (y >> 8) as u8 && (x >> 16) as u8 == (y >> 16) as u8
        && (x >> 24) as u8 == (y >> 24) as u8) ==> x == y) by (bit_vector);
}

proof fn lemma_nodes_bytes_len(s: Seq<Node>)
    ensures
        nodes_bytes(s).len() == 32 * s.len(),
    decreases s.len(),
{
    if s.len() > 0 {
        lemma_nodes_bytes_len(s.drop_last());
    }
}

proof fn lemma_nodes_bytes_injective(s1: Seq<Node>, s2: Seq<Node>)
    requires
        s1.len() == s2.len(),
        nodes_bytes(s1) == nodes_bytes(s2),
    ensures
        s1 == s2,
    decreases s1.len(),
{
    if s1.len() > 0 {
        lemma_nodes_bytes_len(s1.drop_last());
        lemma_nodes_bytes_len(s2.drop_last());
        lemma_concat_split(nodes_bytes(s1.drop_last()), s1.last()@, nodes_bytes(s2.drop_last()), s2.last()@);
        lemma_nodes_bytes_injective(s1.drop_last(), s2.drop_last());
        lemma_node_eq(s1.last(), s2.last());
        assert(s1 =~= s1.drop_last().push(s1.last()));
        assert(s2 =~= s2.drop_last().push(s2.last()));
    } else {
        assert(s1 =~= s2);
    }
}

proof fn lemma_log_bytes_len(c: ChangeLog, depth: nat)
    requires
        c.path@.len() == depth,
    ensures
        log_bytes(c).len() == log_len(depth),
{
    lemma_nodes_bytes_len(c.path@);
}

proof fn lemma_logs_bytes_len(s: Seq<ChangeLog>, depth: nat)
    requires
        paths_sized(s, depth),
    ensures
        logs_bytes(s).len() == s.len() * log_len(depth),
    decreases s.len(),
{
    if s.len() > 0 {
        lemma_logs_bytes_len(s.drop_last(), depth);
        lemma_log_bytes_len(s.last(), depth);
        assert(s.len() * log_len(depth) == (s.len() - 1) * log_len(depth) + log_len(depth))
            by (nonlinear_arith);
    }
}

proof fn lemma_log_bytes_injective(c1: ChangeLog, c2: ChangeLog, depth: nat)
    requires
        c1.path@.len() == depth,
        c2.path@.len() == depth,
        log_bytes(c1) == log_bytes(c2),
    ensures
        c1.root == c2.root,
        c1.path@ == c2.path@,
        c1.index == c2.index,
{
    let pad = seq![0u8, 0u8, 0u8, 0u8];
    lemma_nodes_bytes_len(c1.path@);
    lemma_nodes_bytes_len(c2.path@);
    lemma_concat_split(c1.root@ + nodes_bytes(c1.path@) + u32_le(c1.index), pad, c2.root@ + nodes_bytes(c2.path@) + u32_le(c2.index), pad);
    lemma_concat_split(c1.root@ + nodes_bytes(c1.path@), u32_le(c1.index), c2.root@ + nodes_bytes(c2.path@), u32_le(c2.index));
    lemma_concat_split(c1.root@, nodes_bytes(c1.path@), c2.root@, nodes_bytes(c2.path@));
    lemma_u32_le_injective(c1.index, c2.index);
    lemma_nodes_bytes_injective(c1.path@, c2.path@);
    lemma_node_eq(c1.root, c2.root);
}

proof fn lemma_logs_bytes_injective(s1: Seq<ChangeLog>, s2: Seq<ChangeLog>, depth: nat)
    requires
        s1.len() == s2.len(),
        paths_sized(s1, depth),
        paths_sized(s2, depth),
        logs_bytes(s1) == logs_bytes(s2),
    ensures
        forall|k: int|
            0 <= k < s1.len() ==> {
                &&& (#[trigger] s1[k]).root == s2[k].root
                &&& s1[k].path@ == s2[k].path@
                &&& s1[k].index == s2[k].index
            },
    decreases s1.len(),
{
    if s1.len() > 0 {
        let n = s1.len() - 1;
        assert(paths_sized(s1.drop_last(), depth));
        assert(paths_sized(s2.drop_last(), depth));
        lemma_logs_bytes_len(s1.drop_last(), depth);
        lemma_logs_bytes_len(s2.drop_last(), depth);
        lemma_concat_split(logs_bytes(s1.drop_last()), log_bytes(s1.last()), logs_bytes(s2.drop_last()), log_bytes(s2.last()));
        lemma_logs_bytes_injective(s1.drop_last(), s2.drop_last(), depth);
        lemma_log_bytes_injective(s1.last(), s2.last(), depth);
        assert forall|k: int| 0 <= k < s1.len() implies {
            &&& (#[trigger] s1[k]).root == s2[k].root
            &&& s1[k].path@ == s2[k].path@
            &&& s1[k].index == s2[k].index
        } by {
            if k < n {
                assert(s1.drop_last()[k] == s1[k]);
                assert(s2.drop_last()[k] == s2[k]);
            }
        }
    }
}

/// Two rolls of one shape with the same bytes hold the same state.
pub proof fn lemma_encode_injective(a: MerkleRoll, b: MerkleRoll)
    requires
        a.max_depth == b.max_depth,
        a.max_buffer_size == b.max_buffer_size,
        a.change_logs@.len() == a.max_buffer_size,
        b.change_logs@.len() == b.max_buffer_size,
        paths_sized(a.change_logs@, a.max_depth as nat),
        paths_sized(b.change_logs@, b.max_depth as nat),
        a.rightmost_proof.proof@.len() == a.max_depth,
        b.rightmost_proof.proof@.len() == b.max_depth,
        encode(a) == encode(b),
    ensures
        same_state(a, b),
{
    let d = a.max_depth as nat;
    let (ra, rb) = (a.rightmost_proof, b.rightmost_proof);
    let ha = u64_le(a.sequence_number) + u64_le(a.active_index) + u64_le(a.buffer_size);
    let hb = u64_le(b.sequence_number) + u64_le(b.active_index) + u64_le(b.buffer_size);
    lemma_logs_bytes_len(a.change_logs@, d);
    lemma_logs_bytes_len(b.change_logs@, d);
    lemma_nodes_bytes_len(ra.proof@);
    lemma_nodes_bytes_len(rb.proof@);
    lemma_concat_split(
        ha + logs_bytes(a.change_logs@) + nodes_bytes(ra.proof@) + u32_le(ra.index),
        ra.leaf@,
        hb + logs_bytes(b.change_logs@) + nodes_bytes(rb.proof@) + u32_le(rb.index),
        rb.leaf@,
    );
    lemma_concat_split(
        ha + logs_bytes(a.change_logs@) + nodes_bytes(ra.proof@),
        u32_le(ra.index),
        hb + logs_bytes(b.change_logs@) + nodes_bytes(rb.proof@),
        u32_le(rb.index),
    );
    lemma_concat_split(ha + logs_bytes(a.change_logs@), nodes_bytes(ra.proof@), hb + logs_bytes(b.change_logs@), nodes_bytes(rb.proof@));
    lemma_concat_split(ha, logs_bytes(a.change_logs@), hb, logs_bytes(b.change_logs@));
    lemma_concat_split(u64_le(a.sequence_number) + u64_le(a.active_index), u64_le(a.buffer_size), u64_le(b.sequence_number) + u64_le(b.active_index), u64_le(b.buffer_size));
    lemma_concat_split(u64_le(a.sequence_number), u64_le(a.active_index), u64_le(b.sequence_number), u64_le(b.active_index));
    lemma_u64_le_injective(a.sequence_number, b.sequence_number);
    lemma_u64_le_injective(a.active_index, b.active_index);
    lemma_u64_le_injective(a.buffer_size, b.buffer_size);
    lemma_u32_le_injective(ra.index, rb.index);
    lemma_node_eq(ra.leaf, rb.leaf);
    lemma_nodes_bytes_injective(ra.proof@, rb.proof@);
    lemma_logs_bytes_injective(a.change_logs@, b.change_logs@, d);
}

proof fn lemma_logs_bytes_index(s: Seq<ChangeLog>, depth: nat, k: int, j: int)
    requires
        paths_sized(s, depth),
        0 <= k < s.len(),
        0 <= j < log_len(depth),
    ensures
        k * log_len(depth) + j < logs_bytes(s).len(),
        logs_bytes(s)[k * log_len(depth) + j] == log_bytes(s[k])[j],
    decreases s.len(),
{
    let n = s.len() as int;
    let l = log_len(depth) as int;
    assert(paths_sized(s.drop_last(), depth));
    lemma_logs_bytes_len(s.drop_last(), depth);
    lemma_logs_bytes_len(s, depth);
    lemma_log_bytes_len(s.last(), depth);
    if k < n - 1 {
        assert(k * l + j < (n - 1) * l) by (nonlinear_arith)
            requires
                0 <= k < n - 1,
                0 <= j < l,
        ;
        lemma_logs_bytes_index(s.drop_last(), depth, k, j);
        assert(s.drop_last()[k] == s[k]);
    } else {
        assert(k * l == (n - 1) * l);
    }
    assert(k * l + j < n * l) by (nonlinear_arith)
        requires
            0 <= k < n,
            0 <= j < l,
    ;
}

/// The padding after each change-log is zero.
proof fn lemma_padding_is_zero(m: MerkleRoll, k: int, t: int)
    requires
        m.wf(),
        0 <= k < m.max_buffer_size,
        0 <= t < 4,
    ensures
        24 + k * log_len(m.max_depth as nat) + 36 + 32 * m.max_depth + t < encode(m).len(),
        encode(m)[24 + k * log_len(m.max_depth as nat) + 36 + 32 * m.max_depth + t] == 0,
{
    let d = m.max_depth as nat;
    let s = m.change_logs@;
    assert(paths_sized(s, d));
    lemma_nodes_bytes_len(s[k].path@);
    lemma_logs_bytes_len(s, d);
    lemma_logs_bytes_index(s, d, k, 36 + 32 * d + t);
}

/// The bytes of every well-formed roll of one shape have the same length.
proof fn lemma_encode_len(m: MerkleRoll)
    requires
        m.wf(),
    ensures
        encode(m).len() == encoded_len(m.max_depth as nat, m.max_buffer_size as nat),
{
    assert(paths_sized(m.change_logs@, m.max_depth as nat));
    lemma_logs_bytes_len(m.change_logs@, m.max_depth as nat);
    lemma_nodes_bytes_len(m.rightmost_proof.proof@);
}

fn push_u64(v: &mut Vec<u8>, x: u64)
    ensures
        final(v)@ == old(v)@ + u64_le(x),
{
    let ghost start = v@;
    v.push(x as u8);
    v.push((x >> 8) as u8);
    v.push((x >> 16) as u8);
    v.push((x >> 24) as u8);
    v.push((x >> 32) as u8);
    v.push((x >> 40) as u8);
    v.push((x >> 48) as u8);
    v.push((x >> 56) as u8);
    assert(v@ =~= start + u64_le(x));
}

fn push_u32(v: &mut Vec<u8>, x: u32)
    ensures
        final(v)@ == old(v)@ + u32_le(x),
{
    let ghost start = v@;
    v.push(x as u8);
    v.push((x >> 8) as u8);
    v.push((x >> 16) as u8);
    v.push((x >> 24) as u8);
    assert(v@ =~= start + u32_le(x));
}

fn push_node(v: &mut Vec<u8>, n: &Node)
    ensures
        final(v)@ == old(v)@ + n@,
{
    let ghost start = v@;
    let mut i: usize = 0;
    while i < 32
        invariant
            0 <= i <= 32,
            v@ =~= start + n@.take(i as int),
        decreases 32 - i,
    {
        v.push(n[i]);
        i = i + 1;
    }
    assert(v@ =~= start + n@);
}

fn push_nodes(v: &mut Vec<u8>, s: &Vec<Node>)
    ensures
        final(v)@ == old(v)@ + nodes_bytes(s@),
{
    let ghost start = v@;
    let mut k: usize = 0;
    while k < s.len()
        invariant
            0 <= k <= s@.len(),
            v@ == start + nodes_bytes(s@.take(k as int)),
        decreases s@.len() - k,
    {
        assert(s@.take(k as int + 1).drop_last() =~= s@.take(k as int));
        push_node(v, &s[k]);
        k = k + 1;
        assert(v@ =~= start + nodes_bytes(s@.take(k as int)));
    }
    assert(s@.take(k as int) =~= s@);
}

fn push_log(v: &mut Vec<u8>, c: &ChangeLog)
    ensures
        final(v)@ == old(v)@ + log_bytes(*c),
{
    let ghost start = v@;
    push_node(v, &c.root);
    push_nodes(v, &c.path);
    push_u32(v, c.index);
    v.push(0);
    v.push(0);
    v.push(0);
    v.push(0);
    assert(v@ =~= start + log_bytes(*c));
}

fn read_u64(b: &Vec<u8>, pos: usize) -> (r: u64)
    requires
        pos + 8 <= b@.len(),
    ensures
        u64_le(r) == b@.subrange(pos as int, pos + 8),
{
    let _len = b.len();
    let x0 = b[pos];
    let x1 = b[pos + 1];
    let x2 = b[pos + 2];
    let x3 = b[pos + 3];
    let x4 = b[pos + 4];
    let x5 = b[pos + 5];
    let x6 = b[pos + 6];
    let x7 = b[pos + 7];
    let r: u64 = (x0 as u64) | ((x1 as u64) << 8) | ((x2 as u64) << 16) | ((x3 as u64) << 24) | ((x4 as u64) << 32)
        | ((x5 as u64) << 40) | ((x6 as u64) << 48) | ((x7 as u64) << 56);
    assert(r as u8 == x0 && (r >> 8) as u8 == x1 && (r >> 16) as u8 == x2 && (r >> 24) as u8 == x3
        && (r >> 32) as u8 == x4 && (r >> 40) as u8 == x5 && (r >> 48) as u8 == x6 && (r >> 56) as u8 == x7)
        by (bit_vector)
        requires
            r == (x0 as u64) | ((x1 as u64) << 8) | ((x2 as u64) << 16) | ((x3 as u64) << 24) | ((x4 as u64) << 32)
                | ((x5 as u64) << 40) | ((x6 as u64) << 48) | ((x7 as u64) << 56),
    ;
    assert(u64_le(r) =~= b@.subrange(pos as int, pos + 8));
    r
}

fn read_u32(b: &Vec<u8>, pos: usize) -> (r: u32)
    requires
        pos + 4 <= b@.len(),
    ensures
        u32_le(r) == b@.subrange(pos as int, pos + 4),
{
    let _len = b.len();
    let x0 = b[pos];
    let x1 = b[pos + 1];
    let x2 = b[pos + 2];
    let x3 = b[pos + 3];
    let r: u32 = (x0 as u32) | ((x1 as u32) << 8) | ((x2 as u32) << 16) | ((x3 as u32) << 24);
    assert(r as u8 == x0 && (r >> 8) as u8 == x1 && (r >> 16) as u8 == x2 && (r >> 24) as u8 == x3)
        by (bit_vector)
        requires
            r == (x0 as u32) | ((x1 as u32) << 8) | ((x2 as u32) << 16) | ((x3 as u32) << 24),
    ;
    assert(u32_le(r) =~= b@.subrange(pos as int, pos + 4));
    r
}

fn read_node(b: &Vec<u8>, pos: usize) -> (r: Node)
    requires
        pos + 32 <= b@.len(),
    ensures
        r@ == b@.subrange(pos as int, pos + 32),
{
    let _len = b.len();
    let mut n: Node = [0u8; 32];
    let mut i: usize = 0;
    while i < 32
        invariant
            0 <= i <= 32,
            pos + 32 <= b@.len(),
            b@.len() <= usize::MAX,
            forall|k: int| 0 <= k < i ==> n@[k] == b@[pos + k],
        decreases 32 - i,
    {
        n[i] = b[pos + i];
        i = i + 1;
    }
    assert(n@ =~= b@.subrange(pos as int, pos + 32));
    n
}

fn read_nodes(b: &Vec<u8>, pos: usize, count: usize) -> (r: Vec<Node>)
    requires
        pos + 32 * count <= b@.len(),
    ensures
        r@.len() == count,
        nodes_bytes(r@) == b@.subrange(pos as int, pos + 32 * count),
{
    let _len = b.len();
    let mut r: Vec<Node> = Vec::new();
    let mut k: usize = 0;
    while k < count
        invariant
            0 <= k <= count,
            pos + 32 * count <= b@.len(),
            b@.len() <= usize::MAX,
            r@.len() == k,
            nodes_bytes(r@) == b@.subrange(pos as int, pos + 32 * k),
        decreases count - k,
    {
        let n = read_node(b, pos + 32 * k);
        let ghost before = r@;
        r.push(n);
        assert(r@.drop_last() =~= before);
        assert(b@.subrange(pos as int, pos + 32 * (k + 1)) =~= b@.subrange(pos as int, pos + 32 * k) + b@.subrange(pos + 32 * k, pos + 32 * k + 32));
        k = k + 1;
    }
    r
}

impl MerkleRoll {
    /// The roll in its byte layout.
    pub fn to_bytes(&self) -> (r: Vec<u8>)
        requires
            self.wf(),
        ensures
            r@ == encode(*self),
    {
        let mut v: Vec<u8> = Vec::new();
        push_u64(&mut v, self.sequence_number);
        push_u64(&mut v, self.active_index);
        push_u64(&mut v, self.buffer_size);
        let ghost head = v@;
        let mut k: usize = 0;
        while k < self.change_logs.len()
            invariant
                0 <= k <= self.change_logs@.len(),
                v@ == head + logs_bytes(self.change_logs@.take(k as int)),
            decreases self.change_logs@.len() - k,
        {
            assert(self.change_logs@.take(k as int + 1).drop_last() =~= self.change_logs@.take(k as int));
            push_log(&mut v, &self.change_logs[k]);
            k = k + 1;
            assert(v@ =~= head + logs_bytes(self.change_logs@.take(k as int)));
        }
        assert(self.change_logs@.take(k as int) =~= self.change_logs@);
        push_nodes(&mut v, &self.rightmost_proof.proof);
        push_u32(&mut v, self.rightmost_proof.index);
        push_node(&mut v, &self.rightmost_proof.leaf);
        v
    }

    /// Reads a roll of the given depth and ring capacity from its byte
    /// layout; `None` when the bytes hold no well-formed roll of that shape.
    #[verifier::rlimit(40)]
    pub fn from_bytes(bytes: &Vec<u8>, max_depth: usize, max_buffer_size: usize) -> (r: Option<MerkleRoll>)
        requires
            1 <= max_depth <= MAX_SUPPORTED_DEPTH,
            1 <= max_buffer_size <= u32::MAX,
        ensures
            decoded(bytes@, max_depth, max_buffer_size, r),
    {
        let d = max_depth;
        let cap = max_buffer_size;
        let ll: u64 = 40 + 32 * (d as u64);
        proof {
            assert((cap as u64) * ll <= 0xffff_ffffu64 * 1000) by (nonlinear_arith)
                requires
                    cap <= 0xffff_ffff,
                    ll <= 1000,
            ;
        }
        let total: u64 = 24 + (cap as u64) * ll + 32 * (d as u64) + 36;
        let _len = bytes.len();
        if bytes.len() as u64 != total {
            proof {
                assert forall|m: MerkleRoll|
                    m.wf() && m.max_depth == max_depth && m.max_buffer_size == max_buffer_size
                        implies #[trigger] encode(m) != bytes@ by {
                    lemma_encode_len(m);
                }
            }
            return None;
        }
        let sequence_number = read_u64(bytes, 0);
        let active_index = read_u64(bytes, 8);
        let buffer_size = read_u64(bytes, 16);
        let ghost head = u64_le(sequence_number) + u64_le(active_index) + u64_le(buffer_size);
        assert(bytes@.subrange(0, 24) =~= head);
        assert(logs_bytes(Seq::<ChangeLog>::empty()) =~= Seq::<u8>::empty());
        let llu = ll as usize;
        let mut logs: Vec<ChangeLog> = Vec::new();
        let mut pos: usize = 24;
        let mut k: usize = 0;
        while k < cap
            invariant
                d == max_depth,
                cap == max_buffer_size,
                1 <= d <= MAX_SUPPORTED_DEPTH,
                bytes@.len() == total,
                bytes@.len() <= usize::MAX,
                total == 24 + cap * ll + 32 * d + 36,
                ll == 40 + 32 * d,
                llu == ll,
                0 <= k <= cap,
                logs@.len() == k,
                pos == 24 + k * ll,
                paths_sized(logs@, d as nat),
                bytes@.subrange(0, pos as int) == head + logs_bytes(logs@),
            decreases cap - k,
        {
            proof {
                assert((k + 1) * ll <= cap * ll) by (nonlinear_arith)
                    requires
                        k < cap,
                ;
                assert((k + 1) * ll == k * ll + ll) by (nonlinear_arith);
            }
            let root = read_node(bytes, pos);
            let path = read_nodes(bytes, pos + 32, d);
            let index = read_u32(bytes, pos + 32 + 32 * d);
            let p = pos + 36 + 32 * d;
            if bytes[p] != 0 || bytes[p + 1] != 0 || bytes[p + 2] != 0 || bytes[p + 3] != 0 {
                proof {
                    assert forall|m: MerkleRoll|
                        m.wf() && m.max_depth == max_depth && m.max_buffer_size == max_buffer_size
                            implies #[trigger] encode(m) != bytes@ by {
                        if encode(m) == bytes@ {
                            lemma_padding_is_zero(m, k as int, 0);
                            lemma_padding_is_zero(m, k as int, 1);
                            lemma_padding_is_zero(m, k as int, 2);
                            lemma_padding_is_zero(m, k as int, 3);
                        }
                    }
                }
                return None;
            }
            let c = ChangeLog { root, path, index };
            let ghost before = logs@;
            proof {
                lemma_nodes_bytes_len(c.path@);
                assert(bytes@.subrange(pos as int, pos + ll) =~= log_bytes(c));
                assert(bytes@.subrange(0, pos + ll) =~= bytes@.subrange(0, pos as int) + bytes@.subrange(pos as int, pos + ll));
            }
            logs.push(c);
            proof {
                assert(logs@.drop_last() =~= before);
            }
            pos = pos + llu;
            k = k + 1;
        }
        let proof_nodes = read_nodes(bytes, pos, d);
        let rightmost_index = read_u32(bytes, pos + 32 * d);
        let leaf = read_node(bytes, pos + 32 * d + 4);
        let m = MerkleRoll {
            max_depth: d,
            max_buffer_size: cap,
            sequence_number,
            active_index,
            buffer_size,
            change_logs: logs,
            rightmost_proof: Path { proof: proof_nodes, leaf, index: rightmost_index },
        };
        proof {
            assert(bytes@ =~= bytes@.subrange(0, pos as int) + bytes@.subrange(pos as int, pos + 32 * d) + bytes@.subrange(
                pos + 32 * d,
                pos + 32 * d + 4,
            ) + bytes@.subrange(pos + 32 * d + 4, total as int));
            assert(encode(m) =~= bytes@);
        }
        let count = leaf_count_of(d);
        let mut ok = active_index < cap as u64 && buffer_size <= cap as u64 && (buffer_size != 0 || sequence_number == 0)
            && rightmost_index <= count;
        let mut j: usize = 0;
        while j < cap
            invariant
                0 <= j <= cap,
                m.change_logs@.len() == cap,
                count as nat == leaf_count(d as nat),
                ok == ((active_index < cap && buffer_size <= cap && (buffer_size != 0 || sequence_number == 0)
                    && rightmost_index <= count) && forall|i: int| 0 <= i < j ==> (#[trigger] m.change_logs@[i]).index < count),
            decreases cap - j,
        {
            if m.change_logs[j].index >= count {
                ok = false;
            }
            j = j + 1;
        }
        if !ok {
            proof {
                assert forall|m2: MerkleRoll|
                    m2.wf() && m2.max_depth == max_depth && m2.max_buffer_size == max_buffer_size
                        implies #[trigger] encode(m2) != bytes@ by {
                    if encode(m2) == bytes@ {
                        assert(paths_sized(m2.change_logs@, d as nat));
                        lemma_encode_injective(m, m2);
                        assert forall|i: int| 0 <= i < cap implies (#[trigger] m.change_logs@[i]).index < count by {
                            assert(m2.change_logs@[i].index < count);
                        }
                    }
                }
            }
            return None;
        }
        Some(m)
    }
}

} // verus!
