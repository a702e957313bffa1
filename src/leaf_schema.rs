use vstd::prelude::*;
use crate::node::{Node, keccak, keccak_of};

verus! {

/// The sixteen little-endian bytes of `n`.
pub open spec fn u128_le(n: u128) -> Seq<u8> {
    Seq::new(16, |k: int| (n >> ((8 * k) as u128)) as u8)
}

/// The bytes hashed into a leaf: owner, delegate, little-endian nonce, data hash.
pub open spec fn leaf_preimage(owner: Seq<u8>, delegate: Seq<u8>, nonce: u128, data_hash: Seq<u8>) -> Seq<u8> {
    owner + delegate + u128_le(nonce) + data_hash
}

/// Appends the bytes of `src` to `dst`.
fn extend_bytes(dst: &mut Vec<u8>, src: &[u8; 32])
    ensures
        final(dst)@ == old(dst)@ + src@,
{
    let ghost start = dst@;
    let mut i: usize = 0;
    while i < 32
        invariant
            0 <= i <= 32,
            dst@ =~= start + src@.take(i as int),
        decreases 32 - i,
    {
        dst.push(src[i]);
        i = i + 1;
    }
    assert(dst@ =~= start + src@);
}

/// The leaf hash of the given fields.
fn hash_leaf(owner: &[u8; 32], delegate: &[u8; 32], nonce: u128, data_hash: &[u8; 32]) -> (r: Node)
    ensures
        r@ == keccak_of(leaf_preimage(owner@, delegate@, nonce, data_hash@)),
{
    let mut bytes: Vec<u8> = Vec::new();
    extend_bytes(&mut bytes, owner);
    extend_bytes(&mut bytes, delegate);
    let ghost head = bytes@;
    let mut k: u32 = 0;
    while k < 16
        invariant
            0 <= k <= 16,
            bytes@ =~= head + u128_le(nonce).take(k as int),
        decreases 16 - k,
    {
        bytes.push((nonce >> (8 * k)) as u8);
        k = k + 1;
    }
    assert(bytes@ =~= head + u128_le(nonce));
    extend_bytes(&mut bytes, data_hash);
    assert(bytes@ =~= leaf_preimage(owner@, delegate@, nonce, data_hash@));
    let none: Vec<u8> = Vec::new();
    let r = keccak(bytes.as_slice(), none.as_slice());
    assert(bytes@ + none@ =~= bytes@);
    r
}

/// A leaf described by its owner, delegate, nonce and the raw asset data.
pub struct RawLeafSchema {
    pub owner: [u8; 32],
    pub delegate: [u8; 32],
    pub nonce: u128,
    pub data: Vec<u8>,
}

impl RawLeafSchema {
    pub fn new(owner: [u8; 32], delegate: [u8; 32], nonce: u128, data: Vec<u8>) -> (r: Self)
        ensures
            r.owner == owner,
            r.delegate == delegate,
            r.nonce == nonce,
            r.data@ == data@,
    {
        RawLeafSchema { owner, delegate, nonce, data }
    }

    /// The leaf: keccak256 of owner, delegate, little-endian nonce and the
    /// keccak256 of the data.
    pub fn to_node(&self) -> (r: Node)
        ensures
            r@ == keccak_of(
                leaf_preimage(self.owner@, self.delegate@, self.nonce, keccak_of(self.data@)),
            ),
    {
        let none: Vec<u8> = Vec::new();
        let data_hash = keccak(self.data.as_slice(), none.as_slice());
        assert(self.data@ + none@ =~= self.data@);
        hash_leaf(&self.owner, &self.delegate, self.nonce, &data_hash)
    }
}

/// A leaf described by its owner, delegate, nonce and the hash of its data.
pub struct LeafSchema {
    pub owner: [u8; 32],
    pub delegate: [u8; 32],
    pub nonce: u128,
    pub data_hash: [u8; 32],
}

impl LeafSchema {
    pub fn new(owner: [u8; 32], delegate: [u8; 32], nonce: u128, data_hash: [u8; 32]) -> (r: Self)
        ensures
            r.owner == owner,
            r.delegate == delegate,
            r.nonce == nonce,
            r.data_hash == data_hash,
    {
        LeafSchema { owner, delegate, nonce, data_hash }
    }

    /// The leaf: keccak256 of owner, delegate, little-endian nonce and data hash.
    pub fn to_node(&self) -> (r: Node)
        ensures
            r@ == keccak_of(leaf_preimage(self.owner@, self.delegate@, self.nonce, self.data_hash@)),
    {
        hash_leaf(&self.owner, &self.delegate, self.nonce, &self.data_hash)
    }
}

} // verus!
