//! The node hasher: a Pedersen digest per node kind, with an edge node's path
//! length folded into the result by field addition.

use vstd::prelude::*;
use crate::bytes::{bits_val, p_val};
use crate::felt::Felt;

verus! {

/// The Pedersen hash of two field elements, as the outside implementation
/// computes it. The digest is a function of the two inputs alone; its value
/// is not axiomatised here.
pub uninterp spec fn pedersen_of(a: nat, b: nat) -> nat;

/// Field addition.
pub open spec fn fadd(a: nat, b: nat) -> nat {
    (a + b) % p_val()
}

/// Digest of a binary node from its two child digests.
pub open spec fn binary_hash(l: nat, r: nat) -> nat {
    pedersen_of(l, r)
}

/// Digest of an edge node from its child digest and its compressed path:
/// the Pedersen hash of the child and the path's value, plus the path's
/// bit-length in the field.
pub open spec fn edge_hash(child: nat, path: Seq<bool>) -> nat {
    fadd(pedersen_of(child, bits_val(path)), path.len() as nat)
}

/// Relies on starknet_types_core's Pedersen (`StarkHash::hash`): the digest
/// is a function of the two field elements alone and is itself a field
/// element.
#[verifier::external_body]
fn pedersen(a: &Felt, b: &Felt) -> (r: Felt)
    requires
        a.wf(),
        b.wf(),
    ensures
        r.wf(),
        r.val() == pedersen_of(a.val(), b.val()),
{
    let x = starknet_types_core::felt::Felt::from_bytes_be(a.bytes.as_slice().try_into().unwrap());
    let y = starknet_types_core::felt::Felt::from_bytes_be(b.bytes.as_slice().try_into().unwrap());
    let h = <starknet_types_core::hash::Pedersen as starknet_types_core::hash::StarkHash>::hash(&x, &y);
    Felt { bytes: h.to_bytes_be().to_vec() }
}

/// Relies on starknet_types_core's `Add<u64> for Felt`: addition modulo the
/// Stark prime, never overflowing.
#[verifier::external_body]
fn felt_add_u64(a: &Felt, n: u64) -> (r: Felt)
    requires
        a.wf(),
    ensures
        r.wf(),
        r.val() == fadd(a.val(), n as nat),
{
    let x = starknet_types_core::felt::Felt::from_bytes_be(a.bytes.as_slice().try_into().unwrap());
    let s = x + n;
    Felt { bytes: s.to_bytes_be().to_vec() }
}

/// Hash of a binary node: `H(left, right)`.
pub fn binary_node_hash(left: &Felt, right: &Felt) -> (r: Felt)
    requires
        left.wf(),
        right.wf(),
    ensures
        r.wf(),
        r.val() == binary_hash(left.val(), right.val()),
{
    pedersen(left, right)
}

/// Hash of an edge node (or of a leaf reached through a compressed path,
/// with `child` the leaf's value): `H(child, path) + path_length`.
pub fn edge_node_hash(child: &Felt, path: &Vec<bool>) -> (r: Felt)
    requires
        child.wf(),
        path@.len() <= 251,
    ensures
        r.wf(),
        r.val() == edge_hash(child.val(), path@),
{
    let pf = Felt::from_bits(path);
    let h = pedersen(child, &pf);
    felt_add_u64(&h, path.len() as u64)
}

} // verus!
