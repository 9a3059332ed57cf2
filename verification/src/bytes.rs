//! Numeric interpretation of big-endian byte strings and bit strings, and the
//! arithmetic lemmas the rest of the crate builds on.

use vstd::prelude::*;
use vstd::arithmetic::power2::{pow2, lemma2_to64, lemma_pow2_adds, lemma_pow2_strictly_increases, lemma_pow2_pos};

verus! {

/// Depth of the trie: the number of bits of a key path.
pub const KEY_BITS: usize = 251;

/// How many high-order bits of a 256-bit key are discarded by the path encoder.
pub const DROPPED_BITS: usize = 5;

/// Width in bytes of a field element's canonical big-endian encoding.
pub const FELT_BYTES: usize = 32;

/// The Stark field prime: 2^251 + 17 * 2^192 + 1.
pub open spec fn p_val() -> nat {
    pow2(251) + 17 * pow2(192) + 1
}

/// Value of a big-endian byte string.
pub open spec fn be_val(s: Seq<u8>) -> nat
    decreases s.len(),
{
    if s.len() == 0 {
        0
    } else {
        (be_val(s.drop_last()) * 256 + s.last()) as nat
    }
}

/// Value of a bit string, most significant bit first.
pub open spec fn bits_val(s: Seq<bool>) -> nat
    decreases s.len(),
{
    if s.len() == 0 {
        0
    } else {
        bits_val(s.drop_last()) * 2 + (if s.last() { 1nat } else { 0nat })
    }
}

/// Bit `k` of a byte, counting from the least significant bit.
pub open spec fn byte_bit(b: u8, k: nat) -> bool {
    (b >> (k as u8)) & 1 == 1
}

/// The 251-bit path of a 32-byte key: its bits in most-significant-first
/// order with the top `DROPPED_BITS` bits discarded.
pub open spec fn key_bits(s: Seq<u8>) -> Seq<bool> {
    Seq::new(251, |i: int| byte_bit(s[(i + 5) / 8], (7 - (i + 5) % 8) as nat))
}

pub proof fn lemma_be_val_append(x: Seq<u8>, y: Seq<u8>)
    ensures
        be_val(x + y) == be_val(x) * pow2(8 * y.len()) + be_val(y),
    decreases y.len(),
{
    if y.len() == 0 {
        assert(x + y =~= x);
        lemma2_to64();
        assert(be_val(x) * pow2(8 * y.len()) == be_val(x) * 1) by (nonlinear_arith)
            requires pow2(8 * y.len()) == 1,
        ;
    } else {
        let y1 = y.drop_last();
        assert((x + y).drop_last() =~= x + y1);
        assert((x + y).last() == y.last());
        lemma_be_val_append(x, y1);
        lemma_pow2_adds(8 * y1.len(), 8);
        lemma2_to64();
        assert(pow2(8) == 256);
        assert(be_val(x + y) == be_val(x + y1) * 256 + y.last());
        assert(be_val(y) == be_val(y1) * 256 + y.last());
        assert(pow2(8 * y.len()) == pow2(8 * y1.len()) * 256);
        assert((be_val(x) * pow2(8 * y1.len()) + be_val(y1)) * 256
            == be_val(x) * (pow2(8 * y1.len()) * 256) + be_val(y1) * 256) by (nonlinear_arith);
        assert(be_val(x + y) == be_val(x) * pow2(8 * y.len()) + be_val(y));
    }
}

pub proof fn lemma_be_val_bound(s: Seq<u8>)
    ensures
        be_val(s) < pow2(8 * s.len()),
    decreases s.len(),
{
    if s.len() == 0 {
        lemma2_to64();
    } else {
        let s1 = s.drop_last();
        lemma_be_val_bound(s1);
        lemma_pow2_adds(8 * s1.len(), 8);
        lemma2_to64();
        assert(pow2(8) == 256);
        assert(be_val(s1) <= pow2(8 * s1.len()) - 1);
        assert((pow2(8 * s1.len()) - 1) * 256 + 255 < pow2(8 * s1.len()) * 256) by (nonlinear_arith)
            requires pow2(8 * s1.len()) >= 1,
        ;
        assert(be_val(s1) * 256 <= (pow2(8 * s1.len()) - 1) * 256) by (nonlinear_arith)
            requires be_val(s1) <= pow2(8 * s1.len()) - 1,
        ;
    }
}

pub proof fn lemma_be_val_zeros(s: Seq<u8>)
    requires
        forall|i: int| 0 <= i < s.len() ==> s[i] == 0,
    ensures
        be_val(s) == 0,
    decreases s.len(),
{
    if s.len() > 0 {
        lemma_be_val_zeros(s.drop_last());
    }
}

/// Two equal-length byte strings with the same value are the same string.
pub proof fn lemma_be_val_inj(a: Seq<u8>, b: Seq<u8>)
    requires
        a.len() == b.len(),
        be_val(a) == be_val(b),
    ensures
        a =~= b,
    decreases a.len(),
{
    if a.len() > 0 {
        let qa = be_val(a.drop_last());
        let qb = be_val(b.drop_last());
        let ra = a.last() as nat;
        let rb = b.last() as nat;
        assert(qa == qb && ra == rb) by (nonlinear_arith)
            requires
                qa * 256 + ra == qb * 256 + rb,
                ra < 256,
                rb < 256,
        ;
        lemma_be_val_inj(a.drop_last(), b.drop_last());
        assert forall|i: int| 0 <= i < a.len() implies a[i] == b[i] by {
            if i < a.len() - 1 {
                assert(a[i] == a.drop_last()[i]);
                assert(b[i] == b.drop_last()[i]);
            }
        }
    }
}

pub proof fn lemma_bits_val_append(x: Seq<bool>, y: Seq<bool>)
    ensures
        bits_val(x + y) == bits_val(x) * pow2(y.len()) + bits_val(y),
    decreases y.len(),
{
    if y.len() == 0 {
        assert(x + y =~= x);
        lemma2_to64();
        assert(bits_val(x) * pow2(y.len()) == bits_val(x) * 1) by (nonlinear_arith)
            requires pow2(y.len()) == 1,
        ;
    } else {
        let y1 = y.drop_last();
        assert((x + y).drop_last() =~= x + y1);
        assert((x + y).last() == y.last());
        lemma_bits_val_append(x, y1);
        lemma_pow2_adds(y1.len(), 1);
        lemma2_to64();
        assert(pow2(1) == 2);
        let lb: nat = if y.last() { 1 } else { 0 };
        assert(bits_val(x + y) == bits_val(x + y1) * 2 + lb);
        assert(bits_val(y) == bits_val(y1) * 2 + lb);
        assert(pow2(y.len()) == pow2(y1.len()) * 2);
        assert((bits_val(x) * pow2(y1.len()) + bits_val(y1)) * 2
            == bits_val(x) * (pow2(y1.len()) * 2) + bits_val(y1) * 2) by (nonlinear_arith);
        assert(bits_val(x + y) == bits_val(x) * pow2(y.len()) + bits_val(y));
    }
}

pub proof fn lemma_bits_val_bound(s: Seq<bool>)
    ensures
        bits_val(s) < pow2(s.len()),
    decreases s.len(),
{
    if s.len() == 0 {
        lemma2_to64();
    } else {
        let s1 = s.drop_last();
        lemma_bits_val_bound(s1);
        lemma_pow2_adds(s1.len(), 1);
        lemma2_to64();
        assert(pow2(1) == 2);
        assert(bits_val(s1) * 2 + 1 < pow2(s1.len()) * 2) by (nonlinear_arith)
            requires bits_val(s1) < pow2(s1.len()),
        ;
    }
}

pub proof fn lemma_bits_val_zeros(s: Seq<bool>)
    requires
        forall|i: int| 0 <= i < s.len() ==> !s[i],
    ensures
        bits_val(s) == 0,
    decreases s.len(),
{
    if s.len() > 0 {
        lemma_bits_val_zeros(s.drop_last());
    }
}

/// Values below 2^251 are field elements.
pub proof fn lemma_small_is_field_element(v: nat)
    requires
        v < pow2(251),
    ensures
        v < p_val(),
{
    lemma_pow2_pos(192);
}

/// A bit path of at most `KEY_BITS` bits encodes to a field element.
pub proof fn lemma_path_val_in_field(s: Seq<bool>)
    requires
        s.len() <= 251,
    ensures
        bits_val(s) < p_val(),
{
    lemma_bits_val_bound(s);
    if s.len() < 251 {
        lemma_pow2_strictly_increases(s.len(), 251);
    }
    lemma_small_is_field_element(bits_val(s));
}

} // verus!
