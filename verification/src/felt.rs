//! Field elements held in canonical 32-byte big-endian encoding, and the
//! path encoder that turns a key into its 251-bit trie path.

use vstd::prelude::*;
use vstd::arithmetic::power2::{pow2, lemma2_to64, lemma_pow2_strictly_increases, lemma_pow2_adds};
use crate::bytes::{be_val, bits_val, key_bits, p_val, lemma_be_val_zeros, lemma_be_val_inj, lemma_be_val_append, lemma_be_val_bound, lemma_bits_val_zeros, lemma_bits_val_append, lemma_bits_val_bound, lemma_path_val_in_field, lemma_small_is_field_element};
use crate::err::TrieError;

verus! {

/// A field element of the Stark prime field, as its canonical big-endian
/// 32-byte encoding.
pub struct Felt {
    pub(crate) bytes: Vec<u8>,
}

impl View for Felt {
    type V = Seq<u8>;

    closed spec fn view(&self) -> Seq<u8> {
        self.bytes@
    }
}

impl Felt {
    /// Canonical: exactly 32 bytes, value below the field prime.
    pub open spec fn wf(self) -> bool {
        self@.len() == 32 && be_val(self@) < p_val()
    }

    /// The numeric value of the element.
    pub open spec fn val(self) -> nat {
        be_val(self@)
    }

    pub fn from_u64(v: u64) -> (r: Felt)
        ensures
            r.wf(),
            r.val() == v,
    {
        let mut bytes: Vec<u8> = Vec::new();
        let mut i: usize = 0;
        while i < 24
            invariant
                i <= 24,
                bytes@.len() == i,
                forall|j: int| 0 <= j < i ==> bytes@[j] == 0,
            decreases 24 - i,
        {
            bytes.push(0u8);
            i = i + 1;
        }
        proof {
            lemma_be_val_zeros(bytes@);
        }
        let b0: u8 = ((v >> 56) & 0xff) as u8;
        let b1: u8 = ((v >> 48) & 0xff) as u8;
        let b2: u8 = ((v >> 40) & 0xff) as u8;
        let b3: u8 = ((v >> 32) & 0xff) as u8;
        let b4: u8 = ((v >> 24) & 0xff) as u8;
        let b5: u8 = ((v >> 16) & 0xff) as u8;
        let b6: u8 = ((v >> 8) & 0xff) as u8;
        let b7: u8 = (v & 0xff) as u8;
        let ghost s0 = bytes@;
        bytes.push(b0);
        proof {
            assert(bytes@.drop_last() =~= s0);
            assert(be_val(bytes@) == be_val(s0) * 256 + b0);
        }
        let ghost s1 = bytes@;
        bytes.push(b1);
        proof {
            assert(bytes@.drop_last() =~= s1);
            assert(be_val(bytes@) == be_val(s1) * 256 + b1);
        }
        let ghost s2 = bytes@;
        bytes.push(b2);
        proof {
            assert(bytes@.drop_last() =~= s2);
            assert(be_val(bytes@) == be_val(s2) * 256 + b2);
        }
        let ghost s3 = bytes@;
        bytes.push(b3);
        proof {
            assert(bytes@.drop_last() =~= s3);
            assert(be_val(bytes@) == be_val(s3) * 256 + b3);
        }
        let ghost s4 = bytes@;
        bytes.push(b4);
        proof {
            assert(bytes@.drop_last() =~= s4);
            assert(be_val(bytes@) == be_val(s4) * 256 + b4);
        }
        let ghost s5 = bytes@;
        bytes.push(b5);
        proof {
            assert(bytes@.drop_last() =~= s5);
            assert(be_val(bytes@) == be_val(s5) * 256 + b5);
        }
        let ghost s6 = bytes@;
        bytes.push(b6);
        proof {
            assert(bytes@.drop_last() =~= s6);
            assert(be_val(bytes@) == be_val(s6) * 256 + b6);
        }
        let ghost s7 = bytes@;
        bytes.push(b7);
        proof {
            assert(bytes@.drop_last() =~= s7);
            assert(be_val(bytes@) == be_val(s7) * 256 + b7);
            assert(((((((((b0 as u64) * 256 + (b1 as u64)) * 256 + (b2 as u64)) * 256 + (b3 as u64))
                * 256 + (b4 as u64)) * 256 + (b5 as u64)) * 256 + (b6 as u64)) * 256 + (b7 as u64))
                == v) by (bit_vector)
                requires
                    b0 == ((v >> 56) & 0xff) as u8,
                    b1 == ((v >> 48) & 0xff) as u8,
                    b2 == ((v >> 40) & 0xff) as u8,
                    b3 == ((v >> 32) & 0xff) as u8,
                    b4 == ((v >> 24) & 0xff) as u8,
                    b5 == ((v >> 16) & 0xff) as u8,
                    b6 == ((v >> 8) & 0xff) as u8,
                    b7 == (v & 0xff) as u8,
            ;
            assert(be_val(bytes@) == v);
            lemma2_to64();
            lemma_pow2_strictly_increases(64, 251);
            lemma_small_is_field_element(v as nat);
        }
        Felt { bytes }
    }

    /// Byte-wise equality; equal encodings mean equal elements.
    pub fn eq(&self, other: &Felt) -> (r: bool)
        ensures
            r <==> self@ == other@,
    {
        if self.bytes.len() != other.bytes.len() {
            return false;
        }
        let mut i: usize = 0;
        while i < self.bytes.len()
            invariant
                i <= self.bytes@.len(),
                self.bytes@.len() == other.bytes@.len(),
                forall|j: int| 0 <= j < i ==> self.bytes@[j] == other.bytes@[j],
            decreases self.bytes@.len() - i,
        {
            if self.bytes[i] != other.bytes[i] {
                return false;
            }
            i = i + 1;
        }
        proof {
            assert(self@ =~= other@);
        }
        true
    }

    /// Equality of the numeric values, for two canonical elements.
    pub fn eq_val(&self, other: &Felt) -> (r: bool)
        requires
            self.wf(),
            other.wf(),
        ensures
            r <==> self.val() == other.val(),
    {
        let r = self.eq(other);
        proof {
            if self@ != other@ && be_val(self@) == be_val(other@) {
                lemma_be_val_inj(self@, other@);
            }
        }
        r
    }

    /// The 251-bit trie path of this key: its bits most significant first,
    /// with the five high-order bits dropped (the width policy of the
    /// surrounding system; `key_path_checked` rejects lossy keys instead).
    pub fn key_path(&self) -> (r: Vec<bool>)
        requires
            self.wf(),
        ensures
            r@ == key_bits(self@),
            r@.len() == 251,
    {
        let mut r: Vec<bool> = Vec::new();
        let mut i: usize = 0;
        while i < 251
            invariant
                self@.len() == 32,
                i <= 251,
                r@.len() == i,
                forall|j: int| 0 <= j < i ==> r@[j] == key_bits(self@)[j],
            decreases 251 - i,
        {
            let byte = self.bytes[(i + 5) / 8];
            let k: u8 = (7 - ((i + 5) % 8)) as u8;
            r.push((byte >> k) & 1 == 1);
            i = i + 1;
        }
        proof {
            assert(r@ =~= key_bits(self@));
        }
        r
    }

    /// Whether the five dropped bits of this key are zero, so that the
    /// 251-bit path loses nothing.
    pub open spec fn fits_key_width(self) -> bool {
        self@[0] < 8
    }

    /// Path encoding that rejects keys whose dropped bits are nonzero.
    pub fn key_path_checked(&self) -> (r: Result<Vec<bool>, TrieError>)
        requires
            self.wf(),
        ensures
            self.fits_key_width() ==> (r matches Ok(p) && p@ == key_bits(self@)),
            !self.fits_key_width() ==> r == Err::<Vec<bool>, TrieError>(TrieError::InvalidKey),
    {
        if self.bytes[0] < 8 {
            Ok(self.key_path())
        } else {
            Err(TrieError::InvalidKey)
        }
    }

    /// The field element whose value a bit path (at most 251 bits, most
    /// significant first) spells out.
    pub fn from_bits(path: &Vec<bool>) -> (r: Felt)
        requires
            path@.len() <= 251,
        ensures
            r.wf(),
            r.val() == bits_val(path@),
    {
        let mut padded: Vec<bool> = Vec::new();
        let pad: usize = 256 - path.len();
        let mut i: usize = 0;
        while i < pad
            invariant
                i <= pad,
                padded@.len() == i,
                forall|j: int| 0 <= j < i ==> !padded@[j],
            decreases pad - i,
        {
            padded.push(false);
            i = i + 1;
        }
        let mut i2: usize = 0;
        while i2 < path.len()
            invariant
                pad == 256 - path@.len(),
                i2 <= path@.len(),
                padded@.len() == pad + i2,
                forall|j: int| 0 <= j < pad ==> !padded@[j],
                forall|j: int| 0 <= j < i2 ==> padded@[pad + j] == path@[j],
            decreases path@.len() - i2,
        {
            padded.push(path[i2]);
            i2 = i2 + 1;
        }
        proof {
            assert(padded@ =~= padded@.take(pad as int) + path@);
            lemma_bits_val_zeros(padded@.take(pad as int));
            lemma_bits_val_append(padded@.take(pad as int), path@);
            assert(bits_val(padded@) == bits_val(path@));
        }
        let mut bytes: Vec<u8> = Vec::new();
        let mut j: usize = 0;
        while j < 32
            invariant
                padded@.len() == 256,
                bits_val(padded@) == bits_val(path@),
                j <= 32,
                bytes@.len() == j,
                be_val(bytes@) == bits_val(padded@.take(8 * j)),
            decreases 32 - j,
        {
            let mut byte: u8 = 0;
            let mut k: usize = 0;
            while k < 8
                invariant
                    padded@.len() == 256,
                    j < 32,
                    k <= 8,
                    byte as nat == bits_val(padded@.subrange(8 * j as int, 8 * j + k as int)),
                decreases 8 - k,
            {
                proof {
                    lemma_bits_val_bound(padded@.subrange(8 * j as int, 8 * j + k as int));
                    if k < 7 {
                        lemma_pow2_strictly_increases(k as nat, 7);
                    }
                    lemma2_to64();
                    assert(padded@.subrange(8 * j as int, 8 * j + (k + 1) as int).drop_last()
                        =~= padded@.subrange(8 * j as int, 8 * j + k as int));
                }
                byte = byte * 2 + (if padded[8 * j + k] { 1 } else { 0 });
                k = k + 1;
            }
            proof {
                assert(padded@.take(8 * (j + 1) as int)
                    =~= padded@.take(8 * j as int) + padded@.subrange(8 * j as int, 8 * j + 8));
                lemma_bits_val_append(padded@.take(8 * j as int), padded@.subrange(8 * j as int, 8 * j + 8));
                lemma2_to64();
                assert(bytes@.push(byte).drop_last() =~= bytes@);
            }
            bytes.push(byte);
            j = j + 1;
        }
        proof {
            assert(padded@.take((8 * 32) as int) =~= padded@);
            lemma_path_val_in_field(path@);
        }
        Felt { bytes }
    }
}

impl Felt {
    /// The canonical 32-byte big-endian encoding.
    pub fn to_be_bytes(&self) -> (r: Vec<u8>)
        ensures
            r@ == self@,
    {
        let mut b: Vec<u8> = Vec::new();
        let mut i: usize = 0;
        while i < self.bytes.len()
            invariant
                i <= self.bytes@.len(),
                b@.len() == i,
                forall|j: int| 0 <= j < i ==> b@[j] == self.bytes@[j],
            decreases self.bytes@.len() - i,
        {
            b.push(self.bytes[i]);
            i = i + 1;
        }
        proof {
            assert(b@ =~= self.bytes@);
        }
        b
    }

    /// Decodes a 32-byte big-endian encoding whose value fits the 251-bit
    /// key/value width of this system (the five high-order bits zero);
    /// anything else is rejected.
    pub fn from_be_bytes(v: &Vec<u8>) -> (r: Option<Felt>)
        ensures
            (r matches Some(f)) <==> (v@.len() == 32 && v@[0] < 8),
            r matches Some(f) ==> f.wf() && f@ == v@,
    {
        if v.len() != 32 {
            return None;
        }
        if v[0] >= 8 {
            return None;
        }
        let mut b: Vec<u8> = Vec::new();
        let mut i: usize = 0;
        while i < 32
            invariant
                v@.len() == 32,
                i <= 32,
                b@.len() == i,
                forall|j: int| 0 <= j < i ==> b@[j] == v@[j],
            decreases 32 - i,
        {
            b.push(v[i]);
            i = i + 1;
        }
        proof {
            assert(b@ =~= v@);
            assert(v@ =~= v@.take(1) + v@.skip(1));
            lemma_be_val_append(v@.take(1), v@.skip(1));
            lemma_be_val_bound(v@.skip(1));
            assert(v@.take(1).drop_last() =~= Seq::<u8>::empty());
            assert(be_val(Seq::<u8>::empty()) == 0);
            assert(v@.take(1).last() == v@[0]);
            assert(be_val(v@.take(1)) == v@[0]);
            lemma_pow2_adds(3, 248);
            lemma2_to64();
            assert(pow2(3) == 8);
            assert(be_val(v@) == v@[0] * pow2(248) + be_val(v@.skip(1)));
            assert(v@[0] * pow2(248) <= 7 * pow2(248)) by (nonlinear_arith)
                requires v@[0] <= 7,
            ;
            assert(pow2(251) == 8 * pow2(248));
            assert(be_val(v@) < pow2(251));
            lemma_small_is_field_element(be_val(v@));
        }
        Some(Felt { bytes: b })
    }
}

impl Clone for Felt {
    /// Clones the canonical encoding byte for byte.
    fn clone(&self) -> (r: Self)
        ensures
            r@ == self@,
    {
        let mut b: Vec<u8> = Vec::new();
        let mut i: usize = 0;
        while i < self.bytes.len()
            invariant
                i <= self.bytes@.len(),
                b@.len() == i,
                forall|j: int| 0 <= j < i ==> b@[j] == self.bytes@[j],
            decreases self.bytes@.len() - i,
        {
            b.push(self.bytes[i]);
            i = i + 1;
        }
        proof {
            assert(b@ =~= self.bytes@);
        }
        Felt { bytes: b }
    }
}

} // verus!
