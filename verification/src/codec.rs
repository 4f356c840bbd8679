//! The binary layout of a serialized vector in the blob file: an 8-byte
//! little-endian element count followed by 4 little-endian bytes per element.
//! Elements are the 32-bit patterns of the vector's components. Encoding and
//! decoding are done by bincode; the specs here state the bytes it produces
//! and accepts, and the round-trip lemma connects the two.

use vstd::arithmetic::div_mod::lemma_fundamental_div_mod;
use vstd::prelude::*;

verus! {

/// 256 to the power `k`.
pub open spec fn pow256(k: nat) -> nat
    decreases k,
{
    if k == 0 {
        1
    } else {
        256 * pow256((k - 1) as nat)
    }
}

/// The `count` little-endian bytes of `x`.
pub open spec fn le_bytes(x: nat, count: nat) -> Seq<u8>
    decreases count,
{
    if count == 0 {
        seq![]
    } else {
        seq![(x % 256) as u8] + le_bytes(x / 256, (count - 1) as nat)
    }
}

/// The value of a little-endian byte string.
pub open spec fn le_val(s: Seq<u8>) -> nat
    decreases s.len(),
{
    if s.len() == 0 {
        0
    } else {
        (s[0] + 256 * le_val(s.skip(1))) as nat
    }
}

pub proof fn lemma_le_bytes_len(x: nat, count: nat)
    ensures
        le_bytes(x, count).len() == count,
    decreases count,
{
    if count > 0 {
        lemma_le_bytes_len(x / 256, (count - 1) as nat);
    }
}

/// Reading back the little-endian bytes of `x` gives `x`.
pub proof fn lemma_le_roundtrip(x: nat, count: nat)
    requires
        x < pow256(count),
    ensures
        le_val(le_bytes(x, count)) == x,
    decreases count,
{
    if count == 0 {
        assert(x == 0);
    } else {
        let s = le_bytes(x, count);
        lemma_fundamental_div_mod(x as int, 256);
        assert(x / 256 < pow256((count - 1) as nat)) by {
            if x / 256 >= pow256((count - 1) as nat) {
                assert(256 * (x / 256) >= 256 * pow256((count - 1) as nat));
            }
        }
        lemma_le_roundtrip(x / 256, (count - 1) as nat);
        assert(s.skip(1) =~= le_bytes(x / 256, (count - 1) as nat));
        assert(s[0] == (x % 256) as u8);
        assert(le_val(s) == x % 256 + 256 * (x / 256));
    }
}

/// The encoded elements of a vector: 4 little-endian bytes each.
pub open spec fn enc_elems(bits: Seq<u32>) -> Seq<u8>
    decreases bits.len(),
{
    if bits.len() == 0 {
        seq![]
    } else {
        le_bytes(bits[0] as nat, 4) + enc_elems(bits.skip(1))
    }
}

/// The serialized form of a vector: its length as 8 little-endian bytes,
/// then its elements.
pub open spec fn enc_vec(bits: Seq<u32>) -> Seq<u8> {
    le_bytes(bits.len(), 8) + enc_elems(bits)
}

/// What decoding a byte string yields: the vector whose serialized form is a
/// prefix of the bytes, if the bytes are long enough; trailing bytes are
/// ignored.
pub open spec fn dec_vec(bytes: Seq<u8>) -> Option<Seq<u32>> {
    if bytes.len() >= 8 {
        let n = le_val(bytes.take(8));
        if 8 + 4 * n <= bytes.len() {
            Some(
                Seq::new(
                    n,
                    |i: int| le_val(bytes.subrange(8 + 4 * i, 8 + 4 * i + 4)) as u32,
                ),
            )
        } else {
            None
        }
    } else {
        None
    }
}

pub proof fn lemma_enc_elems_len(bits: Seq<u32>)
    ensures
        enc_elems(bits).len() == 4 * bits.len(),
    decreases bits.len(),
{
    if bits.len() > 0 {
        lemma_le_bytes_len(bits[0] as nat, 4);
        lemma_enc_elems_len(bits.skip(1));
    }
}

/// Each element sits at its own 4-byte range of the encoded elements.
pub proof fn lemma_enc_elems_at(bits: Seq<u32>, i: int)
    requires
        0 <= i < bits.len(),
    ensures
        enc_elems(bits).subrange(4 * i, 4 * i + 4) == le_bytes(bits[i] as nat, 4),
    decreases i,
{
    lemma_le_bytes_len(bits[0] as nat, 4);
    lemma_enc_elems_len(bits.skip(1));
    if i == 0 {
        assert(enc_elems(bits).subrange(0, 4) =~= le_bytes(bits[0] as nat, 4));
    } else {
        lemma_enc_elems_at(bits.skip(1), i - 1);
        assert(bits.skip(1)[i - 1] == bits[i]);
        assert(enc_elems(bits).subrange(4 * i, 4 * i + 4) =~= enc_elems(bits.skip(1)).subrange(
            4 * (i - 1),
            4 * (i - 1) + 4,
        ));
    }
}

pub proof fn lemma_pow256_values()
    ensures
        pow256(4) == 0x1_0000_0000,
        pow256(8) == 0x1_0000_0000_0000_0000,
{
    assert(pow256(0) == 1);
    assert(pow256(1) == 256);
    assert(pow256(2) == 0x1_0000);
    assert(pow256(3) == 0x100_0000);
    assert(pow256(4) == 0x1_0000_0000);
    assert(pow256(5) == 0x100_0000_0000);
    assert(pow256(6) == 0x1_0000_0000_0000);
    assert(pow256(7) == 0x100_0000_0000_0000);
    assert(pow256(8) == 0x1_0000_0000_0000_0000);
}

/// The length of a serialized vector.
pub proof fn lemma_enc_vec_len(bits: Seq<u32>)
    ensures
        enc_vec(bits).len() == 8 + 4 * bits.len(),
{
    lemma_le_bytes_len(bits.len(), 8);
    lemma_enc_elems_len(bits);
}

/// Decoding a serialized vector, with any trailing bytes, gives the vector
/// back.
pub proof fn lemma_dec_enc(bits: Seq<u32>, rest: Seq<u8>)
    requires
        bits.len() < pow256(8),
    ensures
        dec_vec(enc_vec(bits) + rest) == Some(bits),
{
    let s = enc_vec(bits) + rest;
    lemma_le_bytes_len(bits.len(), 8);
    lemma_enc_elems_len(bits);
    lemma_pow256_values();
    assert(s.take(8) =~= le_bytes(bits.len(), 8));
    lemma_le_roundtrip(bits.len(), 8);
    let n = le_val(s.take(8));
    assert(n == bits.len());
    assert(8 + 4 * n <= s.len());
    let decoded = Seq::new(n, |i: int| le_val(s.subrange(8 + 4 * i, 8 + 4 * i + 4)) as u32);
    assert forall|i: int| 0 <= i < n implies decoded[i] == bits[i] by {
        lemma_enc_elems_at(bits, i);
        assert(s.subrange(8 + 4 * i, 8 + 4 * i + 4) =~= enc_elems(bits).subrange(
            4 * i,
            4 * i + 4,
        ));
        lemma_le_roundtrip(bits[i] as nat, 4);
    }
    assert(decoded =~= bits);
}

/// Relies on bincode::serialize for `Vec<u32>`: the crate's fixed-int
/// little-endian format writes the length as 8 little-endian bytes, then each
/// element as 4 little-endian bytes, and writing to a vector cannot fail.
#[verifier::external_body]
pub(crate) fn encode_vector(bits: &Vec<u32>) -> (r: Vec<u8>)
    ensures
        r@ == enc_vec(bits@),
{
    bincode::serialize(bits).unwrap()
}

/// Relies on bincode::deserialize for `Vec<u32>`: the crate's fixed-int
/// little-endian format reads an 8-byte little-endian length, then 4 bytes
/// per element, ignores trailing bytes, and errors when the input runs short.
#[verifier::external_body]
pub(crate) fn decode_vector(bytes: &[u8]) -> (r: Option<Vec<u32>>)
    ensures
        match r {
            Some(v) => dec_vec(bytes@) == Some(v@),
            None => dec_vec(bytes@) is None,
        },
{
    match bincode::deserialize::<Vec<u32>>(bytes) {
        Ok(v) => Some(v),
        Err(_) => None,
    }
}

} // verus!
