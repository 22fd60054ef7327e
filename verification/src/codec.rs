//! Vectors as bytes. A vector is held as the bit patterns of its single-precision
//! components, and stored as those patterns in little-endian order.

use vstd::prelude::*;

verus! {

/// Byte `k` of `x`, counted from the least significant one.
pub open spec fn byte_of(x: u32, k: int) -> u8 {
    if k == 0 {
        (x % 0x100) as u8
    } else if k == 1 {
        (x / 0x100 % 0x100) as u8
    } else if k == 2 {
        (x / 0x1_0000 % 0x100) as u8
    } else {
        (x / 0x100_0000) as u8
    }
}

/// The bytes of a vector.
pub open spec fn encoded(vector: Seq<u32>) -> Seq<u8> {
    Seq::new(4 * vector.len(), |i: int| byte_of(vector[i / 4], i % 4))
}

/// The component whose bytes start at `at`.
pub open spec fn component(bytes: Seq<u8>, at: int) -> u32 {
    (bytes[at] + 0x100 * bytes[at + 1] + 0x1_0000 * bytes[at + 2] + 0x100_0000 * bytes[at
        + 3]) as u32
}

/// The vector that the bytes hold; up to three bytes at the end that make no
/// component are left out.
pub open spec fn decoded(bytes: Seq<u8>) -> Seq<u32> {
    Seq::new(bytes.len() / 4, |i: int| component(bytes, 4 * i))
}

/// The bytes of a vector.
pub fn encode_vector(v: &Vec<u32>) -> (out: Vec<u8>)
    ensures
        out@ == encoded(v@),
{
    let mut out: Vec<u8> = Vec::new();
    let mut i: usize = 0;
    while i < v.len()
        invariant
            i <= v@.len(),
            out@ == encoded(v@.take(i as int)),
        decreases v.len() - i,
    {
        let x: u32 = v[i];
        let ghost before = out@;
        out.push((x % 0x100) as u8);
        out.push((x / 0x100 % 0x100) as u8);
        out.push((x / 0x1_0000 % 0x100) as u8);
        out.push((x / 0x100_0000) as u8);
        i = i + 1;
        assert(out@ =~= encoded(v@.take(i as int)));
    }
    assert(v@.take(i as int) =~= v@);
    out
}

/// The vector that the bytes hold.
pub fn decode_vector(bytes: &Vec<u8>) -> (out: Vec<u32>)
    ensures
        out@ == decoded(bytes@),
{
    let mut out: Vec<u32> = Vec::new();
    let mut at: usize = 0;
    while bytes.len() - at >= 4
        invariant
            at <= bytes@.len(),
            at == 4 * out@.len(),
            out@ == decoded(bytes@.take(at as int)),
        decreases bytes.len() - at,
    {
        let x: u32 = bytes[at] as u32 + 0x100 * (bytes[at + 1] as u32) + 0x1_0000 * (bytes[at
            + 2] as u32) + 0x100_0000 * (bytes[at + 3] as u32);
        out.push(x);
        at = at + 4;
        assert(out@ =~= decoded(bytes@.take(at as int)));
    }
    assert(out@ =~= decoded(bytes@));
    out
}

/// Decoding gives back the vector that was encoded.
pub proof fn law_decode_inverts_encode(vector: Seq<u32>)
    ensures
        decoded(encoded(vector)) == vector,
{
    let bytes = encoded(vector);
    assert forall|i: int| 0 <= i < vector.len() implies component(bytes, 4 * i) == vector[i] by {
        let x = vector[i];
        assert(bytes[4 * i] == byte_of(x, 0));
        assert(bytes[4 * i + 1] == byte_of(x, 1));
        assert(bytes[4 * i + 2] == byte_of(x, 2));
        assert(bytes[4 * i + 3] == byte_of(x, 3));
    }
    assert(decoded(bytes) =~= vector);
}

proof fn lemma_bytes_of_component(x: u32, b0: u8, b1: u8, b2: u8, b3: u8)
    requires
        x == b0 + 0x100 * b1 + 0x1_0000 * b2 + 0x100_0000 * b3,
    ensures
        byte_of(x, 0) == b0,
        byte_of(x, 1) == b1,
        byte_of(x, 2) == b2,
        byte_of(x, 3) == b3,
{
    assert(x % 0x100 == b0 && x / 0x100 % 0x100 == b1 && x / 0x1_0000 % 0x100 == b2 && x
        / 0x100_0000 == b3) by (bit_vector)
        requires
            x == b0 + 0x100 * b1 + 0x1_0000 * b2 + 0x100_0000 * b3,
    ;
}

/// Encoding gives back the bytes that were decoded, if they make whole components.
pub proof fn law_encode_inverts_decode(bytes: Seq<u8>)
    requires
        bytes.len() % 4 == 0,
    ensures
        encoded(decoded(bytes)) == bytes,
{
    let vector = decoded(bytes);
    assert forall|i: int| 0 <= i < bytes.len() implies byte_of(vector[i / 4], i % 4)
        == bytes[i] by {
        let at = 4 * (i / 4);
        assert(vector[i / 4] == component(bytes, at));
        assert(i == at + i % 4);
        lemma_bytes_of_component(
            vector[i / 4],
            bytes[at],
            bytes[at + 1],
            bytes[at + 2],
            bytes[at + 3],
        );
    }
    assert(encoded(vector) =~= bytes);
}

} // verus!
