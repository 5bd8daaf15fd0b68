use byteorder::{BigEndian, ByteOrder, WriteBytesExt};

use vstd::prelude::*;

verus! {

/// The eight bytes of `n`, most significant first.
pub open spec fn u64_be_bytes(n: u64) -> Seq<u8> {
    seq![
        (n >> 56u64) as u8,
        (n >> 48u64) as u8,
        (n >> 40u64) as u8,
        (n >> 32u64) as u8,
        (n >> 24u64) as u8,
        (n >> 16u64) as u8,
        (n >> 8u64) as u8,
        n as u8,
    ]
}

/// The number whose big-endian bytes are the first eight bytes of `b`.
pub open spec fn u64_from_be(b: Seq<u8>) -> u64 {
    ((b[0] as u64) << 56u64) | ((b[1] as u64) << 48u64) | ((b[2] as u64) << 40u64) | ((
    b[3] as u64) << 32u64) | ((b[4] as u64) << 24u64) | ((b[5] as u64) << 16u64) | ((
    b[6] as u64) << 8u64) | (b[7] as u64)
}

/// Reading back the bytes written for `n` gives `n`.
pub proof fn lemma_u64_be_roundtrip(n: u64)
    ensures
        u64_be_bytes(n).len() == 8,
        u64_from_be(u64_be_bytes(n)) == n,
{
    let b = u64_be_bytes(n);
    assert(b[0] == (n >> 56u64) as u8);
    assert(b[7] == n as u8);
    assert(((((n >> 56u64) as u8) as u64) << 56u64) | ((((n >> 48u64) as u8) as u64) << 48u64) | ((
    ((n >> 40u64) as u8) as u64) << 40u64) | ((((n >> 32u64) as u8) as u64) << 32u64) | ((((n
        >> 24u64) as u8) as u64) << 24u64) | ((((n >> 16u64) as u8) as u64) << 16u64) | ((((n
        >> 8u64) as u8) as u64) << 8u64) | ((n as u8) as u64) == n) by (bit_vector);
}

/// Writing back the number read from eight bytes gives those bytes.
pub proof fn lemma_u64_be_bytes_roundtrip(b: Seq<u8>)
    requires
        b.len() == 8,
    ensures
        u64_be_bytes(u64_from_be(b)) == b,
{
    let (b0, b1, b2, b3, b4, b5, b6, b7) = (b[0], b[1], b[2], b[3], b[4], b[5], b[6], b[7]);
    let n = u64_from_be(b);
    assert(n == ((b0 as u64) << 56u64) | ((b1 as u64) << 48u64) | ((b2 as u64) << 40u64) | ((
    b3 as u64) << 32u64) | ((b4 as u64) << 24u64) | ((b5 as u64) << 16u64) | ((b6 as u64)
        << 8u64) | (b7 as u64));
    assert({
        let m = ((b0 as u64) << 56u64) | ((b1 as u64) << 48u64) | ((b2 as u64) << 40u64) | ((
        b3 as u64) << 32u64) | ((b4 as u64) << 24u64) | ((b5 as u64) << 16u64) | ((b6 as u64)
            << 8u64) | (b7 as u64);
        &&& (m >> 56u64) as u8 == b0
        &&& (m >> 48u64) as u8 == b1
        &&& (m >> 40u64) as u8 == b2
        &&& (m >> 32u64) as u8 == b3
        &&& (m >> 24u64) as u8 == b4
        &&& (m >> 16u64) as u8 == b5
        &&& (m >> 8u64) as u8 == b6
        &&& m as u8 == b7
    }) by (bit_vector);
    assert(u64_be_bytes(n) =~= b);
}

/// Appends `n` in big-endian order, by `WriteBytesExt::write_u64::<BigEndian>`
/// of byteorder on a `Vec<u8>`. Claimed: the eight bytes of `n`, most
/// significant first, are appended, and nothing else changes (writing into a
/// `Vec` cannot fail).
#[verifier::external_body]
pub(crate) fn write_u64_be(buf: &mut Vec<u8>, n: u64)
    ensures
        final(buf)@ == old(buf)@ + u64_be_bytes(n),
{
    buf.write_u64::<BigEndian>(n).unwrap()
}

/// Reads the big-endian number at `pos`, by `ByteOrder::read_u64` of
/// byteorder's `BigEndian`. Claimed: the result is the number whose
/// big-endian bytes are `bytes[pos..pos + 8]`.
#[verifier::external_body]
pub(crate) fn read_u64_be(bytes: &[u8], pos: usize) -> (r: u64)
    requires
        pos + 8 <= bytes@.len(),
    ensures
        r == u64_from_be(bytes@.subrange(pos as int, pos + 8)),
{
    BigEndian::read_u64(&bytes[pos..pos + 8])
}

} // verus!
