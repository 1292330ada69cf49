//! Big-endian integers on the wire, and the calls into the `bytes` crate
//! that write them.

use bytes::BufMut;
use bytes::Bytes;
use vstd::prelude::*;

verus! {

/// The two bytes of `n`, most significant first.
pub open spec fn be_u16(n: u16) -> Seq<u8> {
    seq![(n / 256) as u8, (n % 256) as u8]
}

/// The number whose big-endian form is `hi`, `lo`.
pub open spec fn u16_of_be(hi: u8, lo: u8) -> u16 {
    (hi * 256 + lo) as u16
}

/// The four bytes of `n`, most significant first.
pub open spec fn be_u32(n: u32) -> Seq<u8> {
    seq![
        (n / 0x100_0000) as u8,
        ((n / 0x1_0000) % 256) as u8,
        ((n / 0x100) % 256) as u8,
        (n % 256) as u8,
    ]
}

/// Reading back what `be_u16` wrote gives the number again.
pub proof fn lemma_be_u16_inverse(n: u16)
    ensures
        be_u16(n).len() == 2,
        u16_of_be(be_u16(n)[0], be_u16(n)[1]) == n,
{
}

/// Writing what `u16_of_be` read gives the two bytes again.
pub proof fn lemma_u16_of_be_inverse(hi: u8, lo: u8)
    ensures
        be_u16(u16_of_be(hi, lo)) == seq![hi, lo],
{
    assert(be_u16(u16_of_be(hi, lo)) =~= seq![hi, lo]);
}

/// Reads a big-endian `u16` from its two bytes.
pub fn read_u16(hi: u8, lo: u8) -> (n: u16)
    ensures
        n == u16_of_be(hi, lo),
{
    (hi as u16) * 256 + (lo as u16)
}

#[verifier::external_type_specification]
#[verifier::external_body]
pub struct ExBytes(Bytes);

/// The bytes that a `bytes::Bytes` buffer holds, in order.
pub uninterp spec fn bytes_contents(b: Bytes) -> Seq<u8>;

/// `bytes::BufMut::put_u16` on a `Vec<u8>`: the vector grows by the two
/// bytes of `n` in big-endian order, and what it held stays in front.
#[verifier::external_body]
pub(crate) fn put_u16(buf: &mut Vec<u8>, n: u16)
    ensures
        final(buf)@ == old(buf)@ + be_u16(n),
{
    buf.put_u16(n)
}

/// `bytes::BufMut::put_u32` on a `Vec<u8>`: the vector grows by the four
/// bytes of `n` in big-endian order, and what it held stays in front.
#[verifier::external_body]
pub(crate) fn put_u32(buf: &mut Vec<u8>, n: u32)
    ensures
        final(buf)@ == old(buf)@ + be_u32(n),
{
    buf.put_u32(n)
}

/// `Bytes::from` on a `Vec<u8>`: the buffer made holds exactly the
/// vector's bytes.
#[verifier::external_body]
pub(crate) fn bytes_from_vec(v: Vec<u8>) -> (b: Bytes)
    ensures
        bytes_contents(b) == v@,
{
    Bytes::from(v)
}

/// `Vec::extend` fed by the byte iterator of a `bytes::Bytes`: the
/// vector grows by the buffer's bytes, in order.
#[verifier::external_body]
pub(crate) fn extend_with_bytes(buf: &mut Vec<u8>, b: Bytes)
    ensures
        final(buf)@ == old(buf)@ + bytes_contents(b),
{
    buf.extend(b)
}

} // verus!
