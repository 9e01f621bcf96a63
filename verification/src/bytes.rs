use byteorder::{BigEndian, ByteOrder};
use vstd::prelude::*;

verus! {

/// The eight bytes that stand for `n`, most significant byte first.
pub open spec fn be_bytes(n: u64) -> Seq<u8> {
    seq![
        (n >> 56) as u8,
        ((n >> 48) & 0xff) as u8,
        ((n >> 40) & 0xff) as u8,
        ((n >> 32) & 0xff) as u8,
        ((n >> 24) & 0xff) as u8,
        ((n >> 16) & 0xff) as u8,
        ((n >> 8) & 0xff) as u8,
        (n & 0xff) as u8,
    ]
}

/// The number whose most significant byte is `s[0]` and whose least
/// significant byte is `s[7]`.
pub open spec fn be_value(s: Seq<u8>) -> u64 {
    (s[0] as u64) << 56 | (s[1] as u64) << 48 | (s[2] as u64) << 40 | (s[3] as u64) << 32 | (
    s[4] as u64) << 24 | (s[5] as u64) << 16 | (s[6] as u64) << 8 | (s[7] as u64)
}

/// Reading back the bytes of a number gives the number.
pub proof fn lemma_be_value_of_bytes(n: u64)
    ensures
        be_bytes(n).len() == 8,
        be_value(be_bytes(n)) == n,
{
    assert(((n >> 56) as u8 as u64) << 56 | (((n >> 48) & 0xff) as u8 as u64) << 48 | (((n >> 40)
        & 0xff) as u8 as u64) << 40 | (((n >> 32) & 0xff) as u8 as u64) << 32 | (((n >> 24)
        & 0xff) as u8 as u64) << 24 | (((n >> 16) & 0xff) as u8 as u64) << 16 | (((n >> 8)
        & 0xff) as u8 as u64) << 8 | ((n & 0xff) as u8 as u64) == n) by (bit_vector);
}

/// Calls `byteorder::BigEndian::read_u64` on `buf[at..]`, which reads the
/// first eight bytes of that slice as a big-endian number. The call panics
/// on a slice shorter than eight bytes, so `requires` leaves those out.
#[verifier::external_body]
pub(crate) fn read_u64(buf: &Vec<u8>, at: usize) -> (n: u64)
    requires
        at + 8 <= buf@.len(),
    ensures
        n == be_value(buf@.subrange(at as int, at + 8)),
{
    BigEndian::read_u64(&buf[at..])
}

/// Calls `byteorder::BigEndian::write_u64` on `buf[at..]`, which overwrites
/// the first eight bytes of that slice with the big-endian bytes of `n` and
/// leaves every other byte as it was. The call panics on a slice shorter
/// than eight bytes, so `requires` leaves those out.
#[verifier::external_body]
pub(crate) fn write_u64(buf: &mut Vec<u8>, at: usize, n: u64)
    requires
        at + 8 <= old(buf)@.len(),
    ensures
        final(buf)@ == old(buf)@.subrange(0, at as int) + be_bytes(n) + old(buf)@.subrange(
            at + 8,
            old(buf)@.len() as int,
        ),
{
    BigEndian::write_u64(&mut buf[at..], n)
}

} // verus!
