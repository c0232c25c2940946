use vstd::prelude::*;

verus! {

/// The number that four bytes spell, most significant byte first.
pub open spec fn be_u32(bytes: Seq<u8>) -> int
    recommends
        bytes.len() == 4,
{
    bytes[0] * 0x100_0000 + bytes[1] * 0x1_0000 + bytes[2] * 0x100 + bytes[3]
}

/// The four bytes of a number below 2^32, most significant byte first.
pub open spec fn be_bytes(n: int) -> Seq<u8>
    recommends
        0 <= n <= u32::MAX,
{
    seq![
        (n / 0x100_0000) as u8,
        (n / 0x1_0000 % 0x100) as u8,
        (n / 0x100 % 0x100) as u8,
        (n % 0x100) as u8,
    ]
}

/// Reading back what was written gives the number again.
pub proof fn lemma_be_u32_of_be_bytes(n: int)
    requires
        0 <= n <= u32::MAX,
    ensures
        be_bytes(n).len() == 4,
        be_u32(be_bytes(n)) == n,
{
}

/// Writing what was read gives the bytes again.
pub proof fn lemma_be_bytes_of_be_u32(bytes: Seq<u8>)
    requires
        bytes.len() == 4,
    ensures
        0 <= be_u32(bytes) <= u32::MAX,
        be_bytes(be_u32(bytes)) == bytes,
{
    let (a, b, c, d) = (bytes[0] as int, bytes[1] as int, bytes[2] as int, bytes[3] as int);
    let n = be_u32(bytes);
    assert(n / 0x100_0000 == a && n / 0x1_0000 == a * 0x100 + b && n / 0x100 == a * 0x1_0000 + b
        * 0x100 + c && n % 0x100 == d) by {
        assert(n == a * 0x100_0000 + b * 0x1_0000 + c * 0x100 + d);
    }
    assert(be_bytes(n) =~= bytes);
}

/// Calls `byteorder::BigEndian::read_u32`, which reads the first four bytes
/// of the slice as a big-endian number and panics on a shorter slice.
#[verifier::external_body]
pub(crate) fn read_be_u32(bytes: &[u8]) -> (n: u32)
    requires
        bytes@.len() >= 4,
    ensures
        n == be_u32(bytes@.subrange(0, 4)),
{
    <byteorder::BigEndian as byteorder::ByteOrder>::read_u32(bytes)
}

/// A length as it goes into a field of four bytes, where it fits in one.
pub fn length_field(len: usize) -> (field: Option<u32>)
    ensures
        match field {
            Some(n) => n == len,
            None => len > u32::MAX,
        },
{
    if len > 0xffff_ffff {
        None
    } else {
        Some(len as u32)
    }
}

/// The four bytes of `n`, most significant first.
pub fn write_be_u32(out: &mut Vec<u8>, n: u32)
    ensures
        final(out)@ == old(out)@ + be_bytes(n as int),
{
    out.push((n / 0x100_0000) as u8);
    out.push((n / 0x1_0000 % 0x100) as u8);
    out.push((n / 0x100 % 0x100) as u8);
    out.push((n % 0x100) as u8);
}

} // verus!
