//! Little-endian primitives shared by the reading and the writing side.
use byteorder::{ByteOrder, LittleEndian};
use vstd::prelude::*;

verus! {

/// The value of the four bytes at `at`, least significant first.
pub open spec fn le_u32_at(s: Seq<u8>, at: int) -> int {
    s[at] as int + 256 * (s[at + 1] as int) + 65536 * (s[at + 2] as int) + 16777216 * (s[at
        + 3] as int)
}

/// The four bytes of `n`, least significant first.
pub open spec fn u32_bytes(n: u32) -> Seq<u8> {
    seq![(n % 256) as u8, ((n / 256) % 256) as u8, ((n / 65536) % 256) as u8, (n / 16777216) as u8]
}

/// Decoding the bytes of a number gives the number back.
pub proof fn lemma_u32_bytes(n: u32)
    ensures
        u32_bytes(n).len() == 4,
        le_u32_at(u32_bytes(n), 0) == n as int,
{
    let b = u32_bytes(n);
    assert(b[0] as int + 256 * (b[1] as int) + 65536 * (b[2] as int) + 16777216 * (b[3] as int)
        == n as int) by (nonlinear_arith)
        requires
            b[0] as int == n % 256,
            b[1] as int == (n / 256) % 256,
            b[2] as int == (n / 65536) % 256,
            b[3] as int == n / 16777216,
            n <= 0xffff_ffff,
    ;
}

/// Relies on byteorder's `LittleEndian::read_u32`: the value of the first four bytes of the
/// slice it is given, least significant first (it panics on fewer than four).
#[verifier::external_body]
pub(crate) fn read_u32_at(b: &[u8], at: usize) -> (r: u32)
    requires
        at + 4 <= b@.len(),
    ensures
        r as int == le_u32_at(b@, at as int),
{
    LittleEndian::read_u32(&b[at..])
}

/// Relies on byteorder's `LittleEndian::write_u32`: it stores `n` into the first four bytes
/// of the buffer, least significant first.
#[verifier::external_body]
pub(crate) fn u32_le_bytes(n: u32) -> (r: [u8; 4])
    ensures
        r@ == u32_bytes(n),
{
    let mut buf = [0u8; 4];
    LittleEndian::write_u32(&mut buf, n);
    buf
}

/// Appends the four little-endian bytes of `n`.
pub fn push_u32(out: &mut Vec<u8>, n: u32)
    ensures
        final(out)@ == old(out)@ + u32_bytes(n),
{
    let b = u32_le_bytes(n);
    out.push(b[0]);
    out.push(b[1]);
    out.push(b[2]);
    out.push(b[3]);
    assert(out@ =~= old(out)@ + u32_bytes(n));
}

} // verus!
