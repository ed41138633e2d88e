//! Byte encodings of `u32` values and byte-range updates, in spec and in code.
use vstd::prelude::*;
use vstd::endian::{endianness, Endian};

verus! {

/// The four little-endian bytes of `x`.
pub open spec fn le_bytes(x: u32) -> Seq<u8> {
    seq![(x % 256) as u8, ((x / 256) % 256) as u8, ((x / 65536) % 256) as u8, (x / 16777216) as u8]
}

/// The value of four little-endian bytes.
pub open spec fn le_value(b: Seq<u8>) -> u32
    recommends
        b.len() == 4,
{
    (b[0] + 256 * b[1] + 65536 * b[2] + 16777216 * b[3]) as u32
}

/// The four big-endian bytes of `x`.
pub open spec fn be_bytes(x: u32) -> Seq<u8> {
    seq![(x / 16777216) as u8, ((x / 65536) % 256) as u8, ((x / 256) % 256) as u8, (x % 256) as u8]
}

/// The value of four big-endian bytes.
pub open spec fn be_value(b: Seq<u8>) -> u32
    recommends
        b.len() == 4,
{
    (b[3] + 256 * b[2] + 65536 * b[1] + 16777216 * b[0]) as u32
}

/// The four bytes of `x` in the byte order of the machine that runs the code.
pub open spec fn native_bytes(x: u32) -> Seq<u8> {
    match endianness() {
        Endian::Little => le_bytes(x),
        Endian::Big => be_bytes(x),
    }
}

/// The value of four bytes read in the byte order of the machine that runs the code.
pub open spec fn native_value(b: Seq<u8>) -> u32 {
    match endianness() {
        Endian::Little => le_value(b),
        Endian::Big => be_value(b),
    }
}

/// `s` with the bytes from `off` on replaced by `b`.
pub open spec fn splice(s: Seq<u8>, off: int, b: Seq<u8>) -> Seq<u8> {
    s.subrange(0, off) + b + s.subrange(off + b.len(), s.len() as int)
}

/// Reading back the little-endian bytes of a value gives the value.
pub proof fn lemma_le_roundtrip(x: u32)
    ensures
        le_bytes(x).len() == 4,
        le_value(le_bytes(x)) == x,
{
    let b = le_bytes(x);
    assert(b[0] == x % 256);
    assert(b[1] == (x / 256) % 256);
    assert(b[2] == (x / 65536) % 256);
    assert(b[3] == x / 16777216);
}

/// Reading back the big-endian bytes of a value gives the value.
pub proof fn lemma_be_roundtrip(x: u32)
    ensures
        be_bytes(x).len() == 4,
        be_value(be_bytes(x)) == x,
{
    let b = be_bytes(x);
    assert(b[3] == x % 256);
    assert(b[2] == (x / 256) % 256);
    assert(b[1] == (x / 65536) % 256);
    assert(b[0] == x / 16777216);
}

/// Reading back the native bytes of a value gives the value.
pub proof fn lemma_native_roundtrip(x: u32)
    ensures
        native_bytes(x).len() == 4,
        native_value(native_bytes(x)) == x,
{
    lemma_le_roundtrip(x);
    lemma_be_roundtrip(x);
}

/// Calls `u32::to_ne_bytes`, which gives the memory representation of `x` in the
/// byte order of the machine; vstd names that order `endianness()`.
#[verifier::external_body]
pub(crate) fn u32_to_ne_bytes(x: u32) -> (b: [u8; 4])
    ensures
        b@ == native_bytes(x),
{
    x.to_ne_bytes()
}

/// Calls `u32::from_ne_bytes`, which reads four bytes as a `u32` in the byte order of
/// the machine; vstd names that order `endianness()`.
#[verifier::external_body]
pub(crate) fn u32_from_ne_bytes(b: [u8; 4]) -> (x: u32)
    ensures
        x == native_value(b@),
{
    u32::from_ne_bytes(b)
}

/// The little-endian bytes of `x`, as `u32::to_le_bytes` gives them.
pub fn u32_to_le(x: u32) -> (b: [u8; 4])
    ensures
        b@ == le_bytes(x),
{
    let b = [(x % 256) as u8, ((x / 256) % 256) as u8, ((x / 65536) % 256) as u8, (x / 16777216) as u8];
    assert(b@ =~= le_bytes(x));
    b
}

/// The value of four little-endian bytes, as `u32::from_le_bytes` gives it.
pub fn u32_from_le(b: &[u8]) -> (x: u32)
    requires
        b@.len() == 4,
    ensures
        x == le_value(b@),
{
    let v: u32 = b[0] as u32 + 256 * (b[1] as u32) + 65536 * (b[2] as u32) + 16777216 * (b[3] as u32);
    v
}

/// Calls `IndexMut::index_mut` with the range `start..end` on an array, which lends
/// out the bytes of that range: what is written through the returned slice lands in
/// those bytes of the array, and the bytes outside the range stay as they were.
#[verifier::external_body]
pub(crate) fn array_range_mut<const N: usize>(a: &mut [u8; N], start: usize, end: usize) -> (s: &mut [u8])
    requires
        start <= end <= N,
    ensures
        s@ == old(a)@.subrange(start as int, end as int),
        final(s)@.len() == end - start,
        final(a)@ == old(a)@.subrange(0, start as int) + final(s)@ + old(a)@.subrange(
            end as int,
            N as int,
        ),
{
    &mut a[start..end]
}

/// Copies `src` into `dest` at offset `off`, as `copy_from_slice` on a subrange does.
pub fn copy_into(dest: &mut [u8], off: usize, src: &[u8])
    requires
        off + src@.len() <= old(dest)@.len(),
    ensures
        final(dest)@ == splice(old(dest)@, off as int, src@),
{
    let n = src.len();
    let dest_len = dest.len();
    let mut i: usize = 0;
    while i < n
        invariant
            n == src@.len(),
            0 <= i <= n,
            off + n <= dest_len,
            dest@.len() == dest_len,
            dest_len == old(dest)@.len(),
            dest@ == splice(old(dest)@, off as int, src@.subrange(0, i as int)),
        decreases n - i,
    {
        dest[off + i] = src[i];
        i = i + 1;
        assert(dest@ =~= splice(old(dest)@, off as int, src@.subrange(0, i as int)));
    }
    assert(src@.subrange(0, n as int) =~= src@);
}

} // verus!
