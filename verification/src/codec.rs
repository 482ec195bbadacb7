//! Little-endian fields inside byte buffers.
use vstd::prelude::*;
use vstd::bytes::*;
use vstd::slice::*;

verus! {

/// `s` with the bytes from `off` on replaced by `b`.
pub open spec fn patch(s: Seq<u8>, off: int, b: Seq<u8>) -> Seq<u8> {
    Seq::new(s.len(), |i: int| if off <= i < off + b.len() { b[i - off] } else { s[i] })
}

/// The 16-bit little-endian number at `off`.
pub open spec fn le16(s: Seq<u8>, off: int) -> u16 {
    spec_u16_from_le_bytes(s.subrange(off, off + 2))
}

/// The 32-bit little-endian number at `off`.
pub open spec fn le32(s: Seq<u8>, off: int) -> u32 {
    spec_u32_from_le_bytes(s.subrange(off, off + 4))
}

/// The 128-bit little-endian number at `off`.
pub open spec fn le128(s: Seq<u8>, off: int) -> u128 {
    spec_u128_from_le_bytes(s.subrange(off, off + 16))
}

/// A sequence of `n` zero bytes.
pub open spec fn zeros(n: nat) -> Seq<u8> {
    Seq::new(n, |i: int| 0u8)
}

/// Reading back what was patched in gives the patch.
pub proof fn lemma_patch_read(s: Seq<u8>, off: int, b: Seq<u8>)
    requires
        0 <= off,
        off + b.len() <= s.len(),
    ensures
        patch(s, off, b).subrange(off, off + b.len()) == b,
{
    assert(patch(s, off, b).subrange(off, off + b.len()) =~= b);
}

/// A patch leaves every range that it does not touch as it was.
pub proof fn lemma_patch_frame(s: Seq<u8>, off: int, b: Seq<u8>, from: int, to: int)
    requires
        0 <= from <= to <= s.len(),
        to <= off || off + b.len() <= from,
    ensures
        patch(s, off, b).subrange(from, to) == s.subrange(from, to),
{
    assert(patch(s, off, b).subrange(from, to) =~= s.subrange(from, to));
}

/// Two bytes written at `off` are read back there as the number written.
pub proof fn lemma_le16_patch(s: Seq<u8>, off: int, v: u16)
    requires
        0 <= off,
        off + 2 <= s.len(),
    ensures
        le16(patch(s, off, spec_u16_to_le_bytes(v)), off) == v,
{
    lemma_auto_spec_u16_to_from_le_bytes();
    lemma_patch_read(s, off, spec_u16_to_le_bytes(v));
}

/// Four bytes written at `off` are read back there as the number
/// written.
pub proof fn lemma_le32_patch(s: Seq<u8>, off: int, v: u32)
    requires
        0 <= off,
        off + 4 <= s.len(),
    ensures
        le32(patch(s, off, spec_u32_to_le_bytes(v)), off) == v,
{
    lemma_auto_spec_u32_to_from_le_bytes();
    lemma_patch_read(s, off, spec_u32_to_le_bytes(v));
}

/// Sixteen bytes written at `off` are read back there as the number
/// written.
pub proof fn lemma_le128_patch(s: Seq<u8>, off: int, v: u128)
    requires
        0 <= off,
        off + 16 <= s.len(),
    ensures
        le128(patch(s, off, spec_u128_to_le_bytes(v)), off) == v,
{
    lemma_auto_spec_u128_to_from_le_bytes();
    lemma_patch_read(s, off, spec_u128_to_le_bytes(v));
}

/// A vector of `n` zero bytes.
pub fn zeroed(n: usize) -> (v: Vec<u8>)
    ensures
        v@ == zeros(n as nat),
{
    let mut v: Vec<u8> = Vec::new();
    let mut i: usize = 0;
    while i < n
        invariant
            i <= n,
            v@.len() == i,
            forall|j: int| 0 <= j < i ==> v@[j] == 0u8,
        decreases n - i,
    {
        v.push(0u8);
        i += 1;
    }
    assert(v@ =~= zeros(n as nat));
    v
}

/// Copies `src` over the bytes of `buf` from `off` on.
pub fn put_bytes(buf: &mut Vec<u8>, off: usize, src: &[u8])
    requires
        off + src@.len() <= old(buf)@.len(),
    ensures
        final(buf)@ == patch(old(buf)@, off as int, src@),
{
    let n = src.len();
    let total = buf.len();
    let mut i: usize = 0;
    while i < n
        invariant
            n == src@.len(),
            i <= n,
            total == buf@.len(),
            buf@.len() == old(buf)@.len(),
            off + n <= buf@.len(),
            forall|j: int|
                0 <= j < buf@.len() ==> buf@[j] == if off <= j < off + i {
                    src@[j - off]
                } else {
                    old(buf)@[j]
                },
        decreases n - i,
    {
        buf[off + i] = src[i];
        i += 1;
    }
    assert(buf@ =~= patch(old(buf)@, off as int, src@));
}

/// The `len` bytes of `buf` from `off` on, as a vector of their own.
pub fn get_bytes(buf: &[u8], off: usize, len: usize) -> (out: Vec<u8>)
    requires
        off + len <= buf@.len(),
    ensures
        out@ == buf@.subrange(off as int, off + len),
{
    let total = buf.len();
    slice_to_vec(slice_subrange(buf, off, off + len))
}

/// The little-endian number in the two bytes at `off`.
pub fn get_u16(buf: &[u8], off: usize) -> (v: u16)
    requires
        off + 2 <= buf@.len(),
    ensures
        v == le16(buf@, off as int),
{
    let total = buf.len();
    u16_from_le_bytes(slice_subrange(buf, off, off + 2))
}

/// The little-endian number in the four bytes at `off`.
pub fn get_u32(buf: &[u8], off: usize) -> (v: u32)
    requires
        off + 4 <= buf@.len(),
    ensures
        v == le32(buf@, off as int),
{
    let total = buf.len();
    u32_from_le_bytes(slice_subrange(buf, off, off + 4))
}

/// The little-endian number in the sixteen bytes at `off`.
pub fn get_u128(buf: &[u8], off: usize) -> (v: u128)
    requires
        off + 16 <= buf@.len(),
    ensures
        v == le128(buf@, off as int),
{
    let total = buf.len();
    u128_from_le_bytes(slice_subrange(buf, off, off + 16))
}

/// Writes `v` as two little-endian bytes at `off`.
pub fn put_u16(buf: &mut Vec<u8>, off: usize, v: u16)
    requires
        off + 2 <= old(buf)@.len(),
    ensures
        final(buf)@ == patch(old(buf)@, off as int, spec_u16_to_le_bytes(v)),
{
    let b = u16_to_le_bytes(v);
    put_bytes(buf, off, b.as_slice());
}

/// Writes `v` as four little-endian bytes at `off`.
pub fn put_u32(buf: &mut Vec<u8>, off: usize, v: u32)
    requires
        off + 4 <= old(buf)@.len(),
    ensures
        final(buf)@ == patch(old(buf)@, off as int, spec_u32_to_le_bytes(v)),
{
    let b = u32_to_le_bytes(v);
    put_bytes(buf, off, b.as_slice());
}

/// Writes `v` as sixteen little-endian bytes at `off`.
pub fn put_u128(buf: &mut Vec<u8>, off: usize, v: u128)
    requires
        off + 16 <= old(buf)@.len(),
    ensures
        final(buf)@ == patch(old(buf)@, off as int, spec_u128_to_le_bytes(v)),
{
    let b = u128_to_le_bytes(v);
    put_bytes(buf, off, b.as_slice());
}

/// Writes the byte `v` at `off`.
pub fn put_u8(buf: &mut Vec<u8>, off: usize, v: u8)
    requires
        off < old(buf)@.len(),
    ensures
        final(buf)@ == patch(old(buf)@, off as int, seq![v]),
{
    buf[off] = v;
    assert(buf@ =~= patch(old(buf)@, off as int, seq![v]));
}

pub broadcast proof fn lemma_u16_bytes_len(v: u16)
    ensures
        (#[trigger] spec_u16_to_le_bytes(v)).len() == 2,
{
    lemma_auto_spec_u16_to_from_le_bytes();
}

pub broadcast proof fn lemma_u32_bytes_len(v: u32)
    ensures
        (#[trigger] spec_u32_to_le_bytes(v)).len() == 4,
{
    lemma_auto_spec_u32_to_from_le_bytes();
}

pub broadcast proof fn lemma_u128_bytes_len(v: u128)
    ensures
        (#[trigger] spec_u128_to_le_bytes(v)).len() == 16,
{
    lemma_auto_spec_u128_to_from_le_bytes();
}

/// A field that a patch does not touch reads as before.
pub broadcast proof fn lemma_le16_frame(s: Seq<u8>, off: int, b: Seq<u8>, at: int)
    requires
        0 <= at,
        at + 2 <= s.len(),
        at + 2 <= off || off + b.len() <= at,
    ensures
        #[trigger] le16(patch(s, off, b), at) == le16(s, at),
{
    lemma_patch_frame(s, off, b, at, at + 2);
}

pub broadcast proof fn lemma_le32_frame(s: Seq<u8>, off: int, b: Seq<u8>, at: int)
    requires
        0 <= at,
        at + 4 <= s.len(),
        at + 4 <= off || off + b.len() <= at,
    ensures
        #[trigger] le32(patch(s, off, b), at) == le32(s, at),
{
    lemma_patch_frame(s, off, b, at, at + 4);
}

pub broadcast proof fn lemma_le128_frame(s: Seq<u8>, off: int, b: Seq<u8>, at: int)
    requires
        0 <= at,
        at + 16 <= s.len(),
        at + 16 <= off || off + b.len() <= at,
    ensures
        #[trigger] le128(patch(s, off, b), at) == le128(s, at),
{
    lemma_patch_frame(s, off, b, at, at + 16);
}

/// A field reads as the number that was last written to it.
pub broadcast proof fn lemma_le16_same(s: Seq<u8>, off: int, v: u16)
    requires
        0 <= off,
        off + 2 <= s.len(),
    ensures
        #[trigger] le16(patch(s, off, spec_u16_to_le_bytes(v)), off) == v,
{
    lemma_le16_patch(s, off, v);
}

pub broadcast proof fn lemma_le32_same(s: Seq<u8>, off: int, v: u32)
    requires
        0 <= off,
        off + 4 <= s.len(),
    ensures
        #[trigger] le32(patch(s, off, spec_u32_to_le_bytes(v)), off) == v,
{
    lemma_le32_patch(s, off, v);
}

pub broadcast proof fn lemma_le128_same(s: Seq<u8>, off: int, v: u128)
    requires
        0 <= off,
        off + 16 <= s.len(),
    ensures
        #[trigger] le128(patch(s, off, spec_u128_to_le_bytes(v)), off) == v,
{
    lemma_le128_patch(s, off, v);
}

pub broadcast group group_codec {
    lemma_u16_bytes_len,
    lemma_u32_bytes_len,
    lemma_u128_bytes_len,
    lemma_le16_frame,
    lemma_le32_frame,
    lemma_le128_frame,
    lemma_le16_same,
    lemma_le32_same,
    lemma_le128_same,
}

} // verus!
