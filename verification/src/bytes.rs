//! Big- and little-endian byte encodings shared by the binary formats.

use vstd::prelude::*;

verus! {

/// The two big-endian bytes of `v`.
pub open spec fn be16_bytes(v: int) -> Seq<u8> {
    seq![((v / 256) % 256) as u8, (v % 256) as u8]
}

/// The four big-endian bytes of `v`.
pub open spec fn be32_bytes(v: int) -> Seq<u8> {
    seq![
        ((v / 0x1000000) % 256) as u8,
        ((v / 0x10000) % 256) as u8,
        ((v / 256) % 256) as u8,
        (v % 256) as u8,
    ]
}

/// The big-endian 16-bit value stored at `s[o..o+2]`.
pub open spec fn be16_at(s: Seq<u8>, o: int) -> int {
    s[o] * 256 + s[o + 1]
}

/// The big-endian 24-bit value stored at `s[o..o+3]`.
pub open spec fn be24_at(s: Seq<u8>, o: int) -> int {
    s[o] * 0x10000 + s[o + 1] * 256 + s[o + 2]
}

/// The big-endian 32-bit value stored at `s[o..o+4]`.
pub open spec fn be32_at(s: Seq<u8>, o: int) -> int {
    s[o] * 0x1000000 + s[o + 1] * 0x10000 + s[o + 2] * 256 + s[o + 3]
}

/// The little-endian 16-bit value stored at `s[o..o+2]`.
pub open spec fn le16_at(s: Seq<u8>, o: int) -> int {
    s[o] + s[o + 1] * 256
}

/// The little-endian 32-bit value stored at `s[o..o+4]`.
pub open spec fn le32_at(s: Seq<u8>, o: int) -> int {
    s[o] + s[o + 1] * 256 + s[o + 2] * 0x10000 + s[o + 3] * 0x1000000
}

/// The two's-complement reading of a 16-bit pattern.
pub open spec fn as_i16(v: int) -> int {
    if v >= 0x8000 { v - 0x10000 } else { v }
}

/// `n` zero bytes.
pub open spec fn zeros(n: nat) -> Seq<u8> {
    Seq::new(n, |i: int| 0u8)
}

/// Reading back the bytes of a 16-bit encoding gives the value.
pub proof fn lemma_be16_roundtrip(v: int)
    requires
        0 <= v < 0x10000,
    ensures
        be16_at(be16_bytes(v), 0) == v,
{
}

/// Reading back the bytes of a 32-bit encoding gives the value.
pub proof fn lemma_be32_roundtrip(v: int)
    requires
        0 <= v < 0x1_0000_0000,
    ensures
        be32_at(be32_bytes(v), 0) == v,
{
}

/// Append the big-endian bytes of `v` to `out`.
pub fn push_be16(out: &mut Vec<u8>, v: u16)
    ensures
        final(out)@ == old(out)@ + be16_bytes(v as int),
{
    out.push((v / 256) as u8);
    out.push((v % 256) as u8);
    assert(final(out)@ =~= old(out)@ + be16_bytes(v as int));
}

/// Append the big-endian bytes of `v` to `out`.
pub fn push_be32(out: &mut Vec<u8>, v: u32)
    ensures
        final(out)@ == old(out)@ + be32_bytes(v as int),
{
    out.push((v / 0x1000000) as u8);
    out.push(((v / 0x10000) % 256) as u8);
    out.push(((v / 256) % 256) as u8);
    out.push((v % 256) as u8);
    assert(final(out)@ =~= old(out)@ + be32_bytes(v as int));
}

/// Append `n` zero bytes to `out`.
pub fn push_zeros(out: &mut Vec<u8>, n: usize)
    ensures
        final(out)@ == old(out)@ + zeros(n as nat),
{
    let mut i: usize = 0;
    while i < n
        invariant
            i <= n,
            out@ == old(out)@ + zeros(i as nat),
        decreases n - i,
    {
        out.push(0u8);
        i = i + 1;
        assert(out@ =~= old(out)@ + zeros(i as nat));
    }
}

/// Append every byte of `src` to `out`.
pub fn push_all(out: &mut Vec<u8>, src: &[u8])
    ensures
        final(out)@ == old(out)@ + src@,
{
    let mut i: usize = 0;
    while i < src.len()
        invariant
            i <= src.len(),
            out@ == old(out)@ + src@.take(i as int),
        decreases src.len() - i,
    {
        out.push(src[i]);
        i = i + 1;
        assert(out@ =~= old(out)@ + src@.take(i as int));
    }
    assert(src@.take(src.len() as int) =~= src@);
}

} // verus!
