//! Patch the `'SIZE'` (-1) resource of the launcher MacBinary, so each build
//! gives the shell a memory partition sized to its target machine.
//!
//! A `'SIZE'` resource body is `flags (u16) | preferredSize (u32) |
//! minimumSize (u32)`; only the two sizes are overwritten. The bytes are a
//! MacBinary file: a 128-byte header, the data fork padded to 128 bytes, then
//! the resource fork, whose map is walked to find type `SIZE`, id -1.

use crate::bytes::{as_i16, be16_at, be24_at, be32_at, be32_bytes};
use vstd::prelude::*;

verus! {

/// Why the `'SIZE'` (-1) resource could not be patched.
#[derive(Debug, Clone, Copy, PartialEq, Eq, Structural)]
pub enum SizeError {
    /// Shorter than a 128-byte MacBinary header.
    NotMacBinary,
    /// The MacBinary has an empty resource fork.
    NoResourceFork,
    /// The resource fork runs past the end of the file.
    ForkPastEnd,
    /// The resource fork is shorter than its 16-byte header.
    ForkTooSmall,
    /// The map offset leaves no room for the 28-byte map header.
    MapOutOfRange,
    /// The type list offset points past the map.
    TypeListOutOfRange,
    /// A type entry runs past the map.
    TruncatedTypeList,
    /// A `SIZE` reference entry runs past the map.
    TruncatedRefList,
    /// The `SIZE` (-1) data offset points past the fork.
    DataOutOfRange,
    /// The `SIZE` (-1) body is shorter than 10 bytes.
    BodyTooShort,
    /// The first `SIZE` type has no id -1 resource.
    NoMinusOne,
    /// The fork has no `SIZE` type.
    NoSizeType,
}

/// `n` rounded up to a multiple of 128.
pub open spec fn pad128(n: int) -> int {
    ((n + 127) / 128) * 128
}

/// Where the resource fork of a MacBinary file starts, and its length.
pub open spec fn macbinary_fork(b: Seq<u8>) -> Result<(int, int), SizeError> {
    if b.len() < 128 {
        Err(SizeError::NotMacBinary)
    } else {
        let data_len = be32_at(b, 83);
        let rsrc_len = be32_at(b, 87);
        let start = 128 + pad128(data_len);
        if rsrc_len == 0 {
            Err(SizeError::NoResourceFork)
        } else if start + rsrc_len > b.len() {
            Err(SizeError::ForkPastEnd)
        } else {
            Ok((start, rsrc_len))
        }
    }
}

/// The tag `SIZE`.
pub open spec fn tag_size() -> Seq<u8> {
    seq![0x53u8, 0x49, 0x5A, 0x45]
}

/// Scan `k` reference entries from `rp` (relative to the map) for id -1 and
/// return where its body starts in the fork `rf`.
pub open spec fn scan_refs(rf: Seq<u8>, map: Seq<u8>, data_off: int, rp: int, k: int) -> Result<int, SizeError>
    decreases k,
{
    if k <= 0 {
        Err(SizeError::NoMinusOne)
    } else if rp + 12 > map.len() {
        Err(SizeError::TruncatedRefList)
    } else if as_i16(be16_at(map, rp)) != -1 {
        scan_refs(rf, map, data_off, rp + 12, k - 1)
    } else {
        let abs = data_off + be24_at(map, rp + 5);
        if abs + 4 > rf.len() {
            Err(SizeError::DataOutOfRange)
        } else if be32_at(rf, abs) < 10 || abs + 14 > rf.len() {
            Err(SizeError::BodyTooShort)
        } else {
            Ok(abs + 4)
        }
    }
}

/// Scan `k` type entries from `p` (relative to the map) for the first `SIZE`
/// type and look for id -1 among its references.
pub open spec fn scan_types(rf: Seq<u8>, map: Seq<u8>, data_off: int, tlo: int, p: int, k: int) -> Result<int, SizeError>
    decreases k,
{
    if k <= 0 {
        Err(SizeError::NoSizeType)
    } else if p + 8 > map.len() {
        Err(SizeError::TruncatedTypeList)
    } else if map.subrange(p, p + 4) != tag_size() {
        scan_types(rf, map, data_off, tlo, p + 8, k - 1)
    } else {
        scan_refs(rf, map, data_off, tlo + be16_at(map, p + 6), be16_at(map, p + 4) + 1)
    }
}

/// Where the 10-byte body of the `'SIZE'` (-1) resource starts in the
/// resource fork `rf`.
pub open spec fn size_body(rf: Seq<u8>) -> Result<int, SizeError> {
    if rf.len() < 16 {
        Err(SizeError::ForkTooSmall)
    } else {
        let data_off = be32_at(rf, 0);
        let map_off = be32_at(rf, 4);
        if map_off + 28 > rf.len() {
            Err(SizeError::MapOutOfRange)
        } else {
            let map = rf.subrange(map_off, rf.len() as int);
            let tlo = be16_at(map, 24);
            if tlo + 2 > map.len() {
                Err(SizeError::TypeListOutOfRange)
            } else {
                scan_types(rf, map, data_off, tlo, tlo + 2, be16_at(map, tlo) + 1)
            }
        }
    }
}

proof fn lemma_scan_refs_bound(rf: Seq<u8>, map: Seq<u8>, data_off: int, rp: int, k: int)
    ensures
        scan_refs(rf, map, data_off, rp, k) matches Ok(b) ==> b + 10 <= rf.len(),
    decreases k,
{
    if k > 0 && rp + 12 <= map.len() && as_i16(be16_at(map, rp)) != -1 {
        lemma_scan_refs_bound(rf, map, data_off, rp + 12, k - 1);
    }
}

proof fn lemma_scan_types_bound(rf: Seq<u8>, map: Seq<u8>, data_off: int, tlo: int, p: int, k: int)
    ensures
        scan_types(rf, map, data_off, tlo, p, k) matches Ok(b) ==> b + 10 <= rf.len(),
    decreases k,
{
    if k > 0 && p + 8 <= map.len() {
        if map.subrange(p, p + 4) != tag_size() {
            lemma_scan_types_bound(rf, map, data_off, tlo, p + 8, k - 1);
        } else {
            lemma_scan_refs_bound(rf, map, data_off, tlo + be16_at(map, p + 6), be16_at(map, p + 4) + 1);
        }
    }
}

/// The body found lies inside the fork.
proof fn lemma_size_body_bound(rf: Seq<u8>)
    ensures
        size_body(rf) matches Ok(b) ==> b + 10 <= rf.len(),
{
    if rf.len() >= 16 {
        let data_off = be32_at(rf, 0);
        let map_off = be32_at(rf, 4);
        if map_off + 28 <= rf.len() {
            let map = rf.subrange(map_off, rf.len() as int);
            let tlo = be16_at(map, 24);
            lemma_scan_types_bound(rf, map, data_off, tlo, tlo + 2, be16_at(map, tlo) + 1);
        }
    }
}

fn rd32(b: &[u8], o: u64) -> (v: u64)
    requires
        o + 4 <= b@.len(),
    ensures
        v == be32_at(b@, o as int),
{
    let o = o as usize;
    (b[o] as u64) * 0x1000000 + (b[o + 1] as u64) * 0x10000 + (b[o + 2] as u64) * 256 + b[o + 3] as u64
}

fn rd16(b: &[u8], o: u64) -> (v: u64)
    requires
        o + 2 <= b@.len(),
    ensures
        v == be16_at(b@, o as int),
{
    let o = o as usize;
    (b[o] as u64) * 256 + b[o + 1] as u64
}

/// Start and length of the resource fork inside a MacBinary buffer.
pub fn macbinary_rsrc_fork(bytes: &[u8]) -> (r: Result<(usize, usize), SizeError>)
    ensures
        match (r, macbinary_fork(bytes@)) {
            (Ok(v), Ok(w)) => v.0 == w.0 && v.1 == w.1,
            (Err(e), Err(f)) => e == f,
            _ => false,
        },
{
    let n = bytes.len();
    if n < 128 {
        return Err(SizeError::NotMacBinary);
    }
    let data_len = rd32(bytes, 83);
    let rsrc_len = rd32(bytes, 87);
    let start: u64 = 128 + ((data_len + 127) / 128) * 128;
    if rsrc_len == 0 {
        return Err(SizeError::NoResourceFork);
    }
    if start + rsrc_len > n as u64 {
        return Err(SizeError::ForkPastEnd);
    }
    Ok((start as usize, rsrc_len as usize))
}

/// The byte range of the `'SIZE'` (-1) resource's 10-byte body inside the
/// resource fork `rf`.
pub fn find_size_minus1_body(rf: &[u8]) -> (r: Result<(usize, usize), SizeError>)
    ensures
        match (r, size_body(rf@)) {
            (Ok(v), Ok(w)) => v.0 == w && v.1 == w + 10,
            (Err(e), Err(f)) => e == f,
            _ => false,
        },
{
    let nu: usize = rf.len();
    let n = nu as u64;
    if n < 16 {
        return Err(SizeError::ForkTooSmall);
    }
    let data_off = rd32(rf, 0);
    let map_off = rd32(rf, 4);
    if map_off + 28 > n {
        return Err(SizeError::MapOutOfRange);
    }
    let ghost map = rf@.subrange(map_off as int, rf@.len() as int);
    let mlen = n - map_off;
    let tlo = rd16(rf, map_off + 24);
    if tlo + 2 > mlen {
        return Err(SizeError::TypeListOutOfRange);
    }
    let ntypes: u64 = rd16(rf, map_off + tlo) + 1;
    let mut p: u64 = tlo + 2;
    let mut t: u64 = 0;
    while t < ntypes
        invariant
            n == rf@.len(),
            nu == n,
            map_off + 28 <= n,
            mlen == n - map_off,
            map == rf@.subrange(map_off as int, rf@.len() as int),
            data_off < 0x1_0000_0000,
            tlo < 0x10000,
            t <= ntypes <= 0x10000,
            p == tlo + 2 + 8 * t,
            size_body(rf@) == scan_types(rf@, map, data_off as int, tlo as int, p as int, (ntypes - t) as int),
        decreases ntypes - t,
    {
        if p + 8 > mlen {
            return Err(SizeError::TruncatedTypeList);
        }
        let a = map_off + p;
        let is_size = rf[a as usize] == 0x53 && rf[a as usize + 1] == 0x49 && rf[a as usize + 2] == 0x5A
            && rf[a as usize + 3] == 0x45;
        proof {
            let ty = map.subrange(p as int, p + 4);
            assert(ty[0] == rf@[a as int] && ty[1] == rf@[a + 1] && ty[2] == rf@[a + 2] && ty[3] == rf@[a + 3]);
            if is_size {
                assert(ty =~= tag_size());
            } else if ty == tag_size() {
                assert(false);
            }
        }
        let count = rd16(rf, a + 4) + 1;
        let ref_off = rd16(rf, a + 6);
        if is_size {
            let mut rp: u64 = tlo + ref_off;
            let mut k: u64 = 0;
            while k < count
                invariant
                    n == rf@.len(),
                    nu == n,
                    map_off + 28 <= n,
                    mlen == n - map_off,
                    map == rf@.subrange(map_off as int, rf@.len() as int),
                    data_off < 0x1_0000_0000,
                    k <= count <= 0x10000,
                    rp <= 0x20000 + 12 * k,
                    size_body(rf@) == scan_refs(rf@, map, data_off as int, rp as int, (count - k) as int),
                decreases count - k,
            {
                if rp + 12 > mlen {
                    return Err(SizeError::TruncatedRefList);
                }
                let b = map_off + rp;
                let idv = rd16(rf, b);
                let bu = b as usize;
                let d = (rf[bu + 5] as u64) * 0x10000 + (rf[bu + 6] as u64) * 256 + rf[bu + 7] as u64;
                if idv == 0xFFFF {
                    let abs = data_off + d;
                    if abs + 4 > n {
                        return Err(SizeError::DataOutOfRange);
                    }
                    let body_len = rd32(rf, abs);
                    if body_len < 10 || abs + 14 > n {
                        return Err(SizeError::BodyTooShort);
                    }
                    return Ok(((abs + 4) as usize, (abs + 14) as usize));
                }
                rp = rp + 12;
                k = k + 1;
            }
            return Err(SizeError::NoMinusOne);
        }
        p = p + 8;
        t = t + 1;
    }
    Err(SizeError::NoSizeType)
}

/// Overwrite `bytes[off..off + 4]` with the big-endian bytes of `v`.
fn put_be32(bytes: &mut Vec<u8>, off: usize, v: u32)
    requires
        off + 4 <= old(bytes)@.len(),
    ensures
        final(bytes)@ == old(bytes)@.subrange(0, off as int) + be32_bytes(v as int)
            + old(bytes)@.subrange(off + 4, old(bytes)@.len() as int),
{
    let _len = bytes.len();
    bytes.set(off, (v / 0x1000000) as u8);
    bytes.set(off + 1, ((v / 0x10000) % 256) as u8);
    bytes.set(off + 2, ((v / 256) % 256) as u8);
    bytes.set(off + 3, (v % 256) as u8);
    assert(final(bytes)@ =~= old(bytes)@.subrange(0, off as int) + be32_bytes(v as int)
        + old(bytes)@.subrange(off + 4, old(bytes)@.len() as int));
}

/// Overwrite the preferred and minimum partition sizes (in bytes) of the
/// `'SIZE'` (-1) resource in a launcher MacBinary, in place, and return the
/// previous `(preferred, minimum)`. The flags word is left untouched; on an
/// error nothing is written.
pub fn patch_app_mem(bytes: &mut Vec<u8>, preferred: u32, minimum: u32) -> (r: Result<(u32, u32), SizeError>)
    ensures
        match macbinary_fork(old(bytes)@) {
            Err(e) => r == Err::<(u32, u32), SizeError>(e) && final(bytes)@ == old(bytes)@,
            Ok((start, len)) => match size_body(old(bytes)@.subrange(start, start + len)) {
                Err(e) => r == Err::<(u32, u32), SizeError>(e) && final(bytes)@ == old(bytes)@,
                Ok(body) => {
                    let pref_off = start + body + 2;
                    let min_off = start + body + 6;
                    &&& r == Ok::<(u32, u32), SizeError>((
                        be32_at(old(bytes)@, pref_off) as u32,
                        be32_at(old(bytes)@, min_off) as u32,
                    ))
                    &&& final(bytes)@ == old(bytes)@.subrange(0, pref_off) + be32_bytes(preferred as int)
                        + be32_bytes(minimum as int) + old(bytes)@.subrange(min_off + 4, old(bytes)@.len() as int)
                },
            },
        },
{
    let bl = bytes.len();
    let (fork_start, fork_len) = macbinary_rsrc_fork(bytes.as_slice())?;
    let rf = vstd::slice::slice_subrange(bytes.as_slice(), fork_start, fork_start + fork_len);
    let (body_lo, _body_hi) = find_size_minus1_body(rf)?;
    proof {
        lemma_size_body_bound(rf@);
    }
    let pref_off = fork_start + body_lo + 2;
    let min_off = fork_start + body_lo + 6;
    let old_pref = rd32(bytes.as_slice(), pref_off as u64) as u32;
    let old_min = rd32(bytes.as_slice(), min_off as u64) as u32;
    let ghost orig = bytes@;
    put_be32(bytes, pref_off, preferred);
    let ghost mid = bytes@;
    put_be32(bytes, min_off, minimum);
    assert(bytes@ =~= orig.subrange(0, pref_off as int) + be32_bytes(preferred as int)
        + be32_bytes(minimum as int) + orig.subrange(min_off + 4, orig.len() as int));
    Ok((old_pref, old_min))
}

/// The current preferred and minimum partition sizes (in bytes) of the
/// `'SIZE'` (-1) resource in a launcher MacBinary.
pub fn read_app_mem(bytes: &[u8]) -> (r: Result<(u32, u32), SizeError>)
    ensures
        match macbinary_fork(bytes@) {
            Err(e) => r == Err::<(u32, u32), SizeError>(e),
            Ok((start, len)) => match size_body(bytes@.subrange(start, start + len)) {
                Err(e) => r == Err::<(u32, u32), SizeError>(e),
                Ok(body) => r == Ok::<(u32, u32), SizeError>((
                    be32_at(bytes@, start + body + 2) as u32,
                    be32_at(bytes@, start + body + 6) as u32,
                )),
            },
        },
{
    let _n = bytes.len();
    let (fork_start, fork_len) = macbinary_rsrc_fork(bytes)?;
    let rf = vstd::slice::slice_subrange(bytes, fork_start, fork_start + fork_len);
    let (body_lo, _body_hi) = find_size_minus1_body(rf)?;
    proof {
        lemma_size_body_bound(rf@);
    }
    let pref = rd32(bytes, (fork_start + body_lo + 2) as u64) as u32;
    let min = rd32(bytes, (fork_start + body_lo + 6) as u64) as u32;
    Ok((pref, min))
}

} // verus!
