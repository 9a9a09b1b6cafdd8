//! App-icon harvest: decode a BinHex 4.0 (`.hqx`) app, parse its resource
//! fork, and extract the Finder icon (`ICN#`) as a raw 1-bit bitmap, or the
//! 8-bit colour icon (`icl8`) as RGBA pixels.
//!
//! The icon is resolved the Finder way — `BNDL` → the `FREF` whose file type is
//! `APPL` → that local id's `ICN#` — falling back to the lowest-id `ICN#`.

use crate::bytes::{as_i16, be16_at, be24_at, be32_at, push_all};
use vstd::prelude::*;
use vstd::slice::slice_subrange;

verus! {

// ---- big-endian readers (all bounds-checked, None on overrun) --------------

/// The 16-bit value at `o`, if two bytes are there.
pub open spec fn be16_opt(b: Seq<u8>, o: int) -> Option<int> {
    if 0 <= o && o + 2 <= b.len() { Some(be16_at(b, o)) } else { None }
}

/// The 24-bit value at `o`, if three bytes are there.
pub open spec fn be24_opt(b: Seq<u8>, o: int) -> Option<int> {
    if 0 <= o && o + 3 <= b.len() { Some(be24_at(b, o)) } else { None }
}

/// The 32-bit value at `o`, if four bytes are there.
pub open spec fn be32_opt(b: Seq<u8>, o: int) -> Option<int> {
    if 0 <= o && o + 4 <= b.len() { Some(be32_at(b, o)) } else { None }
}

pub fn be_u16(b: &[u8], o: u64) -> (r: Option<u16>)
    requires
        o + 2 <= u64::MAX,
    ensures
        r matches Some(v) ==> be16_opt(b@, o as int) == Some(v as int),
        r is None ==> be16_opt(b@, o as int) is None,
{
    if o + 2 <= b.len() as u64 {
        let o = o as usize;
        Some((b[o] as u16) * 256 + b[o + 1] as u16)
    } else {
        None
    }
}

pub fn be_i16(b: &[u8], o: u64) -> (r: Option<i16>)
    requires
        o + 2 <= u64::MAX,
    ensures
        r matches Some(v) ==> be16_opt(b@, o as int) matches Some(u) && v as int == as_i16(u),
        r is None ==> be16_opt(b@, o as int) is None,
{
    match be_u16(b, o) {
        Some(v) => {
            let r: i16 = if v >= 0x8000 { (v as i32 - 0x10000) as i16 } else { v as i16 };
            Some(r)
        },
        None => None,
    }
}

pub fn be_u24(b: &[u8], o: u64) -> (r: Option<u32>)
    requires
        o + 3 <= u64::MAX,
    ensures
        r matches Some(v) ==> be24_opt(b@, o as int) == Some(v as int),
        r is None ==> be24_opt(b@, o as int) is None,
{
    if o + 3 <= b.len() as u64 {
        let o = o as usize;
        Some((b[o] as u32) * 0x10000 + (b[o + 1] as u32) * 256 + b[o + 2] as u32)
    } else {
        None
    }
}

pub fn be_u32(b: &[u8], o: u64) -> (r: Option<u32>)
    requires
        o + 4 <= u64::MAX,
    ensures
        r matches Some(v) ==> be32_opt(b@, o as int) == Some(v as int),
        r is None ==> be32_opt(b@, o as int) is None,
{
    if o + 4 <= b.len() as u64 {
        let o = o as usize;
        Some((b[o] as u32) * 0x1000000 + (b[o + 1] as u32) * 0x10000 + (b[o + 2] as u32) * 256
            + b[o + 3] as u32)
    } else {
        None
    }
}

// ---- resource fork ---------------------------------------------------------

/// The resource whose reference entry sits `r` entries into the reference list
/// at `ref_list`, if every read stays in bounds: `(id, body)`.
pub open spec fn ref_item(rsrc: Seq<u8>, data_off: int, ref_list: int, r: int) -> Seq<(i16, Seq<u8>)> {
    let re = ref_list + r * 12;
    match (be16_opt(rsrc, re), be24_opt(rsrc, re + 5)) {
        (Some(id), Some(d)) => {
            let abs = data_off + d;
            match be32_opt(rsrc, abs) {
                Some(len) => if abs + 4 + len <= rsrc.len() {
                    seq![(as_i16(id) as i16, rsrc.subrange(abs + 4, abs + 4 + len))]
                } else {
                    Seq::empty()
                },
                None => Seq::empty(),
            }
        },
        _ => Seq::empty(),
    }
}

/// The resources of the first `k` reference entries.
pub open spec fn ref_items(rsrc: Seq<u8>, data_off: int, ref_list: int, k: int) -> Seq<(i16, Seq<u8>)>
    decreases k,
{
    if k <= 0 {
        Seq::empty()
    } else {
        ref_items(rsrc, data_off, ref_list, k - 1) + ref_item(rsrc, data_off, ref_list, k - 1)
    }
}

/// The resources contributed by type entry `t` when its type is `want`.
pub open spec fn type_items(rsrc: Seq<u8>, want: Seq<u8>, data_off: int, type_list: int, t: int) -> Seq<(i16, Seq<u8>)> {
    let e = type_list + 2 + t * 8;
    if !(e + 4 <= rsrc.len() && rsrc.subrange(e, e + 4) == want) {
        Seq::empty()
    } else {
        match (be16_opt(rsrc, e + 4), be16_opt(rsrc, e + 6)) {
            (Some(cnt_m1), Some(ref_rel)) => ref_items(rsrc, data_off, type_list + ref_rel, cnt_m1 + 1),
            _ => Seq::empty(),
        }
    }
}

/// The resources of type `want` among the first `k` type entries.
pub open spec fn types_items(rsrc: Seq<u8>, want: Seq<u8>, data_off: int, type_list: int, k: int) -> Seq<(i16, Seq<u8>)>
    decreases k,
{
    if k <= 0 {
        Seq::empty()
    } else {
        types_items(rsrc, want, data_off, type_list, k - 1) + type_items(rsrc, want, data_off, type_list, k - 1)
    }
}

/// Every resource of type `want` in the fork `rsrc`, as `(id, body)`, in map
/// order. Reads that run past the end of the fork drop the entry concerned;
/// a fork whose header or map header cannot be read yields nothing.
pub open spec fn resources_in(rsrc: Seq<u8>, want: Seq<u8>) -> Seq<(i16, Seq<u8>)> {
    match (be32_opt(rsrc, 0), be32_opt(rsrc, 4)) {
        (Some(data_off), Some(map_off)) => match be16_opt(rsrc, map_off + 24) {
            Some(tl_rel) => match be16_opt(rsrc, map_off + tl_rel) {
                Some(ntypes_m1) => types_items(rsrc, want, data_off, map_off + tl_rel, ntypes_m1 + 1),
                None => Seq::empty(),
            },
            None => Seq::empty(),
        },
        _ => Seq::empty(),
    }
}

/// Whether exec results match a spec list of `(id, body)` pairs.
pub open spec fn items_match(got: Seq<(i16, &[u8])>, want: Seq<(i16, Seq<u8>)>) -> bool {
    &&& got.len() == want.len()
    &&& forall|j: int| 0 <= j < got.len() ==> (#[trigger] got[j]).0 == want[j].0 && got[j].1@ == want[j].1
}

/// All resources of `want` type as `(id, data)`, bounds-checked: a malformed
/// map just yields fewer entries.
pub fn resources_of_type<'a>(rsrc: &'a [u8], want: &[u8; 4]) -> (out: Vec<(i16, &'a [u8])>)
    ensures
        items_match(out@, resources_in(rsrc@, want@)),
{
    let mut out: Vec<(i16, &'a [u8])> = Vec::new();
    let data_off = match be_u32(rsrc, 0) {
        Some(v) => v as u64,
        None => return out,
    };
    let map_off = match be_u32(rsrc, 4) {
        Some(v) => v as u64,
        None => return out,
    };
    let type_list_rel = match be_u16(rsrc, map_off + 24) {
        Some(v) => v,
        None => return out,
    };
    let type_list = map_off + type_list_rel as u64;
    let ntypes_m1 = match be_u16(rsrc, type_list) {
        Some(v) => v,
        None => return out,
    };
    let ntypes = ntypes_m1 as u64 + 1;
    let ghost b = rsrc@;
    let mut t: u64 = 0;
    while t < ntypes
        invariant
            t <= ntypes,
            ntypes <= 0x10000,
            data_off < 0x1_0000_0000,
            type_list < 0x2_0000_0000,
            b == rsrc@,
            items_match(out@, types_items(b, want@, data_off as int, type_list as int, t as int)),
        decreases ntypes - t,
    {
        let ghost before = types_items(b, want@, data_off as int, type_list as int, t as int);
        let ghost out_before = out@;
        let e = type_list + 2 + t * 8;
        let matches = e + 4 <= rsrc.len() as u64 && rsrc[e as usize] == want[0]
            && rsrc[e as usize + 1] == want[1] && rsrc[e as usize + 2] == want[2]
            && rsrc[e as usize + 3] == want[3];
        proof {
            if e + 4 <= b.len() {
                if matches {
                    assert(b.subrange(e as int, e as int + 4) =~= want@);
                } else {
                    if b.subrange(e as int, e as int + 4) == want@ {
                        assert(b.subrange(e as int, e as int + 4)[0] == want@[0]);
                        assert(b.subrange(e as int, e as int + 4)[1] == want@[1]);
                        assert(b.subrange(e as int, e as int + 4)[2] == want@[2]);
                        assert(b.subrange(e as int, e as int + 4)[3] == want@[3]);
                    }
                }
            }
        }
        if matches {
            match (be_u16(rsrc, e + 4), be_u16(rsrc, e + 6)) {
                (Some(cnt_m1), Some(ref_rel)) => {
                    let ref_list = type_list + ref_rel as u64;
                    let cnt = cnt_m1 as u64 + 1;
                    let mut r: u64 = 0;
                    while r < cnt
                        invariant
                            r <= cnt,
                            cnt <= 0x10000,
                            data_off < 0x1_0000_0000,
                            ref_list < 0x3_0000_0000,
                            b == rsrc@,
                            items_match(out@, before + ref_items(b, data_off as int, ref_list as int, r as int)),
                        decreases cnt - r,
                    {
                        let re = ref_list + r * 12;
                        let ghost before_r = out@;
                        match (be_i16(rsrc, re), be_u24(rsrc, re + 5)) {
                            (Some(id), Some(d_rel)) => {
                                let abs = data_off + d_rel as u64;
                                match be_u32(rsrc, abs) {
                                    Some(len) => {
                                        if abs + 4 + len as u64 <= rsrc.len() as u64 {
                                            let lo = (abs + 4) as usize;
                                            let hi = (abs + 4 + len as u64) as usize;
                                            let data = slice_subrange(rsrc, lo, hi);
                                            out.push((id, data));
                                        }
                                    },
                                    None => {},
                                }
                            },
                            _ => {},
                        }
                        proof {
                            let acc = before + ref_items(b, data_off as int, ref_list as int, r as int);
                            let nxt = before + ref_items(b, data_off as int, ref_list as int, r as int + 1);
                            assert(nxt =~= acc + ref_item(b, data_off as int, ref_list as int, r as int));
                            assert(out@.len() == nxt.len());
                            assert forall|j: int| 0 <= j < out@.len() implies (#[trigger] out@[j]).0 == nxt[j].0
                                && out@[j].1@ == nxt[j].1 by {
                                if j < before_r.len() {
                                    assert(out@[j] == before_r[j]);
                                    assert(nxt[j] == acc[j]);
                                }
                            }
                        }
                        r = r + 1;
                    }
                },
                _ => {},
            }
        }
        proof {
            let acc = types_items(b, want@, data_off as int, type_list as int, t as int);
            let nxt = types_items(b, want@, data_off as int, type_list as int, t as int + 1);
            assert(nxt =~= acc + type_items(b, want@, data_off as int, type_list as int, t as int));
            assert(ref_items(b, data_off as int, type_list as int, 0) =~= Seq::<(i16, Seq<u8>)>::empty());
            if !matches {
                assert(out@ == out_before);
                assert(nxt =~= acc);
            }
        }
        t = t + 1;
    }
    out
}


// ---- BinHex 4.0 ------------------------------------------------------------

/// Why a `.hqx` could not be decoded.
#[derive(Debug, Clone, Copy, PartialEq, Eq, Structural)]
pub enum HqxError {
    /// The input is not UTF-8 text.
    NotText,
    /// No `:` opens the payload.
    NoStart,
    /// No `:` closes the payload.
    NoEnd,
    /// The decoded stream is empty.
    Empty,
    /// The header's fork lengths cannot be read.
    TruncatedHeader,
    /// The resource fork runs past the end of the stream.
    TruncatedFork,
}

/// The 6-bit value of a BinHex 4.0 symbol: its index in the alphabet
/// ``!"#$%&'()*+,-012345689@ABCDEFGHIJKLMNPQRSTUVXYZ[`abcdefhijklmpqr``
/// (no `7`, `O`, `W`, `g`, `n`, `o`); `None` for any other byte.
pub open spec fn hqx_value(b: u8) -> Option<u8> {
    if 0x21 <= b <= 0x2D {
        Some((b - 0x21) as u8)
    } else if 0x30 <= b <= 0x36 {
        Some((b - 0x30 + 13) as u8)
    } else if 0x38 <= b <= 0x39 {
        Some((b - 0x38 + 20) as u8)
    } else if b == 0x40 {
        Some(22)
    } else if 0x41 <= b <= 0x4E {
        Some((b - 0x41 + 23) as u8)
    } else if 0x50 <= b <= 0x56 {
        Some((b - 0x50 + 37) as u8)
    } else if 0x58 <= b <= 0x5B {
        Some((b - 0x58 + 44) as u8)
    } else if b == 0x60 {
        Some(48)
    } else if 0x61 <= b <= 0x66 {
        Some((b - 0x61 + 49) as u8)
    } else if 0x68 <= b <= 0x6D {
        Some((b - 0x68 + 55) as u8)
    } else if 0x70 <= b <= 0x72 {
        Some((b - 0x70 + 61) as u8)
    } else {
        None
    }
}

pub(crate) fn hqx_value_of(b: u8) -> (r: Option<u8>)
    ensures
        r == hqx_value(b),
        r matches Some(v) ==> v < 64,
{
    if 0x21 <= b && b <= 0x2D {
        Some(b - 0x21)
    } else if 0x30 <= b && b <= 0x36 {
        Some(b - 0x30 + 13)
    } else if 0x38 <= b && b <= 0x39 {
        Some(b - 0x38 + 20)
    } else if b == 0x40 {
        Some(22)
    } else if 0x41 <= b && b <= 0x4E {
        Some(b - 0x41 + 23)
    } else if 0x50 <= b && b <= 0x56 {
        Some(b - 0x50 + 37)
    } else if 0x58 <= b && b <= 0x5B {
        Some(b - 0x58 + 44)
    } else if b == 0x60 {
        Some(48)
    } else if 0x61 <= b && b <= 0x66 {
        Some(b - 0x61 + 49)
    } else if 0x68 <= b && b <= 0x6D {
        Some(b - 0x68 + 55)
    } else if 0x70 <= b && b <= 0x72 {
        Some(b - 0x70 + 61)
    } else {
        None
    }
}

/// The 6-bit values of the alphabet symbols in `p`, in order; every other
/// byte (line breaks, spaces, stray characters) is skipped.
pub open spec fn sextets(p: Seq<u8>) -> Seq<u8>
    decreases p.len(),
{
    if p.len() == 0 {
        Seq::empty()
    } else {
        match hqx_value(p.last()) {
            Some(v) => sextets(p.drop_last()).push(v),
            None => sextets(p.drop_last()),
        }
    }
}

/// Byte `k` of the bit stream made by concatenating the 6-bit values `v`,
/// most significant bit first: every four values carry three bytes.
pub open spec fn packed_byte(v: Seq<u8>, k: int) -> u8 {
    let g = 4 * (k / 3);
    if k % 3 == 0 {
        (v[g] * 4 + v[g + 1] / 16) as u8
    } else if k % 3 == 1 {
        ((v[g + 1] % 16) * 16 + v[g + 2] / 4) as u8
    } else {
        ((v[g + 2] % 4) * 64 + v[g + 3]) as u8
    }
}

/// The whole bytes of the bit stream of `v` (a trailing part byte is dropped).
pub open spec fn packed(v: Seq<u8>) -> Seq<u8> {
    Seq::new(((v.len() * 6) / 8) as nat, |k: int| packed_byte(v, k))
}

/// BinHex run-length expansion of `b` from index `i` on, appended to `acc`:
/// `0x90 n` repeats the previous output byte until it occurs `n` times in a
/// row (`n == 0` stands for a literal `0x90`); a marker with nothing before it
/// is dropped, and one at the very end reads its count as 0.
pub open spec fn unrle_from(b: Seq<u8>, i: int, acc: Seq<u8>) -> Seq<u8>
    decreases b.len() + 2 - i,
{
    if i >= b.len() || i < 0 {
        acc
    } else if b[i] != 0x90 {
        unrle_from(b, i + 1, acc.push(b[i]))
    } else {
        let cnt: int = if i + 1 < b.len() { b[i + 1] as int } else { 0 };
        if cnt == 0 {
            unrle_from(b, i + 2, acc.push(0x90))
        } else if acc.len() > 0 {
            unrle_from(b, i + 2, acc + repeat(acc.last(), (cnt - 1) as nat))
        } else {
            unrle_from(b, i + 2, acc)
        }
    }
}

/// `n` copies of `x`.
pub open spec fn repeat(x: u8, n: nat) -> Seq<u8> {
    Seq::new(n, |j: int| x)
}

/// The run-length expansion of the whole stream `b`.
pub open spec fn unrle(b: Seq<u8>) -> Seq<u8> {
    unrle_from(b, 0, Seq::empty())
}

/// The index of the first `:` in `t` at or after `from`.
pub open spec fn first_colon(t: Seq<u8>, from: int) -> Option<int>
    decreases t.len() - from,
{
    if from >= t.len() || from < 0 {
        None
    } else if t[from] == 0x3A {
        Some(from)
    } else {
        first_colon(t, from + 1)
    }
}

/// The resource fork held in a decoded BinHex stream `out`: after the header
/// (`u8 nameLen, name, u8 version, type, creator, flags, u32 dataLen,
/// u32 rsrcLen, u16 crc`), the data fork and its CRC.
pub open spec fn hqx_rsrc_of_stream(out: Seq<u8>) -> Result<Seq<u8>, HqxError> {
    if out.len() == 0 {
        Err(HqxError::Empty)
    } else {
        let p = out[0] + 2;
        match (be32_opt(out, p + 10), be32_opt(out, p + 14)) {
            (Some(data_len), Some(rsrc_len)) => {
                let start = p + 20 + data_len + 2;
                if start + rsrc_len <= out.len() {
                    Ok(out.subrange(start, start + rsrc_len))
                } else {
                    Err(HqxError::TruncatedFork)
                }
            },
            _ => Err(HqxError::TruncatedHeader),
        }
    }
}

/// The resource fork of a BinHex 4.0 file `hqx`: the text between the first
/// two `:` is decoded symbol by symbol, run-length expanded, and the fork is
/// cut out of the stream.
pub open spec fn hqx_rsrc(hqx: Seq<u8>) -> Result<Seq<u8>, HqxError> {
    if !vstd::utf8::valid_utf8(hqx) {
        Err(HqxError::NotText)
    } else {
        match first_colon(hqx, 0) {
            None => Err(HqxError::NoStart),
            Some(s) => match first_colon(hqx, s + 1) {
                None => Err(HqxError::NoEnd),
                Some(e) => hqx_rsrc_of_stream(unrle(packed(sextets(hqx.subrange(s + 1, e))))),
            },
        }
    }
}

fn find_colon(t: &[u8], from: usize) -> (r: Option<usize>)
    requires
        from <= t@.len(),
    ensures
        match r {
            Some(i) => first_colon(t@, from as int) == Some(i as int),
            None => first_colon(t@, from as int) is None,
        },
    decreases t@.len() - from,
{
    if from >= t.len() {
        None
    } else if t[from] == 0x3A {
        Some(from)
    } else {
        find_colon(t, from + 1)
    }
}

fn payload_sextets(t: &[u8], lo: usize, hi: usize) -> (v: Vec<u8>)
    requires
        lo <= hi <= t@.len(),
    ensures
        v@ == sextets(t@.subrange(lo as int, hi as int)),
        forall|j: int| 0 <= j < v@.len() ==> v@[j] < 64,
{
    let mut v: Vec<u8> = Vec::new();
    let mut i = lo;
    while i < hi
        invariant
            lo <= i <= hi <= t@.len(),
            v@ == sextets(t@.subrange(lo as int, i as int)),
            forall|j: int| 0 <= j < v@.len() ==> v@[j] < 64,
        decreases hi - i,
    {
        let ghost pre = t@.subrange(lo as int, i as int);
        assert(t@.subrange(lo as int, i as int + 1).drop_last() =~= pre);
        match hqx_value_of(t[i]) {
            Some(x) => v.push(x),
            None => {},
        }
        i = i + 1;
    }
    v
}

fn pack_sextets(v: &Vec<u8>) -> (out: Vec<u8>)
    requires
        forall|j: int| 0 <= j < v@.len() ==> v@[j] < 64,
    ensures
        out@ == packed(v@),
{
    let len = v.len();
    let q = len / 4;
    let rm = len % 4;
    let n: usize = q * 3 + if rm == 3 { 2 } else if rm == 2 { 1 } else { 0 };
    assert(n == (len * 6) / 8) by (nonlinear_arith)
        requires
            q == len / 4,
            rm == len % 4,
            n == q * 3 + if rm == 3 { 2int } else if rm == 2 { 1int } else { 0int };
    let mut out: Vec<u8> = Vec::new();
    let mut k: usize = 0;
    while k < n
        invariant
            len == v@.len(),
            n == (v@.len() * 6) / 8,
            k <= n,
            forall|j: int| 0 <= j < v@.len() ==> v@[j] < 64,
            out@.len() == k,
            forall|j: int| 0 <= j < k ==> out@[j] == packed_byte(v@, j),
        decreases n - k,
    {
        let ghost g: int = 4 * (k / 3);
        let r = k % 3;
        let b: u8 = if r == 0 {
            assert(g + 1 < len) by (nonlinear_arith)
                requires g == 4 * (k / 3), k % 3 == 0, k < (len * 6) / 8;
            let gi = 4 * (k / 3);
            let (x, y) = (v[gi], v[gi + 1]);
            assert(x < 64);
            x * 4 + y / 16
        } else if r == 1 {
            assert(g + 2 < len) by (nonlinear_arith)
                requires g == 4 * (k / 3), k % 3 == 1, k < (len * 6) / 8;
            let gi = 4 * (k / 3);
            let (x, y) = (v[gi + 1], v[gi + 2]);
            (x % 16) * 16 + y / 4
        } else {
            assert(g + 3 < len) by (nonlinear_arith)
                requires g == 4 * (k / 3), k % 3 == 2, k < (len * 6) / 8;
            let gi = 4 * (k / 3);
            let (x, y) = (v[gi + 2], v[gi + 3]);
            assert(y < 64);
            (x % 4) * 64 + y
        };
        assert(b == packed_byte(v@, k as int));
        out.push(b);
        k = k + 1;
    }
    assert(out@ =~= packed(v@));
    out
}

fn unrle_exec(b: &Vec<u8>) -> (out: Vec<u8>)
    ensures
        out@ == unrle(b@),
{
    let mut out: Vec<u8> = Vec::new();
    let mut i: usize = 0;
    let len = b.len();
    while i < len
        invariant
            len == b@.len(),
            i <= len,
            unrle_from(b@, i as int, out@) == unrle(b@),
        decreases len - i,
    {
        let x = b[i];
        let ghost acc = out@;
        if x != 0x90 {
            out.push(x);
            i = i + 1;
        } else if i + 1 < len {
            let cnt: u8 = b[i + 1];
            if cnt == 0 {
                out.push(0x90);
            } else if out.len() > 0 {
                let last = out[out.len() - 1];
                let mut j: u8 = 1;
                while j < cnt
                    invariant
                        1 <= j <= cnt,
                        acc.len() > 0,
                        last == acc.last(),
                        out@ == acc + repeat(acc.last(), (j - 1) as nat),
                    decreases cnt - j,
                {
                    out.push(last);
                    j = j + 1;
                    assert(out@ =~= acc + repeat(acc.last(), (j - 1) as nat));
                }
            }
            i = i + 2;
        } else {
            out.push(0x90);
            assert(unrle_from(b@, i as int + 2, out@) == out@);
            i = len;
        }
    }
    out
}

/// Decode a `.hqx` and return just the resource fork bytes.
pub fn binhex_resource_fork(hqx: &[u8]) -> (r: Result<Vec<u8>, HqxError>)
    ensures
        match (r, hqx_rsrc(hqx@)) {
            (Ok(v), Ok(w)) => v@ == w,
            (Err(e), Err(f)) => e == f,
            _ => false,
        },
{
    if !crate::text::is_utf8(hqx) {
        return Err(HqxError::NotText);
    }
    let s = match find_colon(hqx, 0) {
        Some(s) => s,
        None => return Err(HqxError::NoStart),
    };
    let hlen = hqx.len();
    proof {
        lemma_first_colon_range(hqx@, 0);
    }
    let e = match find_colon(hqx, s + 1) {
        Some(e) => e,
        None => return Err(HqxError::NoEnd),
    };
    proof {
        lemma_first_colon_range(hqx@, s as int + 1);
    }
    let v = payload_sextets(hqx, s + 1, e);
    proof {
        lemma_sextets_len(hqx@.subrange(s + 1, e as int));
    }
    let bytes = pack_sextets(&v);
    let out = unrle_exec(&bytes);
    if out.len() == 0 {
        return Err(HqxError::Empty);
    }
    let p: u64 = out[0] as u64 + 2;
    let data_len = match be_u32(&out, p + 10) {
        Some(d) => d as u64,
        None => return Err(HqxError::TruncatedHeader),
    };
    let rsrc_len = match be_u32(&out, p + 14) {
        Some(d) => d as u64,
        None => return Err(HqxError::TruncatedHeader),
    };
    let start = p + 20 + data_len + 2;
    if start + rsrc_len <= out.len() as u64 {
        let sl = slice_subrange(out.as_slice(), start as usize, (start + rsrc_len) as usize);
        let mut fork: Vec<u8> = Vec::new();
        push_all(&mut fork, sl);
        assert(fork@ =~= out@.subrange(start as int, start + rsrc_len));
        Ok(fork)
    } else {
        Err(HqxError::TruncatedFork)
    }
}

proof fn lemma_first_colon_range(t: Seq<u8>, from: int)
    requires
        0 <= from,
    ensures
        first_colon(t, from) matches Some(i) ==> from <= i < t.len(),
    decreases t.len() - from,
{
    if from < t.len() && t[from] != 0x3A {
        lemma_first_colon_range(t, from + 1);
    }
}

proof fn lemma_sextets_len(p: Seq<u8>)
    ensures
        sextets(p).len() <= p.len(),
    decreases p.len(),
{
    if p.len() > 0 {
        lemma_sextets_len(p.drop_last());
    }
}


// ---- icon resolution -------------------------------------------------------

/// The four-byte tags the icon lookup reads.
pub open spec fn tag_bndl() -> Seq<u8> { seq![0x42u8, 0x4E, 0x44, 0x4C] }
pub open spec fn tag_fref() -> Seq<u8> { seq![0x46u8, 0x52, 0x45, 0x46] }
pub open spec fn tag_icn() -> Seq<u8> { seq![0x49u8, 0x43, 0x4E, 0x23] }
pub open spec fn tag_appl() -> Seq<u8> { seq![0x41u8, 0x50, 0x50, 0x4C] }
pub open spec fn tag_icl8() -> Seq<u8> { seq![0x69u8, 0x63, 0x6C, 0x38] }

/// `cnt` `(localID, resID)` pairs of a BNDL type entry starting at `q`.
pub open spec fn bndl_pairs(b: Seq<u8>, q: int, cnt: int) -> Seq<(u16, i16)> {
    Seq::new(cnt as nat, |j: int| (be16_at(b, q + 4 * j) as u16, as_i16(be16_at(b, q + 4 * j + 2)) as i16))
}

/// Read `k` BNDL type entries from `p` on, keeping the last `FREF` and the
/// last `ICN#` pairing lists; `None` as soon as a read runs past the end.
pub open spec fn bndl_parse(b: Seq<u8>, p: int, k: int, fref: Seq<(u16, i16)>, icn: Seq<(u16, i16)>) -> Option<(Seq<(u16, i16)>, Seq<(u16, i16)>)>
    decreases k,
{
    if k <= 0 {
        Some((fref, icn))
    } else if p < 0 || p + 6 > b.len() {
        None
    } else {
        let ty = b.subrange(p, p + 4);
        let cnt = be16_at(b, p + 4) + 1;
        let q = p + 6;
        if q + 4 * cnt > b.len() {
            None
        } else {
            let m = bndl_pairs(b, q, cnt);
            bndl_parse(b, q + 4 * cnt, k - 1, if ty == tag_fref() { m } else { fref },
                if ty == tag_icn() { m } else { icn })
        }
    }
}

/// The body of the first resource in `items` with id `id`.
pub open spec fn first_with_id(items: Seq<(i16, Seq<u8>)>, id: i16) -> Option<Seq<u8>>
    decreases items.len(),
{
    if items.len() == 0 {
        None
    } else if items[0].0 == id {
        Some(items[0].1)
    } else {
        first_with_id(items.drop_first(), id)
    }
}

/// The resource id paired with local id `l` first in `m`.
pub open spec fn find_local(m: Seq<(u16, i16)>, l: u16) -> Option<i16>
    decreases m.len(),
{
    if m.len() == 0 {
        None
    } else if m[0].0 == l {
        Some(m[0].1)
    } else {
        find_local(m.drop_first(), l)
    }
}

/// Walk the FREF pairings from `j` on: the first whose `FREF` resource has
/// file type `APPL` and whose icon local id (or, failing that, the pairing's
/// own local id) has an `ICN#` pairing gives that `ICN#` id.
pub open spec fn resolve_icon_from(frefs: Seq<(i16, Seq<u8>)>, fm: Seq<(u16, i16)>, im: Seq<(u16, i16)>, j: int) -> Option<i16>
    decreases fm.len() - j,
{
    if j >= fm.len() || j < 0 {
        None
    } else {
        let local = fm[j].0;
        match first_with_id(frefs, fm[j].1) {
            None => resolve_icon_from(frefs, fm, im, j + 1),
            Some(fdata) => if !(fdata.len() >= 4 && fdata.subrange(0, 4) == tag_appl()) {
                resolve_icon_from(frefs, fm, im, j + 1)
            } else {
                let icon_local: u16 = match be16_opt(fdata, 4) {
                    Some(v) => v as u16,
                    None => local,
                };
                match find_local(im, icon_local) {
                    Some(r) => Some(r),
                    None => match find_local(im, local) {
                        Some(r) => Some(r),
                        None => resolve_icon_from(frefs, fm, im, j + 1),
                    },
                }
            },
        }
    }
}

/// The `ICN#` id the app bundle designates as the application icon:
/// the first `BNDL` → the `FREF` whose file type is `APPL` → that icon's
/// local id → its `ICN#` id.
pub open spec fn bundle_icon_id(rsrc: Seq<u8>) -> Option<i16> {
    let bndls = resources_in(rsrc, tag_bndl());
    if bndls.len() == 0 {
        None
    } else {
        let b = bndls[0].1;
        match be16_opt(b, 6) {
            None => None,
            Some(nm1) => match bndl_parse(b, 8, nm1 + 1, Seq::empty(), Seq::empty()) {
                None => None,
                Some(maps) => resolve_icon_from(resources_in(rsrc, tag_fref()), maps.0, maps.1, 0),
            },
        }
    }
}

fn is_tag(b: &[u8], t: [u8; 4]) -> (r: bool)
    ensures
        r == (b@.len() >= 4 && b@.subrange(0, 4) == t@),
{
    if b.len() >= 4 && b[0] == t[0] && b[1] == t[1] && b[2] == t[2] && b[3] == t[3] {
        assert(b@.subrange(0, 4) =~= t@);
        true
    } else {
        proof {
            if b@.len() >= 4 && b@.subrange(0, 4) == t@ {
                assert(b@.subrange(0, 4)[0] == t@[0]);
                assert(b@.subrange(0, 4)[1] == t@[1]);
                assert(b@.subrange(0, 4)[2] == t@[2]);
                assert(b@.subrange(0, 4)[3] == t@[3]);
            }
        }
        false
    }
}

fn find_item<'a>(items: &Vec<(i16, &'a [u8])>, id: i16, Ghost(want): Ghost<Seq<(i16, Seq<u8>)>>) -> (r: Option<&'a [u8]>)
    requires
        items_match(items@, want),
    ensures
        match (r, first_with_id(want, id)) {
            (Some(d), Some(e)) => d@ == e,
            (None, None) => true,
            _ => false,
        },
{
    let mut i: usize = 0;
    assert(want.subrange(0, want.len() as int) =~= want);
    while i < items.len()
        invariant
            i <= items@.len(),
            items_match(items@, want),
            first_with_id(want, id) == first_with_id(want.subrange(i as int, want.len() as int), id),
        decreases items@.len() - i,
    {
        let ghost rest = want.subrange(i as int, want.len() as int);
        assert(rest.drop_first() =~= want.subrange(i + 1, want.len() as int));
        assert(rest[0] == want[i as int]);
        if items[i].0 == id {
            return Some(items[i].1);
        }
        i = i + 1;
    }
    assert(want.subrange(i as int, want.len() as int).len() == 0);
    None
}

fn find_local_exec(m: &Vec<(u16, i16)>, l: u16) -> (r: Option<i16>)
    ensures
        r == find_local(m@, l),
{
    let mut i: usize = 0;
    assert(m@.subrange(0, m@.len() as int) =~= m@);
    while i < m.len()
        invariant
            i <= m@.len(),
            find_local(m@, l) == find_local(m@.subrange(i as int, m@.len() as int), l),
        decreases m@.len() - i,
    {
        let ghost rest = m@.subrange(i as int, m@.len() as int);
        assert(rest.drop_first() =~= m@.subrange(i + 1, m@.len() as int));
        if m[i].0 == l {
            return Some(m[i].1);
        }
        i = i + 1;
    }
    None
}

/// The `ICN#` resource id that the app bundle designates as the application
/// icon, if the bundle resolves.
pub fn app_icn_id_via_bndl(rsrc: &[u8]) -> (r: Option<i16>)
    ensures
        r == bundle_icon_id(rsrc@),
{
    let bndls = resources_of_type(rsrc, &[0x42u8, 0x4E, 0x44, 0x4C]);
    assert([0x42u8, 0x4E, 0x44, 0x4C]@ =~= tag_bndl());
    if bndls.len() == 0 {
        return None;
    }
    let bndl = bndls[0].1;
    let ghost b = bndl@;
    let nm1 = match be_u16(bndl, 6) {
        Some(v) => v,
        None => return None,
    };
    let n_types: u64 = nm1 as u64 + 1;
    let bl: usize = bndl.len();
    let mut p: u64 = 8;
    let mut fref_map: Vec<(u16, i16)> = Vec::new();
    let mut icn_map: Vec<(u16, i16)> = Vec::new();
    let mut t: u64 = 0;
    while t < n_types
        invariant
            t <= n_types <= 0x10000,
            p <= b.len(),
            b == bndl@,
            bl == b.len(),
            resources_in(rsrc@, tag_bndl()).len() > 0,
            b == resources_in(rsrc@, tag_bndl())[0].1,
            be16_opt(b, 6) == Some(n_types - 1),
            bndl_parse(b, 8, n_types as int, Seq::empty(), Seq::empty())
                == bndl_parse(b, p as int, (n_types - t) as int, fref_map@, icn_map@),
        decreases n_types - t,
    {
        let blen = bndl.len() as u64;
        if blen < 6 || p > blen - 6 {
            return None;
        }
        let pu = p as usize;
        let is_fref = bndl[pu] == 0x46 && bndl[pu + 1] == 0x52 && bndl[pu + 2] == 0x45 && bndl[pu + 3] == 0x46;
        let is_icn = bndl[pu] == 0x49 && bndl[pu + 1] == 0x43 && bndl[pu + 2] == 0x4E && bndl[pu + 3] == 0x23;
        let ghost ty = b.subrange(p as int, p + 4);
        proof {
            assert(ty[0] == b[p as int] && ty[1] == b[p + 1] && ty[2] == b[p + 2] && ty[3] == b[p + 3]);
            if is_fref {
                assert(ty =~= tag_fref());
            } else if ty == tag_fref() {
                assert(false);
            }
            if is_icn {
                assert(ty =~= tag_icn());
            } else if ty == tag_icn() {
                assert(false);
            }
        }
        let cnt: u64 = (bndl[pu + 4] as u64) * 256 + bndl[pu + 5] as u64 + 1;
        let q = p + 6;
        if 4 * cnt > blen - q {
            return None;
        }
        let mut m: Vec<(u16, i16)> = Vec::new();
        let mut j: u64 = 0;
        while j < cnt
            invariant
                j <= cnt <= 0x10000,
                q + 4 * cnt <= b.len(),
                bl == b.len(),
                b == bndl@,
                m@.len() == j,
                forall|k: int| 0 <= k < j ==> m@[k] == bndl_pairs(b, q as int, cnt as int)[k],
            decreases cnt - j,
        {
            let o = (q + 4 * j) as usize;
            let l: u16 = (bndl[o] as u16) * 256 + bndl[o + 1] as u16;
            let rv: u16 = (bndl[o + 2] as u16) * 256 + bndl[o + 3] as u16;
            let r: i16 = if rv >= 0x8000 { (rv as i32 - 0x10000) as i16 } else { rv as i16 };
            m.push((l, r));
            j = j + 1;
        }
        assert(m@ =~= bndl_pairs(b, q as int, cnt as int));
        if is_fref {
            fref_map = m;
        } else if is_icn {
            icn_map = m;
        }
        p = q + 4 * cnt;
        t = t + 1;
    }
    let frefs = resources_of_type(rsrc, &[0x46u8, 0x52, 0x45, 0x46]);
    assert([0x46u8, 0x52, 0x45, 0x46]@ =~= tag_fref());
    let ghost fw = resources_in(rsrc@, tag_fref());
    let mut j: usize = 0;
    while j < fref_map.len()
        invariant
            j <= fref_map@.len(),
            items_match(frefs@, fw),
            bundle_icon_id(rsrc@) == resolve_icon_from(fw, fref_map@, icn_map@, j as int),
        decreases fref_map@.len() - j,
    {
        let (local, res) = fref_map[j];
        match find_item(&frefs, res, Ghost(fw)) {
            None => {},
            Some(fdata) => {
                if is_tag(fdata, [0x41u8, 0x50, 0x50, 0x4C]) {
                    assert([0x41u8, 0x50, 0x50, 0x4C]@ =~= tag_appl());
                    let icon_local: u16 = match be_u16(fdata, 4) {
                        Some(v) => v,
                        None => local,
                    };
                    match find_local_exec(&icn_map, icon_local) {
                        Some(r) => return Some(r),
                        None => {},
                    }
                    match find_local_exec(&icn_map, local) {
                        Some(r) => return Some(r),
                        None => {},
                    }
                } else {
                    assert([0x41u8, 0x50, 0x50, 0x4C]@ =~= tag_appl());
                }
            },
        }
        j = j + 1;
    }
    None
}


/// Index of the first resource with the lowest id among `items[..k]`.
pub open spec fn lowest_index(items: Seq<(i16, Seq<u8>)>, k: int) -> int
    decreases k,
{
    if k <= 1 {
        0
    } else {
        let b = lowest_index(items, k - 1);
        if items[k - 1].0 < items[b].0 { k - 1 } else { b }
    }
}

/// The icon body chosen among `items`: the one with the bundle's id when
/// there is one, else the first with the lowest id.
pub open spec fn chosen_icon(items: Seq<(i16, Seq<u8>)>, via: Option<i16>) -> Seq<u8> {
    let by_id = match via {
        Some(id) => first_with_id(items, id),
        None => None,
    };
    match by_id {
        Some(d) => d,
        None => items[lowest_index(items, items.len() as int)].1,
    }
}

/// The first `n` bytes of the chosen icon of tag `tag`, when the fork has
/// such an icon and it is long enough.
pub open spec fn icon_data(rsrc: Seq<u8>, tag: Seq<u8>, n: int) -> Option<Seq<u8>> {
    let items = resources_in(rsrc, tag);
    if items.len() == 0 {
        None
    } else {
        let d = chosen_icon(items, bundle_icon_id(rsrc));
        if d.len() >= n { Some(d.subrange(0, n)) } else { None }
    }
}

fn lowest<'a>(items: &Vec<(i16, &'a [u8])>, Ghost(want): Ghost<Seq<(i16, Seq<u8>)>>) -> (r: &'a [u8])
    requires
        items@.len() > 0,
        items_match(items@, want),
    ensures
        r@ == want[lowest_index(want, want.len() as int)].1,
{
    let mut b: usize = 0;
    let mut k: usize = 1;
    while k < items.len()
        invariant
            1 <= k <= items@.len(),
            items_match(items@, want),
            b == lowest_index(want, k as int),
            b < k,
        decreases items@.len() - k,
    {
        if items[k].0 < items[b].0 {
            b = k;
        }
        k = k + 1;
    }
    items[b].1
}

fn chosen_icon_exec<'a>(rsrc: &[u8], items: &Vec<(i16, &'a [u8])>, Ghost(want): Ghost<Seq<(i16, Seq<u8>)>>) -> (r: &'a [u8])
    requires
        items@.len() > 0,
        items_match(items@, want),
    ensures
        r@ == chosen_icon(want, bundle_icon_id(rsrc@)),
{
    let by_id = match app_icn_id_via_bndl(rsrc) {
        Some(id) => find_item(items, id, Ghost(want)),
        None => None,
    };
    match by_id {
        Some(d) => d,
        None => lowest(items, Ghost(want)),
    }
}

fn icon_prefix(rsrc: &[u8], tag: &[u8; 4], n: usize) -> (r: Option<Vec<u8>>)
    ensures
        match (r, icon_data(rsrc@, tag@, n as int)) {
            (Some(v), Some(w)) => v@ == w,
            (None, None) => true,
            _ => false,
        },
{
    let items = resources_of_type(rsrc, tag);
    if items.len() == 0 {
        return None;
    }
    let chosen = chosen_icon_exec(rsrc, &items, Ghost(resources_in(rsrc@, tag@)));
    if chosen.len() < n {
        return None;
    }
    let mut out: Vec<u8> = Vec::new();
    push_all(&mut out, vstd::slice::slice_subrange(chosen, 0, n));
    assert(out@ =~= chosen@.subrange(0, n as int));
    Some(out)
}

/// The app icon: the 128-byte 32×32 1-bit plane of the bundle's `ICN#` (or
/// of the lowest-id `ICN#`), if there is one.
pub fn app_icn_plane(rsrc: &[u8]) -> (r: Option<Vec<u8>>)
    ensures
        match (r, icon_data(rsrc@, tag_icn(), 128)) {
            (Some(v), Some(w)) => v@ == w,
            (None, None) => true,
            _ => false,
        },
{
    let r = icon_prefix(rsrc, &[0x49u8, 0x43, 0x4E, 0x23], 128);
    assert([0x49u8, 0x43, 0x4E, 0x23]@ =~= tag_icn());
    r
}

/// The app's 32×32 8-bit colour icon (`icl8`, 1024 index bytes): the one
/// sharing the bundle's `ICN#` id, else the lowest-id `icl8`.
pub fn app_icl8_data(rsrc: &[u8]) -> (r: Option<Vec<u8>>)
    ensures
        match (r, icon_data(rsrc@, tag_icl8(), 1024)) {
            (Some(v), Some(w)) => v@ == w,
            (None, None) => true,
            _ => false,
        },
{
    let r = icon_prefix(rsrc, &[0x69u8, 0x63, 0x6C, 0x38], 1024);
    assert([0x69u8, 0x63, 0x6C, 0x38]@ =~= tag_icl8());
    r
}

/// The component levels of the 6×6×6 colour cube, brightest first.
pub open spec fn cube_level(k: int) -> u8 {
    (0xFF - 0x33 * k) as u8
}

/// The in-between levels of the pure-colour and gray ramps, brightest first.
pub open spec fn ramp_level(k: int) -> u8 {
    seq![0xEEu8, 0xDD, 0xBB, 0xAA, 0x88, 0x77, 0x55, 0x44, 0x22, 0x11][k]
}

/// Entry `i` of the standard Macintosh 8-bit system palette: the colour cube
/// (index = r*36 + g*6 + b) then red, green, blue and gray ramps.
pub open spec fn mac_palette_entry(i: int) -> [u8; 3] {
    if i < 216 {
        [cube_level(i / 36), cube_level((i / 6) % 6), cube_level(i % 6)]
    } else if i < 226 {
        [ramp_level(i - 216), 0, 0]
    } else if i < 236 {
        [0, ramp_level(i - 226), 0]
    } else if i < 246 {
        [0, 0, ramp_level(i - 236)]
    } else {
        [ramp_level(i - 246), ramp_level(i - 246), ramp_level(i - 246)]
    }
}

fn ramp_at(k: usize) -> (v: u8)
    requires
        k < 10,
    ensures
        v == ramp_level(k as int),
{
    let r: [u8; 10] = [0xEE, 0xDD, 0xBB, 0xAA, 0x88, 0x77, 0x55, 0x44, 0x22, 0x11];
    r[k]
}

/// The standard Macintosh 8-bit system palette (the default 8-bit `clut`),
/// as 256 `[r, g, b]` entries.
pub fn mac_palette() -> (pal: Vec<[u8; 3]>)
    ensures
        pal@.len() == 256,
        forall|i: int| 0 <= i < 256 ==> #[trigger] pal@[i] == mac_palette_entry(i),
{
    let mut pal: Vec<[u8; 3]> = Vec::new();
    let mut i: usize = 0;
    while i < 256
        invariant
            i <= 256,
            pal@.len() == i,
            forall|j: int| 0 <= j < i ==> #[trigger] pal@[j] == mac_palette_entry(j),
        decreases 256 - i,
    {
        let e: [u8; 3] = if i < 216 {
            let r = (0xFF - 0x33 * (i / 36)) as u8;
            let g = (0xFF - 0x33 * ((i / 6) % 6)) as u8;
            let b = (0xFF - 0x33 * (i % 6)) as u8;
            [r, g, b]
        } else if i < 226 {
            [ramp_at(i - 216), 0, 0]
        } else if i < 236 {
            [0, ramp_at(i - 226), 0]
        } else if i < 246 {
            [0, 0, ramp_at(i - 236)]
        } else {
            let v = ramp_at(i - 246);
            [v, v, v]
        };
        assert(e == mac_palette_entry(i as int));
        pal.push(e);
        i = i + 1;
    }
    pal
}

/// The RGBA pixels of 8-bit palette indices: each index through the Mac
/// palette, fully opaque.
pub open spec fn icl8_rgba(idx: Seq<u8>) -> Seq<u8> {
    Seq::new(4 * idx.len(), |k: int| {
        let e = mac_palette_entry(idx[k / 4] as int);
        if k % 4 == 3 { 0xFFu8 } else { e[k % 4] }
    })
}

/// Decode a `.hqx` app and return its icon as `.raw` 1-bit bitmap bytes, or
/// `None` if the app has no usable icon. A 32×32 `ICN#` plane is already
/// MSB-first with rowBytes 4.
pub fn app_icon_raw1(hqx: &[u8]) -> (r: Result<Option<Vec<u8>>, HqxError>)
    ensures
        match (r, hqx_rsrc(hqx@)) {
            (Err(e), Err(f)) => e == f,
            (Ok(o), Ok(rsrc)) => match (o, icon_data(rsrc, tag_icn(), 128)) {
                (Some(v), Some(p)) => v@ == crate::pict::raw1_bytes(32, 32, 4, p),
                (None, None) => true,
                _ => false,
            },
            _ => false,
        },
{
    let rsrc = binhex_resource_fork(hqx)?;
    match app_icn_plane(rsrc.as_slice()) {
        Some(icn) => Ok(Some(crate::pict::raw1_wrap(32, 32, 4, icn.as_slice()))),
        None => Ok(None),
    }
}

/// Decode a `.hqx` app's colour icon (`icl8`) to the 32×32 RGBA pixels of
/// its PNG, palette indices resolved through the standard Mac 256-colour
/// table; `None` when the app has no usable `icl8`.
pub fn app_icl8_png(hqx: &[u8]) -> (r: Result<Option<Vec<u8>>, HqxError>)
    ensures
        match (r, hqx_rsrc(hqx@)) {
            (Err(e), Err(f)) => e == f,
            (Ok(o), Ok(rsrc)) => match (o, icon_data(rsrc, tag_icl8(), 1024)) {
                (Some(v), Some(p)) => v@ == icl8_rgba(p),
                (None, None) => true,
                _ => false,
            },
            _ => false,
        },
{
    let rsrc = binhex_resource_fork(hqx)?;
    let icl8 = match app_icl8_data(rsrc.as_slice()) {
        Some(d) => d,
        None => return Ok(None),
    };
    let pal = mac_palette();
    let mut rgba: Vec<u8> = Vec::new();
    let mut i: usize = 0;
    while i < icl8.len()
        invariant
            i <= icl8@.len(),
            pal@.len() == 256,
            forall|j: int| 0 <= j < 256 ==> #[trigger] pal@[j] == mac_palette_entry(j),
            rgba@ =~= icl8_rgba(icl8@.subrange(0, i as int)),
        decreases icl8@.len() - i,
    {
        let e = pal[icl8[i] as usize];
        rgba.push(e[0]);
        rgba.push(e[1]);
        rgba.push(e[2]);
        rgba.push(0xFF);
        i = i + 1;
        proof {
            let pre = icl8@.subrange(0, i as int);
            assert forall|k: int| 0 <= k < 4 * pre.len() implies rgba@[k] == #[trigger] icl8_rgba(pre)[k] by {
                assert(pre[k / 4] == icl8@[k / 4]);
                if k < 4 * (i - 1) {
                    assert(icl8@.subrange(0, i - 1)[k / 4] == icl8@[k / 4]);
                }
            }
        }
    }
    assert(icl8@.subrange(0, icl8@.len() as int) =~= icl8@);
    Ok(Some(rgba))
}

} // verus!
