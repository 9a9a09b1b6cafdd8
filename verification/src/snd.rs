//! Sound files for the launcher's chimes: a PCM WAV clip folded to 8-bit
//! unsigned mono and wrapped as a single `snd ` resource (id 128, format 1,
//! sampled sound) in a classic resource fork.

use crate::bytes::{be16_bytes, be32_bytes, le16_at, le32_at, push_all, push_be16, push_be32, push_zeros, zeros};
use crate::resfork::{
    chunk, data_of, data_upto, fork_of, map_of, members, order_of, order_upto, ref_entry, refs_upto,
    type_entries_upto, type_entry, type_list, types_of, Res,
};
use vstd::prelude::*;

verus! {

/// The fields of a WAV file the sound builder reads.
pub struct Wav {
    pub rate: u32,
    pub channels: u16,
    pub bits: u16,
    pub data: Vec<u8>,
}

/// Why a WAV file was refused.
#[derive(Debug, Clone, Copy, PartialEq, Eq, Structural)]
pub enum WavError {
    /// Not a RIFF/WAVE file.
    NotWave,
    /// The format code is not 1 (PCM); it is carried.
    NotPcm(u16),
    /// No `data` chunk.
    NoData,
    /// Zero channels, zero rate, or a sample size other than 8 or 16 bits.
    Unsupported,
}

/// `fmt`, channels, rate, bits, and the last `data` chunk seen so far.
pub type WavScan = (u16, u16, u32, u16, Option<Seq<u8>>);

pub open spec fn tag_at(b: Seq<u8>, p: int, t: Seq<u8>) -> bool {
    b.subrange(p, p + 4) == t
}

/// Walk the chunks of a RIFF file from `p` on: a `fmt ` chunk of at least
/// 16 bytes sets the format fields, a `data` chunk the samples; a chunk that
/// runs past the end stops the walk. Chunks are word-aligned.
pub open spec fn wav_scan(b: Seq<u8>, p: int, st: WavScan) -> WavScan
    decreases b.len() + 2 - p,
{
    if p < 0 || p + 8 > b.len() {
        st
    } else {
        let sz = le32_at(b, p + 4);
        let body = p + 8;
        if body + sz > b.len() {
            st
        } else {
            let st2: WavScan = if tag_at(b, p, seq![0x66u8, 0x6D, 0x74, 0x20]) && sz >= 16 {
                (le16_at(b, body) as u16, le16_at(b, body + 2) as u16, le32_at(b, body + 4) as u32,
                    le16_at(b, body + 14) as u16, st.4)
            } else if tag_at(b, p, seq![0x64u8, 0x61, 0x74, 0x61]) {
                (st.0, st.1, st.2, st.3, Some(b.subrange(body, body + sz)))
            } else {
                st
            };
            wav_scan(b, body + sz + sz % 2, st2)
        }
    }
}

/// What `parse_wav` makes of a file: `(rate, channels, bits, samples)`.
pub open spec fn wav_of(b: Seq<u8>) -> Result<(u32, u16, u16, Seq<u8>), WavError> {
    if b.len() < 12 || !tag_at(b, 0, seq![0x52u8, 0x49, 0x46, 0x46]) || !tag_at(b, 8, seq![0x57u8, 0x41, 0x56, 0x45]) {
        Err(WavError::NotWave)
    } else {
        let st = wav_scan(b, 12, (0, 0, 0, 0, None));
        if st.0 != 1 {
            Err(WavError::NotPcm(st.0))
        } else {
            match st.4 {
                None => Err(WavError::NoData),
                Some(d) => if st.1 == 0 || st.2 == 0 || (st.3 != 8 && st.3 != 16) {
                    Err(WavError::Unsupported)
                } else {
                    Ok((st.2, st.1, st.3, d))
                },
            }
        }
    }
}

fn tag_eq(b: &[u8], p: usize, t: [u8; 4]) -> (r: bool)
    requires
        p + 4 <= b@.len(),
    ensures
        r == tag_at(b@, p as int, t@),
{
    let r = b[p] == t[0] && b[p + 1] == t[1] && b[p + 2] == t[2] && b[p + 3] == t[3];
    proof {
        let s = b@.subrange(p as int, p + 4);
        if r {
            assert(s =~= t@);
        } else if s == t@ {
            assert(s[0] == t@[0] && s[1] == t@[1] && s[2] == t@[2] && s[3] == t@[3]);
        }
    }
    r
}

fn le16(b: &[u8], o: usize) -> (v: u16)
    requires
        o + 2 <= b@.len(),
    ensures
        v == le16_at(b@, o as int),
{
    b[o] as u16 + (b[o + 1] as u16) * 256
}

fn le32(b: &[u8], o: usize) -> (v: u32)
    requires
        o + 4 <= b@.len(),
    ensures
        v == le32_at(b@, o as int),
{
    b[o] as u32 + (b[o + 1] as u32) * 256 + (b[o + 2] as u32) * 0x10000 + (b[o + 3] as u32) * 0x1000000
}

/// Parse a RIFF/WAVE PCM file.
pub fn parse_wav(b: &[u8]) -> (r: Result<Wav, WavError>)
    ensures
        match (r, wav_of(b@)) {
            (Ok(w), Ok(v)) => w.rate == v.0 && w.channels == v.1 && w.bits == v.2 && w.data@ == v.3,
            (Err(e), Err(f)) => e == f,
            _ => false,
        },
{
    let n = b.len();
    if n < 12 || !tag_eq(b, 0, [0x52, 0x49, 0x46, 0x46]) || !tag_eq(b, 8, [0x57, 0x41, 0x56, 0x45]) {
        proof {
            assert([0x52u8, 0x49, 0x46, 0x46]@ =~= seq![0x52u8, 0x49, 0x46, 0x46]);
            assert([0x57u8, 0x41, 0x56, 0x45]@ =~= seq![0x57u8, 0x41, 0x56, 0x45]);
        }
        return Err(WavError::NotWave);
    }
    assert([0x52u8, 0x49, 0x46, 0x46]@ =~= seq![0x52u8, 0x49, 0x46, 0x46]);
    assert([0x57u8, 0x41, 0x56, 0x45]@ =~= seq![0x57u8, 0x41, 0x56, 0x45]);
    let mut fmt: u16 = 0;
    let mut channels: u16 = 0;
    let mut rate: u32 = 0;
    let mut bits: u16 = 0;
    let mut data: Option<Vec<u8>> = None;
    let mut p: usize = 12;
    let ghost mut gdata: Option<Seq<u8>> = None;
    while p <= n && n - p >= 8
        invariant_except_break
            n == b@.len(),
            p <= n,
            wav_scan(b@, 12, (0, 0, 0, 0, None)) == wav_scan(b@, p as int, (fmt, channels, rate, bits, gdata)),
            match data { Some(d) => gdata == Some(d@), None => gdata is None },
        ensures
            wav_scan(b@, 12, (0, 0, 0, 0, None)) == (fmt, channels, rate, bits, gdata),
            match data { Some(d) => gdata == Some(d@), None => gdata is None },
        decreases n - p,
    {
        let sz = le32(b, p + 4) as usize;
        let body = p + 8;
        if sz > n - body {
            break;
        }
        let is_fmt = tag_eq(b, p, [0x66, 0x6D, 0x74, 0x20]);
        let is_data = tag_eq(b, p, [0x64, 0x61, 0x74, 0x61]);
        assert([0x66u8, 0x6D, 0x74, 0x20]@ =~= seq![0x66u8, 0x6D, 0x74, 0x20]);
        assert([0x64u8, 0x61, 0x74, 0x61]@ =~= seq![0x64u8, 0x61, 0x74, 0x61]);
        if is_fmt && sz >= 16 {
            fmt = le16(b, body);
            channels = le16(b, body + 2);
            rate = le32(b, body + 4);
            bits = le16(b, body + 14);
        } else if is_data {
            let mut d: Vec<u8> = Vec::new();
            push_all(&mut d, vstd::slice::slice_subrange(b, body, body + sz));
            proof {
                gdata = Some(d@);
            }
            data = Some(d);
        }
        let step = sz + sz % 2;
        if step > n - body {
            p = n;
            proof {
                assert(wav_scan(b@, (body + step) as int, (fmt, channels, rate, bits, gdata)) == (fmt, channels, rate, bits, gdata));
            }
            break;
        }
        p = body + step;
    }
    if fmt != 1 {
        return Err(WavError::NotPcm(fmt));
    }
    let data = match data {
        Some(d) => d,
        None => return Err(WavError::NoData),
    };
    if channels == 0 || rate == 0 || (bits != 8 && bits != 16) {
        return Err(WavError::Unsupported);
    }
    Ok(Wav { rate, channels, bits, data })
}


/// The sum of the `j` bytes of `d` from `base`.
pub open spec fn sum_bytes(d: Seq<u8>, base: int, j: int) -> int
    decreases j,
{
    if j <= 0 { 0 } else { sum_bytes(d, base, j - 1) + d[base + j - 1] }
}

/// The signed 16-bit little-endian sample at `o`.
pub open spec fn s16_at(d: Seq<u8>, o: int) -> int {
    crate::bytes::as_i16(le16_at(d, o))
}

/// The sum of the `j` 16-bit samples of `d` from `base`.
pub open spec fn sum_s16(d: Seq<u8>, base: int, j: int) -> int
    decreases j,
{
    if j <= 0 { 0 } else { sum_s16(d, base, j - 1) + s16_at(d, base + 2 * (j - 1)) }
}

/// Integer division rounding toward zero.
pub open spec fn div_trunc(a: int, d: int) -> int {
    if a >= 0 { a / d } else { -((-a) / d) }
}

/// Mono frame `k`: the channels of the frame averaged, as 8-bit unsigned
/// (0x80 = silence). 8-bit input is unsigned already; 16-bit signed input is
/// averaged (rounding toward zero), shifted down 8 bits and offset by 128.
pub open spec fn mono_sample(d: Seq<u8>, ch: int, bits: int, k: int) -> u8 {
    if bits == 8 {
        (sum_bytes(d, k * ch, ch) / ch) as u8
    } else {
        let avg = div_trunc(sum_s16(d, k * 2 * ch, ch), ch);
        let v = avg / 256 + 128;
        (if v < 0 { 0 } else if v > 255 { 255 } else { v }) as u8
    }
}

/// The mono 8-bit samples of a WAV's frames (a trailing partial frame is
/// dropped).
pub open spec fn mono_of(d: Seq<u8>, ch: int, bits: int) -> Seq<u8> {
    let frame = if bits == 8 { ch } else { 2 * ch };
    Seq::new((d.len() as int / frame) as nat, |k: int| mono_sample(d, ch, bits, k))
}

proof fn lemma_sum_bytes_bound(d: Seq<u8>, base: int, j: int)
    requires
        0 <= j,
    ensures
        0 <= sum_bytes(d, base, j) <= 255 * j,
    decreases j,
{
    if j > 0 {
        lemma_sum_bytes_bound(d, base, j - 1);
    }
}

proof fn lemma_sum_s16_bound(d: Seq<u8>, base: int, j: int)
    requires
        0 <= j,
    ensures
        -32768 * j <= sum_s16(d, base, j) <= 32767 * j,
    decreases j,
{
    if j > 0 {
        lemma_sum_s16_bound(d, base, j - 1);
    }
}

proof fn lemma_div_trunc_range(sum: int, ch: int)
    requires
        ch >= 1,
        -32768 * ch <= sum <= 32767 * ch,
    ensures
        -32768 <= div_trunc(sum, ch) <= 32767,
{
    if sum >= 0 {
        assert(sum / ch <= 32767) by (nonlinear_arith)
            requires ch >= 1, 0 <= sum <= 32767 * ch;
        assert(sum / ch >= 0) by (nonlinear_arith)
            requires ch >= 1, 0 <= sum;
    } else {
        assert((-sum) / ch <= 32768) by (nonlinear_arith)
            requires ch >= 1, 0 < -sum <= 32768 * ch;
        assert((-sum) / ch >= 0) by (nonlinear_arith)
            requires ch >= 1, 0 < -sum;
    }
}

/// A 16-bit frame becomes 8-bit offset binary: the byte is the high byte of
/// the channels' average (rounded toward zero) moved up by 32768, so that
/// silence is `0x80`, full negative `0x00` and full positive `0xFF`; no
/// average falls outside the byte.
pub proof fn lemma_mono16_offset_binary(d: Seq<u8>, ch: int, k: int)
    requires
        ch >= 1,
    ensures
        mono_sample(d, ch, 16, k) as int == (div_trunc(sum_s16(d, k * 2 * ch, ch), ch) + 32768) / 256,
{
    let sum = sum_s16(d, k * 2 * ch, ch);
    lemma_sum_s16_bound(d, k * 2 * ch, ch);
    lemma_div_trunc_range(sum, ch);
    let avg = div_trunc(sum, ch);
    assert(0 <= avg / 256 + 128 <= 255 && avg / 256 + 128 == (avg + 32768) / 256) by (nonlinear_arith)
        requires -32768 <= avg <= 32767;
}

proof fn lemma_sum_s16_uniform(d: Seq<u8>, base: int, j: int, s: int)
    requires
        0 <= j,
        forall|c: int| 0 <= c < j ==> #[trigger] s16_at(d, base + 2 * c) == s,
    ensures
        sum_s16(d, base, j) == j * s,
    decreases j,
{
    if j > 0 {
        lemma_sum_s16_uniform(d, base, j - 1, s);
        assert(s16_at(d, base + 2 * (j - 1)) == s);
        assert(sum_s16(d, base, j) == sum_s16(d, base, j - 1) + s16_at(d, base + 2 * (j - 1)));
        assert((j - 1) * s + s == j * s) by (nonlinear_arith);
    } else {
        assert(j * s == 0) by (nonlinear_arith)
            requires j == 0;
    }
}

/// A 16-bit frame whose channels all carry the sample `s` folds to the high
/// byte of `s + 32768` (offset binary): silence (`s == 0`) gives `0x80`.
pub proof fn lemma_mono16_uniform(d: Seq<u8>, ch: int, k: int, s: int)
    requires
        ch >= 1,
        forall|c: int| 0 <= c < ch ==> #[trigger] s16_at(d, k * 2 * ch + 2 * c) == s,
    ensures
        mono_sample(d, ch, 16, k) as int == (s + 32768) / 256,
        s == 0 ==> mono_sample(d, ch, 16, k) == 0x80,
{
    lemma_sum_s16_uniform(d, k * 2 * ch, ch, s);
    lemma_mono16_offset_binary(d, ch, k);
    assert(s16_at(d, k * 2 * ch + 2 * 0) == s);
    assert(-32768 <= s <= 32767);
    if s >= 0 {
        assert((ch * s) / ch == s) by (nonlinear_arith)
            requires ch >= 1, s >= 0;
    } else {
        assert((ch * (-s)) / ch == -s) by (nonlinear_arith)
            requires ch >= 1, s < 0;
        assert(-(ch * s) == ch * (-s)) by (nonlinear_arith);
    }
    assert(div_trunc(ch * s, ch) == s);
}

proof fn lemma_sum_bytes_uniform(d: Seq<u8>, base: int, j: int, x: u8)
    requires
        0 <= j,
        forall|c: int| 0 <= c < j ==> #[trigger] d[base + c] == x,
    ensures
        sum_bytes(d, base, j) == j * x,
    decreases j,
{
    if j > 0 {
        lemma_sum_bytes_uniform(d, base, j - 1, x);
        assert(d[base + (j - 1)] == x);
        assert(base + (j - 1) == base + j - 1);
        assert(sum_bytes(d, base, j) == sum_bytes(d, base, j - 1) + d[base + j - 1]);
        assert((j - 1) * x + x == j * x) by (nonlinear_arith);
    } else {
        assert(j * x == 0) by (nonlinear_arith)
            requires j == 0;
    }
}

/// An 8-bit frame (unsigned already) whose channels all carry the byte `x`
/// folds to `x`.
pub proof fn lemma_mono8_uniform(d: Seq<u8>, ch: int, k: int, x: u8)
    requires
        ch >= 1,
        forall|c: int| 0 <= c < ch ==> #[trigger] d[k * ch + c] == x,
    ensures
        mono_sample(d, ch, 8, k) == x,
{
    lemma_sum_bytes_uniform(d, k * ch, ch, x);
    assert((ch * x) / ch == x) by (nonlinear_arith)
        requires ch >= 1;
}

fn frame_sample(d: &Vec<u8>, ch: usize, bits: u16, k: usize, base: usize) -> (v: u8)
    requires
        1 <= ch <= 0xFFFF,
        bits == 8 || bits == 16,
        bits == 8 ==> base == k * ch && base + ch <= d@.len(),
        bits == 16 ==> base == k * 2 * ch && base + 2 * ch <= d@.len(),
    ensures
        v == mono_sample(d@, ch as int, bits as int, k as int),
{
    let dl = d.len();
    if bits == 8 {
        let mut sum: u64 = 0;
        let mut c: usize = 0;
        while c < ch
            invariant
                c <= ch <= 0xFFFF,
                dl == d@.len(),
                base + ch <= d@.len(),
                sum == sum_bytes(d@, base as int, c as int),
                sum <= 255 * c,
            decreases ch - c,
        {
            sum = sum + d[base + c] as u64;
            c = c + 1;
        }
        assert(sum / (ch as u64) <= 255) by (nonlinear_arith) requires sum <= 255 * ch, ch >= 1;
        (sum / ch as u64) as u8
    } else {
        let mut sum: i64 = 0;
        let mut c: usize = 0;
        while c < ch
            invariant
                c <= ch <= 0xFFFF,
                dl == d@.len(),
                base + 2 * ch <= d@.len(),
                sum == sum_s16(d@, base as int, c as int),
                -32768 * c <= sum <= 32767 * c,
            decreases ch - c,
        {
            let o = base + 2 * c;
            let u: u16 = d[o] as u16 + (d[o + 1] as u16) * 256;
            let s: i64 = if u >= 0x8000 { u as i64 - 0x10000 } else { u as i64 };
            sum = sum + s;
            c = c + 1;
        }
        let avg: i64 = if sum >= 0 {
            ((sum as u64) / (ch as u64)) as i64
        } else {
            let q = ((-sum) as u64) / (ch as u64);
            -(q as i64)
        };
        assert(avg == div_trunc(sum as int, ch as int));
        assert(-32768 <= avg <= 32767) by (nonlinear_arith)
            requires
                -32768 * ch <= sum <= 32767 * ch,
                ch >= 1,
                avg == div_trunc(sum as int, ch as int);
        let fl: i64 = if avg >= 0 {
            avg / 256
        } else {
            -((((-avg) + 255) / 256))
        };
        assert(fl == avg as int / 256) by (nonlinear_arith)
            requires
                avg >= 0 ==> fl == avg / 256,
                avg < 0 ==> fl == -(((-avg) + 255) / 256);
        let v = fl + 128;
        let r: u8 = if v < 0 { 0 } else if v > 255 { 255 } else { v as u8 };
        r
    }
}

/// Fold PCM frames to 8-bit unsigned mono by averaging channels.
pub fn to_mono_u8(w: &Wav) -> (out: Vec<u8>)
    requires
        w.channels >= 1,
        w.bits == 8 || w.bits == 16,
    ensures
        out@ == mono_of(w.data@, w.channels as int, w.bits as int),
{
    let dl = w.data.len();
    let ch = w.channels as usize;
    let frame: usize = if w.bits == 8 { ch } else { 2 * ch };
    let nframes = w.data.len() / frame;
    let mut out: Vec<u8> = Vec::new();
    let mut k: usize = 0;
    while k < nframes
        invariant
            k <= nframes,
            1 <= ch <= 0xFFFF,
            frame == (if w.bits == 8 { ch as int } else { 2 * ch as int }),
            nframes == w.data@.len() as int / frame as int,
            dl == w.data@.len(),
            w.bits == 8 || w.bits == 16,
            out@.len() == k,
            forall|j: int| 0 <= j < k ==> out@[j] == mono_sample(w.data@, ch as int, w.bits as int, j),
        decreases nframes - k,
    {
        assert(k * frame + frame <= w.data@.len()) by (nonlinear_arith)
            requires k < nframes, nframes == w.data@.len() as int / frame as int, frame >= 1;
        assert(k * 2 * ch == k * (2 * ch)) by (nonlinear_arith);
        let base = k * frame;
        out.push(frame_sample(&w.data, ch, w.bits, k, base));
        k = k + 1;
    }
    assert(out@ =~= mono_of(w.data@, w.channels as int, w.bits as int));
    out
}

/// A format-1 `snd ` resource: one sampled-sound `bufferCmd` whose standard
/// sound header carries the 8-bit samples at `rate` Hz (as 16.16 fixed
/// point, so the rate is taken modulo 65536).
pub open spec fn snd_bytes(samples: Seq<u8>, rate: u32) -> Seq<u8> {
    be16_bytes(1) + be16_bytes(1) + be16_bytes(5) + be32_bytes(0) + be16_bytes(1) + be16_bytes(0x8051)
        + be16_bytes(0) + be32_bytes(20) + be32_bytes(0) + be32_bytes(samples.len() as int % 0x1_0000_0000)
        + be32_bytes((rate as int % 0x10000) * 0x10000) + be32_bytes(0) + be32_bytes(0) + seq![0u8, 60u8]
        + samples
}

/// A format-1 `snd ` resource holding `samples` at `rate_hz`.
pub fn snd_format1(samples: &[u8], rate_hz: u32) -> (s: Vec<u8>)
    ensures
        s@ == snd_bytes(samples@, rate_hz),
{
    let mut s: Vec<u8> = Vec::new();
    push_be16(&mut s, 1);
    push_be16(&mut s, 1);
    push_be16(&mut s, 5);
    push_be32(&mut s, 0);
    push_be16(&mut s, 1);
    push_be16(&mut s, 0x8051);
    push_be16(&mut s, 0);
    push_be32(&mut s, 20);
    push_be32(&mut s, 0);
    push_be32(&mut s, (samples.len() as u64 % 0x1_0000_0000) as u32);
    push_be32(&mut s, (rate_hz % 0x10000) * 0x10000);
    push_be32(&mut s, 0);
    push_be32(&mut s, 0);
    s.push(0x00);
    s.push(60);
    push_all(&mut s, samples);
    assert(s@ =~= snd_bytes(samples@, rate_hz));
    s
}

/// The type list of a fork holding one `snd ` resource with id 128: one
/// type, one reference at data offset 0.
pub open spec fn snd_type_list() -> Seq<u8> {
    be16_bytes(0) + seq![0x73u8, 0x6E, 0x64, 0x20] + be16_bytes(0) + be16_bytes(10) + be16_bytes(128)
        + be16_bytes(0xFFFF) + seq![0u8] + seq![0u8, 0u8, 0u8] + be32_bytes(0)
}

/// The map of a fork holding one `snd ` resource with id 128.
pub open spec fn snd_map() -> Seq<u8> {
    zeros(24) + be16_bytes(28) + be16_bytes(28 + snd_type_list().len() as int) + snd_type_list()
}

/// The resource fork holding one `snd ` resource (id 128): header, 256-byte
/// data offset, the data section (length word + body), and the map.
pub open spec fn snd_fork(snd: Seq<u8>) -> Seq<u8> {
    let data_len = 4 + snd.len() as int;
    be32_bytes(256) + be32_bytes((256 + data_len) % 0x1_0000_0000) + be32_bytes(data_len % 0x1_0000_0000)
        + be32_bytes(snd_map().len() as int) + zeros(240) + be32_bytes(snd.len() as int % 0x1_0000_0000) + snd
        + snd_map()
}

fn push_snd_map(out: &mut Vec<u8>)
    ensures
        final(out)@ == old(out)@ + snd_map(),
{
    let mut tl: Vec<u8> = Vec::new();
    push_be16(&mut tl, 0);
    tl.push(0x73);
    tl.push(0x6E);
    tl.push(0x64);
    tl.push(0x20);
    push_be16(&mut tl, 0);
    push_be16(&mut tl, 10);
    push_be16(&mut tl, 128);
    push_be16(&mut tl, 0xFFFF);
    tl.push(0);
    tl.push(0);
    tl.push(0);
    tl.push(0);
    push_be32(&mut tl, 0);
    assert(tl@ =~= snd_type_list());
    push_zeros(out, 24);
    push_be16(out, 28);
    push_be16(out, 28 + tl.len() as u16);
    push_all(out, tl.as_slice());
    assert(final(out)@ =~= old(out)@ + snd_map());
}

/// Wrap one `snd ` resource (id 128) into a complete resource fork.
pub fn build_resfork(snd: &[u8]) -> (out: Vec<u8>)
    ensures
        out@ == snd_fork(snd@),
{
    let sm: u64 = snd.len() as u64 % 0x1_0000_0000;
    let data_len = (sm + 4) % 0x1_0000_0000;
    let map_off = (sm + 260) % 0x1_0000_0000;
    assert(data_len == (4 + snd@.len() as int) % 0x1_0000_0000) by (nonlinear_arith)
        requires sm == snd@.len() as int % 0x1_0000_0000, data_len == (sm + 4) % 0x1_0000_0000;
    assert(map_off == (256 + (4 + snd@.len() as int)) % 0x1_0000_0000) by (nonlinear_arith)
        requires sm == snd@.len() as int % 0x1_0000_0000, map_off == (sm + 260) % 0x1_0000_0000;
    let mut map: Vec<u8> = Vec::new();
    push_snd_map(&mut map);
    let mut out: Vec<u8> = Vec::new();
    push_be32(&mut out, 256);
    push_be32(&mut out, map_off as u32);
    push_be32(&mut out, data_len as u32);
    push_be32(&mut out, map.len() as u32);
    push_zeros(&mut out, 240);
    push_be32(&mut out, sm as u32);
    push_all(&mut out, snd);
    push_all(&mut out, map.as_slice());
    assert(out@ =~= snd_fork(snd@));
    out
}

/// The sound fork of a WAV file: its samples folded to 8-bit mono, cut to
/// the first `cap` samples, as a format-1 `snd ` resource in a fork.
pub open spec fn sound_fork_of(wav: Seq<u8>, cap: int) -> Result<Seq<u8>, WavError> {
    match wav_of(wav) {
        Err(e) => Err(e),
        Ok(v) => {
            let m = mono_of(v.3, v.1 as int, v.2 as int);
            let s = if m.len() > cap { m.take(cap) } else { m };
            Ok(snd_fork(snd_bytes(s, v.0)))
        },
    }
}

/// Build the resource fork of a sound file from the bytes of a WAV, keeping
/// at most `cap` samples (the caller's clip-length cap at the WAV's rate).
pub fn build_sound_fork(wav: &[u8], cap: usize) -> (r: Result<Vec<u8>, WavError>)
    ensures
        match (r, sound_fork_of(wav@, cap as int)) {
            (Ok(v), Ok(w)) => v@ == w,
            (Err(e), Err(f)) => e == f,
            _ => false,
        },
{
    let w = parse_wav(wav)?;
    let mono = to_mono_u8(&w);
    let n = if mono.len() > cap { cap } else { mono.len() };
    let s = vstd::slice::slice_subrange(mono.as_slice(), 0, n);
    proof {
        if mono@.len() > cap {
            assert(s@ =~= mono@.take(cap as int));
        } else {
            assert(s@ =~= mono@);
        }
    }
    let snd = snd_format1(s, w.rate);
    Ok(build_resfork(snd.as_slice()))
}


/// The single-`snd ` fork is exactly what the general resource-fork writer
/// makes of that one resource: the two writers agree byte for byte.
pub proof fn lemma_snd_fork_is_general_fork(r: Res)
    requires
        r.tag@ == seq![0x73u8, 0x6E, 0x64, 0x20],
        r.id == 128,
    ensures
        fork_of(seq![r]) == snd_fork(r.data@),
{
    let rs = seq![r];
    assert(rs.drop_last() =~= Seq::<Res>::empty());
    assert(types_of(Seq::<Res>::empty()) =~= Seq::<Seq<u8>>::empty());
    assert(types_of(rs) =~= seq![r.tag@]);
    assert(members(rs, r.tag@, 0) =~= Seq::<int>::empty());
    assert(members(rs, r.tag@, 1) =~= seq![0int]);
    assert(order_upto(rs, 0) =~= Seq::<int>::empty());
    assert(order_upto(rs, 1) =~= seq![0int]);
    let ord = order_of(rs);
    assert(ord =~= seq![0int]);
    assert(data_upto(rs, ord, 0) =~= Seq::<u8>::empty());
    assert(data_upto(rs, ord, 1) =~= chunk(r));
    assert(data_of(rs) =~= chunk(r));
    assert(refs_upto(rs, ord, 0) =~= Seq::<u8>::empty());
    assert(refs_upto(rs, ord, 1) =~= ref_entry(128, 0));
    assert(type_entry(rs, 0) =~= r.tag@ + be16_bytes(0) + be16_bytes(10));
    assert(type_entries_upto(rs, 0) =~= Seq::<u8>::empty());
    assert(type_entries_upto(rs, 1) =~= type_entry(rs, 0));
    assert(ref_entry(128, 0) =~= be16_bytes(128) + be16_bytes(0xFFFF) + seq![0u8] + seq![0u8, 0u8, 0u8] + be32_bytes(0));
    assert(type_list(rs) =~= snd_type_list());
    assert(map_of(rs) =~= snd_map());
    assert(snd_map().len() == 50);
    assert(fork_of(rs) =~= snd_fork(r.data@));
}

} // verus!
