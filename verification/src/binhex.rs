//! BinHex 4.0 encoding, written as spec functions: a file's stream, its
//! run-length stage, its 6-bit groups and their alphabet symbols; and the law
//! that the decoder (`icons::binhex_resource_fork`, specified by
//! `icons::hqx_rsrc`) gives back the resource fork of what was encoded.

use crate::bytes::{be32_at, be32_bytes, lemma_be32_roundtrip};
use crate::icons::{be32_opt, first_colon, hqx_rsrc, hqx_rsrc_of_stream, hqx_value, packed, packed_byte, sextets, unrle, unrle_from, HqxError};
use vstd::prelude::*;
use vstd::utf8::valid_utf8;

verus! {

/// A file as BinHex carries it. The CRC fields are taken as they are given:
/// the decoder does not check them.
pub struct HqxFile {
    pub name: Seq<u8>,
    pub ftype: Seq<u8>,
    pub creator: Seq<u8>,
    pub flags: Seq<u8>,
    pub data: Seq<u8>,
    pub rsrc: Seq<u8>,
    pub header_crc: Seq<u8>,
    pub data_crc: Seq<u8>,
    pub rsrc_crc: Seq<u8>,
}

impl HqxFile {
    /// Every field has the width the format gives it.
    pub open spec fn wf(self) -> bool {
        &&& self.name.len() < 256
        &&& self.ftype.len() == 4
        &&& self.creator.len() == 4
        &&& self.flags.len() == 2
        &&& self.data.len() < 0x1_0000_0000
        &&& self.rsrc.len() < 0x1_0000_0000
        &&& self.header_crc.len() == 2
        &&& self.data_crc.len() == 2
        &&& self.rsrc_crc.len() == 2
    }

    /// The header: name length, name, version 0, type, creator, flags and
    /// the two fork lengths.
    pub open spec fn header(self) -> Seq<u8> {
        seq![self.name.len() as u8] + self.name + seq![0u8] + self.ftype + self.creator + self.flags + be32_bytes(
            self.data.len() as int,
        ) + be32_bytes(self.rsrc.len() as int)
    }

    /// The decoded stream: header and its CRC, the data fork and its CRC,
    /// the resource fork and its CRC.
    pub open spec fn stream(self) -> Seq<u8> {
        self.header() + self.header_crc + self.data + self.data_crc + self.rsrc + self.rsrc_crc
    }
}

/// A byte as the run-length stage writes it: the marker `0x90` escaped as
/// `0x90 0x00`, every other byte as itself.
pub open spec fn rle_byte(b: u8) -> Seq<u8> {
    if b == 0x90 { seq![0x90u8, 0x00u8] } else { seq![b] }
}

/// The run-length stage of a stream (no runs folded).
pub open spec fn rle90(s: Seq<u8>) -> Seq<u8>
    decreases s.len(),
{
    if s.len() == 0 { Seq::empty() } else { rle_byte(s[0]) + rle90(s.drop_first()) }
}

/// Byte `i` of `s`, or 0 past its end (the padding of the last group).
pub open spec fn byte_or_zero(s: Seq<u8>, i: int) -> int {
    if 0 <= i < s.len() { s[i] as int } else { 0 }
}

/// The `j`th 6-bit group of the bits of `s`, most significant first.
pub open spec fn sextet_of(s: Seq<u8>, j: int) -> u8 {
    let g = 3 * (j / 4);
    let b0 = byte_or_zero(s, g);
    let b1 = byte_or_zero(s, g + 1);
    let b2 = byte_or_zero(s, g + 2);
    (if j % 4 == 0 {
        b0 / 4
    } else if j % 4 == 1 {
        (b0 % 4) * 16 + b1 / 16
    } else if j % 4 == 2 {
        (b1 % 16) * 4 + b2 / 64
    } else {
        b2 % 64
    }) as u8
}

/// How many 6-bit groups carry `n` bytes: four per three bytes, and two or
/// three for a last one or two.
pub open spec fn sextet_count(n: int) -> int {
    4 * (n / 3) + if n % 3 == 0 { 0int } else if n % 3 == 1 { 2int } else { 3int }
}

/// The 6-bit groups of `s`.
pub open spec fn sextet_values(s: Seq<u8>) -> Seq<u8> {
    Seq::new(sextet_count(s.len() as int) as nat, |j: int| sextet_of(s, j))
}

/// The alphabet symbol of a 6-bit value.
pub open spec fn hqx_symbol(v: u8) -> u8 {
    if v < 13 {
        (v + 0x21) as u8
    } else if v < 20 {
        (v - 13 + 0x30) as u8
    } else if v < 22 {
        (v - 20 + 0x38) as u8
    } else if v == 22 {
        0x40
    } else if v < 37 {
        (v - 23 + 0x41) as u8
    } else if v < 44 {
        (v - 37 + 0x50) as u8
    } else if v < 48 {
        (v - 44 + 0x58) as u8
    } else if v == 48 {
        0x60
    } else if v < 55 {
        (v - 49 + 0x61) as u8
    } else if v < 61 {
        (v - 55 + 0x68) as u8
    } else {
        (v - 61 + 0x70) as u8
    }
}

/// The symbols of 6-bit values, one per value, without line breaks.
pub open spec fn hqx_text(v: Seq<u8>) -> Seq<u8> {
    v.map_values(|x: u8| hqx_symbol(x))
}

/// The canonical body of a BinHex file for `f`.
pub open spec fn hqx_body(f: HqxFile) -> Seq<u8> {
    hqx_text(sextet_values(rle90(f.stream())))
}

proof fn lemma_symbol(v: u8)
    requires
        v < 64,
    ensures
        hqx_value(hqx_symbol(v)) == Some(v),
        hqx_symbol(v) < 0x80,
        hqx_symbol(v) != 0x3A,
{
}

proof fn lemma_text(v: Seq<u8>)
    requires
        forall|i: int| 0 <= i < v.len() ==> v[i] < 64,
    ensures
        sextets(hqx_text(v)) == v,
        forall|i: int| 0 <= i < hqx_text(v).len() ==> hqx_text(v)[i] < 0x80 && hqx_text(v)[i] != 0x3A,
    decreases v.len(),
{
    if v.len() > 0 {
        let t = hqx_text(v);
        lemma_text(v.drop_last());
        assert(t.drop_last() =~= hqx_text(v.drop_last()));
        lemma_symbol(v.last());
        assert(t.last() == hqx_symbol(v.last()));
        assert(sextets(t) =~= v);
        assert forall|i: int| 0 <= i < t.len() implies t[i] < 0x80 && t[i] != 0x3A by {
            lemma_symbol(v[i]);
        }
    }
}

proof fn lemma_sextet_small(s: Seq<u8>)
    ensures
        forall|j: int| 0 <= j < sextet_values(s).len() ==> sextet_values(s)[j] < 64,
{
    assert forall|j: int| 0 <= j < sextet_values(s).len() implies sextet_values(s)[j] < 64 by {
        let g = 3 * (j / 4);
        let b0 = byte_or_zero(s, g);
        let b1 = byte_or_zero(s, g + 1);
        let b2 = byte_or_zero(s, g + 2);
        assert(0 <= b0 < 256 && 0 <= b1 < 256 && 0 <= b2 < 256);
    }
}

proof fn lemma_group_bytes(b0: int, b1: int, b2: int)
    requires
        0 <= b0 < 256,
        0 <= b1 < 256,
        0 <= b2 < 256,
    ensures
        (b0 / 4) * 4 + ((b0 % 4) * 16 + b1 / 16) / 16 == b0,
        (((b0 % 4) * 16 + b1 / 16) % 16) * 16 + ((b1 % 16) * 4 + b2 / 64) / 4 == b1,
        (((b1 % 16) * 4 + b2 / 64) % 4) * 64 + b2 % 64 == b2,
{
    assert((b0 / 4) * 4 + ((b0 % 4) * 16 + b1 / 16) / 16 == b0) by (nonlinear_arith)
        requires 0 <= b0 < 256, 0 <= b1 < 256;
    assert((((b0 % 4) * 16 + b1 / 16) % 16) * 16 + ((b1 % 16) * 4 + b2 / 64) / 4 == b1) by (nonlinear_arith)
        requires 0 <= b0 < 256, 0 <= b1 < 256, 0 <= b2 < 256;
    assert((((b1 % 16) * 4 + b2 / 64) % 4) * 64 + b2 % 64 == b2) by (nonlinear_arith)
        requires 0 <= b1 < 256, 0 <= b2 < 256;
}

proof fn lemma_pack_byte(s: Seq<u8>, k: int)
    requires
        0 <= k < s.len(),
    ensures
        packed_byte(sextet_values(s), k) == s[k],
{
    let v = sextet_values(s);
    let n = s.len() as int;
    let q = k / 3;
    let g = 4 * q;
    let b0 = byte_or_zero(s, 3 * q);
    let b1 = byte_or_zero(s, 3 * q + 1);
    let b2 = byte_or_zero(s, 3 * q + 2);
    assert(g / 4 == q && (g + 1) / 4 == q && (g + 2) / 4 == q && (g + 3) / 4 == q);
    assert(g % 4 == 0 && (g + 1) % 4 == 1 && (g + 2) % 4 == 2 && (g + 3) % 4 == 3);
    assert(n / 3 >= q);
    lemma_group_bytes(b0, b1, b2);
    if k % 3 == 0 {
        assert(g + 1 < sextet_count(n));
        assert(v[g] == (b0 / 4) as u8);
        assert(v[g + 1] == ((b0 % 4) * 16 + b1 / 16) as u8);
        assert(b0 == s[k]);
    } else if k % 3 == 1 {
        assert(g + 2 < sextet_count(n));
        assert(v[g + 1] == ((b0 % 4) * 16 + b1 / 16) as u8);
        assert(v[g + 2] == ((b1 % 16) * 4 + b2 / 64) as u8);
        assert(b1 == s[k]);
    } else {
        assert(g + 3 < sextet_count(n));
        assert(v[g + 2] == ((b1 % 16) * 4 + b2 / 64) as u8);
        assert(v[g + 3] == (b2 % 64) as u8);
        assert(b2 == s[k]);
    }
}

proof fn lemma_pack(s: Seq<u8>)
    ensures
        packed(sextet_values(s)) == s,
{
    let n = s.len() as int;
    let m = sextet_count(n);
    assert((m * 6) / 8 == n) by (nonlinear_arith)
        requires
            m == 4 * (n / 3) + if n % 3 == 0 { 0int } else if n % 3 == 1 { 2int } else { 3int },
            n >= 0,
    ;
    assert forall|k: int| 0 <= k < n implies packed_byte(sextet_values(s), k) == s[k] by {
        lemma_pack_byte(s, k);
    }
    assert(packed(sextet_values(s)) =~= s);
}

proof fn lemma_unrle(pre: Seq<u8>, s: Seq<u8>, acc: Seq<u8>)
    ensures
        unrle_from(pre + rle90(s), pre.len() as int, acc) == acc + s,
    decreases s.len(),
{
    let b = pre + rle90(s);
    if s.len() == 0 {
        assert(b =~= pre);
        assert(acc + s =~= acc);
    } else {
        let x = s[0];
        let rest = s.drop_first();
        let pre2 = pre + rle_byte(x);
        assert(b =~= pre2 + rle90(rest));
        lemma_unrle(pre2, rest, acc.push(x));
        assert(acc.push(x) + rest =~= acc + s);
        assert(b[pre.len() as int] == rle_byte(x)[0]);
        if x == 0x90 {
            assert(b[pre.len() as int + 1] == 0);
        }
    }
}

proof fn lemma_first_colon_at(t: Seq<u8>, from: int, at: int)
    requires
        0 <= from <= at < t.len(),
        t[at] == 0x3A,
        forall|i: int| from <= i < at ==> t[i] != 0x3A,
    ensures
        first_colon(t, from) == Some(at),
    decreases at - from,
{
    if from < at {
        lemma_first_colon_at(t, from + 1, at);
    }
}

proof fn lemma_ascii_utf8(b: Seq<u8>)
    requires
        forall|i: int| 0 <= i < b.len() ==> b[i] < 0x80,
    ensures
        valid_utf8(b),
    decreases b.len(),
{
    if b.len() > 0 {
        assert(vstd::utf8::pop_first_scalar(b) =~= b.drop_first());
        lemma_ascii_utf8(b.drop_first());
    }
}

proof fn lemma_be32_at(out: Seq<u8>, o: int, x: int)
    requires
        0 <= o,
        o + 4 <= out.len(),
        0 <= x < 0x1_0000_0000,
        out.subrange(o, o + 4) == be32_bytes(x),
    ensures
        be32_opt(out, o) == Some(x),
{
    lemma_be32_roundtrip(x);
    assert(out[o] == be32_bytes(x)[0]);
    assert(out[o + 1] == be32_bytes(x)[1]);
    assert(out[o + 2] == be32_bytes(x)[2]);
    assert(out[o + 3] == be32_bytes(x)[3]);
}

proof fn lemma_header(f: HqxFile)
    requires
        f.wf(),
    ensures
        f.header().len() == f.name.len() + 20,
        f.header()[0] == f.name.len(),
        f.header().subrange(f.name.len() as int + 12, f.name.len() as int + 16) == be32_bytes(f.data.len() as int),
        f.header().subrange(f.name.len() as int + 16, f.name.len() as int + 20) == be32_bytes(f.rsrc.len() as int),
{
    let n = f.name.len() as int;
    let h0 = seq![n as u8] + f.name + seq![0u8] + f.ftype + f.creator + f.flags;
    let b1 = be32_bytes(f.data.len() as int);
    let b2 = be32_bytes(f.rsrc.len() as int);
    assert(h0.len() == n + 12);
    assert(f.header() =~= h0 + b1 + b2);
    assert(h0[0] == n as u8);
    assert((h0 + b1 + b2).subrange(n + 12, n + 16) =~= b1);
    assert((h0 + b1 + b2).subrange(n + 16, n + 20) =~= b2);
}

proof fn lemma_stream_fork(f: HqxFile)
    requires
        f.wf(),
    ensures
        hqx_rsrc_of_stream(f.stream()) == Ok::<Seq<u8>, HqxError>(f.rsrc),
{
    let out = f.stream();
    let n = f.name.len() as int;
    let h = f.header();
    lemma_header(f);
    let mid = h + f.header_crc + f.data + f.data_crc;
    assert(out =~= mid + f.rsrc + f.rsrc_crc);
    assert(mid.len() == n + 24 + f.data.len());
    assert(out.subrange(0, n + 20) =~= h);
    assert(out[0] == h[0]);
    assert(out.subrange(n + 12, n + 16) =~= h.subrange(n + 12, n + 16));
    assert(out.subrange(n + 16, n + 20) =~= h.subrange(n + 16, n + 20));
    lemma_be32_at(out, n + 12, f.data.len() as int);
    lemma_be32_at(out, n + 16, f.rsrc.len() as int);
    let start = n + 2 + 20 + f.data.len() + 2;
    assert(start == mid.len());
    assert(out.subrange(start, start + f.rsrc.len()) =~= f.rsrc);
}

/// Decoding a BinHex 4.0 file gives back the resource fork that was
/// encoded. The file is any text before the first `:` that holds no `:`,
/// then `:`, a body, and `:`; the body's alphabet symbols carry the 6-bit
/// groups of the run-length stage of the file's stream, and its other bytes
/// (line breaks, spaces) are ASCII other than `:`.
pub proof fn lemma_binhex_round_trip(pre: Seq<u8>, body: Seq<u8>, f: HqxFile)
    requires
        f.wf(),
        valid_utf8(pre),
        forall|i: int| 0 <= i < pre.len() ==> pre[i] != 0x3A,
        forall|i: int| 0 <= i < body.len() ==> body[i] < 0x80 && body[i] != 0x3A,
        sextets(body) == sextet_values(rle90(f.stream())),
    ensures
        hqx_rsrc(pre + seq![0x3Au8] + body + seq![0x3Au8]) == Ok::<Seq<u8>, HqxError>(f.rsrc),
{
    let tail = seq![0x3Au8] + body + seq![0x3Au8];
    let hqx = pre + seq![0x3Au8] + body + seq![0x3Au8];
    assert(hqx =~= pre + tail);
    lemma_ascii_utf8(tail);
    vstd::utf8::valid_utf8_concat(pre, tail);
    let s = pre.len() as int;
    let e = s + 1 + body.len();
    lemma_first_colon_at(hqx, 0, s);
    lemma_first_colon_at(hqx, s + 1, e);
    assert(hqx.subrange(s + 1, e) =~= body);
    lemma_pack(rle90(f.stream()));
    lemma_unrle(Seq::empty(), f.stream(), Seq::empty());
    assert(Seq::<u8>::empty() + rle90(f.stream()) =~= rle90(f.stream()));
    assert(Seq::<u8>::empty() + f.stream() =~= f.stream());
    assert(unrle(packed(sextets(body))) == f.stream());
    lemma_stream_fork(f);
}

/// The canonical encoding (the body written as one run of symbols) decodes
/// back to the resource fork, whatever text comes before the first `:`.
pub proof fn lemma_binhex_encode_decode(pre: Seq<u8>, f: HqxFile)
    requires
        f.wf(),
        valid_utf8(pre),
        forall|i: int| 0 <= i < pre.len() ==> pre[i] != 0x3A,
    ensures
        hqx_rsrc(pre + seq![0x3Au8] + hqx_body(f) + seq![0x3Au8]) == Ok::<Seq<u8>, HqxError>(f.rsrc),
{
    lemma_sextet_small(rle90(f.stream()));
    lemma_text(sextet_values(rle90(f.stream())));
    lemma_binhex_round_trip(pre, hqx_body(f), f);
}

// ---- run folding -------------------------------------------------------------

/// A run of `n` copies of byte `x` as the run-length stage writes it: the
/// byte itself (the marker `0x90` escaped as `0x90 0x00`), then, for a run
/// of two or more, the marker `0x90` and the run's length `n`.
pub open spec fn rle_run(x: u8, n: u8) -> Seq<u8> {
    rle_byte(x) + if n >= 2 { seq![0x90u8, n] } else { Seq::<u8>::empty() }
}

/// A stream written as runs `(byte, length)`, each folded.
pub open spec fn rle_runs(rs: Seq<(u8, u8)>) -> Seq<u8>
    decreases rs.len(),
{
    if rs.len() == 0 { Seq::empty() } else { rle_run(rs[0].0, rs[0].1) + rle_runs(rs.drop_first()) }
}

/// The bytes runs stand for: each byte as many times as its run's length.
pub open spec fn run_bytes(rs: Seq<(u8, u8)>) -> Seq<u8>
    decreases rs.len(),
{
    if rs.len() == 0 {
        Seq::empty()
    } else {
        Seq::new(rs[0].1 as nat, |j: int| rs[0].0) + run_bytes(rs.drop_first())
    }
}

/// Every run holds at least one byte.
pub open spec fn runs_nonempty(rs: Seq<(u8, u8)>) -> bool {
    forall|k: int| 0 <= k < rs.len() ==> (#[trigger] rs[k]).1 >= 1
}

proof fn lemma_unrle_literal(b: Seq<u8>, i: int, x: u8, acc: Seq<u8>)
    requires
        0 <= i,
        i + rle_byte(x).len() <= b.len(),
        b.subrange(i, i + rle_byte(x).len() as int) == rle_byte(x),
    ensures
        unrle_from(b, i, acc) == unrle_from(b, i + rle_byte(x).len() as int, acc.push(x)),
{
    assert(b[i] == rle_byte(x)[0]);
    if x == 0x90 {
        assert(b[i + 1] == rle_byte(x)[1]);
    }
}

proof fn lemma_unrle_marker(b: Seq<u8>, j: int, n: u8, acc: Seq<u8>)
    requires
        0 <= j,
        j + 2 <= b.len(),
        b[j] == 0x90,
        b[j + 1] == n,
        n >= 1,
        acc.len() > 0,
    ensures
        unrle_from(b, j, acc) == unrle_from(b, j + 2, acc + Seq::new((n - 1) as nat, |k: int| acc.last())),
{
    assert(crate::icons::repeat(acc.last(), (n - 1) as nat) =~= Seq::new((n - 1) as nat, |k: int| acc.last()));
}

proof fn lemma_unrle_runs(pre: Seq<u8>, rs: Seq<(u8, u8)>, acc: Seq<u8>)
    requires
        runs_nonempty(rs),
    ensures
        unrle_from(pre + rle_runs(rs), pre.len() as int, acc) == acc + run_bytes(rs),
    decreases rs.len(),
{
    let b = pre + rle_runs(rs);
    let i = pre.len() as int;
    if rs.len() == 0 {
        assert(b =~= pre);
        assert(acc + run_bytes(rs) =~= acc);
    } else {
        let x = rs[0].0;
        let n = rs[0].1;
        let rest = rs.drop_first();
        assert(n >= 1);
        assert(runs_nonempty(rest)) by {
            assert forall|k: int| 0 <= k < rest.len() implies (#[trigger] rest[k]).1 >= 1 by {
                assert(rest[k] == rs[k + 1]);
            }
        }
        let lit = rle_byte(x);
        let pre2 = pre + rle_run(x, n);
        assert(b =~= pre2 + rle_runs(rest));
        assert(b.subrange(i, i + lit.len() as int) =~= lit);
        lemma_unrle_literal(b, i, x, acc);
        let acc1 = acc.push(x);
        let j = i + lit.len() as int;
        if n >= 2 {
            assert(b[j] == 0x90 && b[j + 1] == n);
            lemma_unrle_marker(b, j, n, acc1);
            assert(acc1.last() == x);
            let acc2 = acc1 + Seq::new((n - 1) as nat, |k: int| acc1.last());
            assert(j + 2 == pre2.len());
            lemma_unrle_runs(pre2, rest, acc2);
            assert(acc2 + run_bytes(rest) =~= acc + run_bytes(rs));
        } else {
            assert(j == pre2.len());
            lemma_unrle_runs(pre2, rest, acc1);
            assert(acc1 + run_bytes(rest) =~= acc + run_bytes(rs));
        }
    }
}

/// Run-length expansion undoes run folding: a stream written as runs of a
/// byte — each run as the byte, then (for two or more) the marker `0x90`
/// and the run's length — expands to each byte repeated its run's length
/// times.
pub proof fn lemma_unrle_folds_runs(rs: Seq<(u8, u8)>)
    requires
        runs_nonempty(rs),
    ensures
        unrle(rle_runs(rs)) == run_bytes(rs),
{
    lemma_unrle_runs(Seq::empty(), rs, Seq::empty());
    assert(Seq::<u8>::empty() + rle_runs(rs) =~= rle_runs(rs));
    assert(Seq::<u8>::empty() + run_bytes(rs) =~= run_bytes(rs));
}

/// Decoding a BinHex 4.0 file whose run-length stage folds runs gives back
/// the resource fork: when runs of bytes spell out the file's stream and
/// the body's symbols carry the 6-bit groups of the folded runs (other
/// ASCII bytes but `:` may stand between them), the decoder returns the
/// fork.
pub proof fn lemma_binhex_runs_round_trip(pre: Seq<u8>, body: Seq<u8>, f: HqxFile, rs: Seq<(u8, u8)>)
    requires
        f.wf(),
        valid_utf8(pre),
        forall|i: int| 0 <= i < pre.len() ==> pre[i] != 0x3A,
        forall|i: int| 0 <= i < body.len() ==> body[i] < 0x80 && body[i] != 0x3A,
        runs_nonempty(rs),
        run_bytes(rs) == f.stream(),
        sextets(body) == sextet_values(rle_runs(rs)),
    ensures
        hqx_rsrc(pre + seq![0x3Au8] + body + seq![0x3Au8]) == Ok::<Seq<u8>, HqxError>(f.rsrc),
{
    let tail = seq![0x3Au8] + body + seq![0x3Au8];
    let hqx = pre + seq![0x3Au8] + body + seq![0x3Au8];
    assert(hqx =~= pre + tail);
    lemma_ascii_utf8(tail);
    vstd::utf8::valid_utf8_concat(pre, tail);
    let s = pre.len() as int;
    let e = s + 1 + body.len();
    lemma_first_colon_at(hqx, 0, s);
    lemma_first_colon_at(hqx, s + 1, e);
    assert(hqx.subrange(s + 1, e) =~= body);
    lemma_pack(rle_runs(rs));
    lemma_unrle_folds_runs(rs);
    assert(unrle(packed(sextets(body))) == f.stream());
    lemma_stream_fork(f);
}

} // verus!
