//! Classic-Mac PICT v2 encoding of RGBA artwork, and the raw 1-bit bitmap
//! sidecar.
//!
//! 1/4/8-bit pictures are indexed `PackBitsRect` (0x0098) with an embedded
//! colour table and PackBits-compressed rows; 16-bit is `DirectBitsRect`
//! (0x009A) with 1-5-5-5 pixels; 24-bit is `DirectBitsRect` with 8-8-8 colour
//! in 32-bit pixels. Indexed depths use a median-cut palette (black and white
//! with an ordered Bayer dither for 1-bit).

use crate::bytes::{be16_at, be16_bytes, be32_bytes, push_all, push_be16, push_be32};
use vstd::prelude::*;
use vstd::string::StringSliceAdditionalSpecFns;

verus! {

/// Colour depth of a picture.
#[derive(Clone, Copy, Debug, PartialEq, Eq, Structural)]
pub enum Depth {
    One,
    Four,
    Eight,
    Sixteen,
    /// "Millions": 24 bits of colour stored in 32-bit pixels.
    TwentyFour,
}

/// A depth name that is not one of `1`, `4`, `8`, `16`, `24`, `32`.
#[derive(Clone, Copy, Debug, PartialEq, Eq, Structural)]
pub struct DepthError;

impl DepthError {
    /// The error's text.
    pub fn message(&self) -> (r: String)
        ensures
            r@ == "depth must be 1, 4, 8, 16, or 24"@,
    {
        String::from_str("depth must be 1, 4, 8, 16, or 24")
    }
}

/// Whether art of `w`×`h` pixels is resized to fit `max` pixels a side:
/// only when a side is longer (art is downscaled, never upscaled).
pub fn needs_downscale(w: u32, h: u32, max: Option<u32>) -> (r: bool)
    ensures
        r == (max matches Some(m) && (w > m || h > m)),
{
    match max {
        Some(m) => w > m || h > m,
        None => false,
    }
}

/// The ASCII bytes of a text of digits.
pub open spec fn ascii_bytes(t: Seq<char>) -> Seq<u8> {
    t.map_values(|c: char| c as u8)
}

/// Every depth's number of bits, written in decimal, names that depth again.
pub proof fn lemma_depth_bits_round_trip(d: Depth)
    ensures
        depth_named(ascii_bytes(crate::text::decimal(d.bits_of() as int))) == Some(d),
{
    reveal_with_fuel(crate::text::nat_digits, 3);
    let t = crate::text::decimal(d.bits_of() as int);
    match d {
        Depth::One => {
            assert(t =~= seq!['1']);
            assert(ascii_bytes(t) =~= seq![0x31u8]);
            assert(depth_named(ascii_bytes(t)) == Some(d));
        },
        Depth::Four => {
            assert(t =~= seq!['4']);
            assert(ascii_bytes(t) =~= seq![0x34u8]);
            assert(ascii_bytes(t)[0] != 0x31u8);
            assert(ascii_bytes(t)[0] != 0x34u8 || ascii_bytes(t)[0] != 0x38u8);
            assert(depth_named(ascii_bytes(t)) == Some(d));
        },
        Depth::Eight => {
            assert(t =~= seq!['8']);
            assert(ascii_bytes(t) =~= seq![0x38u8]);
            assert(ascii_bytes(t)[0] != 0x31u8);
            assert(ascii_bytes(t)[0] != 0x34u8 || ascii_bytes(t)[0] != 0x38u8);
            assert(depth_named(ascii_bytes(t)) == Some(d));
        },
        Depth::Sixteen => {
            assert(crate::text::nat_digits(1) == seq!['1']);
            assert(t =~= seq!['1', '6']);
            assert(ascii_bytes(t) =~= seq![0x31u8, 0x36u8]);
            assert(depth_named(ascii_bytes(t)) == Some(d));
        },
        Depth::TwentyFour => {
            assert(crate::text::nat_digits(2) == seq!['2']);
            assert(t =~= seq!['2', '4']);
            assert(ascii_bytes(t) =~= seq![0x32u8, 0x34u8]);
            assert(depth_named(ascii_bytes(t)) == Some(d));
        },
    }
}

/// The depth a name stands for, given the name's UTF-8 bytes.
pub open spec fn depth_named(b: Seq<u8>) -> Option<Depth> {
    if b == seq![0x31u8] {
        Some(Depth::One)
    } else if b == seq![0x34u8] {
        Some(Depth::Four)
    } else if b == seq![0x38u8] {
        Some(Depth::Eight)
    } else if b == seq![0x31u8, 0x36u8] {
        Some(Depth::Sixteen)
    } else if b == seq![0x32u8, 0x34u8] || b == seq![0x33u8, 0x32u8] {
        Some(Depth::TwentyFour)
    } else {
        None
    }
}

impl Depth {
    /// The logical depth in bits.
    pub open spec fn bits_of(self) -> u16 {
        match self {
            Depth::One => 1,
            Depth::Four => 4,
            Depth::Eight => 8,
            Depth::Sixteen => 16,
            Depth::TwentyFour => 24,
        }
    }

    /// Whether the depth is stored as palette indices.
    pub open spec fn indexed(self) -> bool {
        self is One || self is Four || self is Eight
    }

    /// The PixMap `pixelSize`.
    pub open spec fn pixel_size_of(self) -> u16 {
        if self is TwentyFour { 32 } else { self.bits_of() }
    }

    /// The PixMap `(cmpCount, cmpSize)`.
    pub open spec fn components_of(self) -> (u16, u16) {
        match self {
            Depth::Sixteen => (3, 5),
            Depth::TwentyFour => (3, 8),
            _ => (1, self.bits_of()),
        }
    }

    /// Parse a depth name: `1`, `4`, `8`, `16`, or `24` (`32` is read as 24).
    pub fn parse(s: &str) -> (r: Result<Depth, DepthError>)
        ensures
            match depth_named(s.spec_bytes()) {
                Some(d) => r == Ok::<Depth, DepthError>(d),
                None => r is Err,
            },
    {
        let b = s.as_bytes();
        let n = b.len();
        if n == 1 && b[0] == 0x31 {
            assert(b@ =~= seq![0x31u8]);
            Ok(Depth::One)
        } else if n == 1 && b[0] == 0x34 {
            assert(b@ =~= seq![0x34u8]);
            Ok(Depth::Four)
        } else if n == 1 && b[0] == 0x38 {
            assert(b@ =~= seq![0x38u8]);
            Ok(Depth::Eight)
        } else if n == 2 && b[0] == 0x31 && b[1] == 0x36 {
            assert(b@ =~= seq![0x31u8, 0x36u8]);
            Ok(Depth::Sixteen)
        } else if n == 2 && ((b[0] == 0x32 && b[1] == 0x34) || (b[0] == 0x33 && b[1] == 0x32)) {
            if b[0] == 0x32 {
                assert(b@ =~= seq![0x32u8, 0x34u8]);
            } else {
                assert(b@ =~= seq![0x33u8, 0x32u8]);
            }
            Ok(Depth::TwentyFour)
        } else {
            Err(DepthError)
        }
    }

    /// Logical depth used for labels and the `<id>.<bits>.pict` suffix.
    pub fn bits(self) -> (r: u16)
        ensures
            r == self.bits_of(),
    {
        match self {
            Depth::One => 1,
            Depth::Four => 4,
            Depth::Eight => 8,
            Depth::Sixteen => 16,
            Depth::TwentyFour => 24,
        }
    }

    /// 1/4/8-bit are indexed (PackBitsRect + colour table); 16/24-bit are direct.
    pub fn is_indexed(self) -> (r: bool)
        ensures
            r == self.indexed(),
    {
        match self {
            Depth::One | Depth::Four | Depth::Eight => true,
            _ => false,
        }
    }

    /// PixMap `pixelSize`: 24-bit "Millions" is stored in 32-bit pixels.
    pub fn pixel_size(self) -> (r: u16)
        ensures
            r == self.pixel_size_of(),
    {
        match self {
            Depth::TwentyFour => 32,
            d => d.bits(),
        }
    }

    /// PixMap `(cmpCount, cmpSize)`: indexed = (1, bits); 16-bit = (3, 5);
    /// 24-bit = (3, 8).
    pub fn components(self) -> (r: (u16, u16))
        ensures
            r == self.components_of(),
    {
        match self {
            Depth::Sixteen => (3, 5),
            Depth::TwentyFour => (3, 8),
            d => (1, d.bits()),
        }
    }
}

/// What a conversion produced.
pub struct Stats {
    pub width: u16,
    pub height: u16,
    pub depth: u16,
    pub colors: usize,
    pub bytes: usize,
}

/// The eight bytes of a QuickDraw rectangle `(top, left, bottom, right)`.
pub open spec fn rect_bytes(t: u16, l: u16, b: u16, r: u16) -> Seq<u8> {
    be16_bytes(t as int) + be16_bytes(l as int) + be16_bytes(b as int) + be16_bytes(r as int)
}

/// Append a QuickDraw rectangle.
pub fn rect(out: &mut Vec<u8>, t: u16, l: u16, b: u16, r: u16)
    ensures
        final(out)@ == old(out)@ + rect_bytes(t, l, b, r),
{
    push_be16(out, t);
    push_be16(out, l);
    push_be16(out, b);
    push_be16(out, r);
    assert(final(out)@ =~= old(out)@ + rect_bytes(t, l, b, r));
}

// ---- palettes --------------------------------------------------------------

/// Perceived brightness of a colour, 0..=255.
pub open spec fn luma_of(r: u8, g: u8, b: u8) -> int {
    (30 * r + 59 * g + 11 * b) / 100
}

/// Perceived brightness of a colour, 0..=255.
pub fn luma(r: u8, g: u8, b: u8) -> (l: u32)
    ensures
        l == luma_of(r, g, b),
        l <= 255,
{
    (30 * r as u32 + 59 * g as u32 + 11 * b as u32) / 100
}

/// Squared distance between a palette colour and `(r, g, b)`.
pub open spec fn dist2(p: (u8, u8, u8), r: u8, g: u8, b: u8) -> int {
    (p.0 - r) * (p.0 - r) + (p.1 - g) * (p.1 - g) + (p.2 - b) * (p.2 - b)
}

/// `i` is the first palette entry nearest to `(r, g, b)`.
pub open spec fn is_first_nearest(pal: Seq<(u8, u8, u8)>, r: u8, g: u8, b: u8, i: int) -> bool {
    &&& 0 <= i < pal.len()
    &&& forall|j: int| 0 <= j < pal.len() ==> dist2(pal[i], r, g, b) <= dist2(#[trigger] pal[j], r, g, b)
    &&& forall|j: int| 0 <= j < i ==> dist2(pal[i], r, g, b) < dist2(#[trigger] pal[j], r, g, b)
}

/// The index (as a byte) of the first palette colour nearest to `(r, g, b)`;
/// 0 for an empty palette.
pub fn nearest(palette: &[(u8, u8, u8)], r: u8, g: u8, b: u8) -> (k: u8)
    ensures
        palette@.len() == 0 ==> k == 0,
        palette@.len() > 0 ==> exists|i: int|
            is_first_nearest(palette@, r, g, b, i) && k == i % 256,
{
    let mut best: usize = 0;
    let mut bestd: u32 = u32::MAX;
    let mut i: usize = 0;
    while i < palette.len()
        invariant
            0 <= i <= palette@.len(),
            i == 0 ==> bestd == u32::MAX && best == 0,
            i > 0 ==> best < i && bestd == dist2(palette@[best as int], r, g, b),
            forall|j: int| 0 <= j < i ==> bestd <= dist2(#[trigger] palette@[j], r, g, b),
            forall|j: int| 0 <= j < best ==> bestd < dist2(#[trigger] palette@[j], r, g, b),
        decreases palette@.len() - i,
    {
        let (pr, pg, pb) = palette[i];
        let dr = pr as i32 - r as i32;
        let dg = pg as i32 - g as i32;
        let db = pb as i32 - b as i32;
        assert(dr * dr <= 65025 && dg * dg <= 65025 && db * db <= 65025) by (nonlinear_arith)
            requires -255 <= dr <= 255, -255 <= dg <= 255, -255 <= db <= 255;
        assert(0 <= dr * dr && 0 <= dg * dg && 0 <= db * db) by (nonlinear_arith);
        let d = (dr * dr + dg * dg + db * db) as u32;
        assert(d == dist2(palette@[i as int], r, g, b));
        if d < bestd {
            bestd = d;
            best = i;
        }
        i = i + 1;
    }
    proof {
        if palette@.len() > 0 {
            assert(is_first_nearest(palette@, r, g, b, best as int));
        }
    }
    (best % 256) as u8
}

// ---- PackBits --------------------------------------------------------------

/// `n` copies of `x`.
pub open spec fn run_of(x: u8, n: nat) -> Seq<u8> {
    Seq::new(n, |j: int| x)
}

/// PackBits decoding: a header byte `0..=127` is followed by that many plus
/// one literal bytes; `129..=255` (as `i8`, `-127..=-1`) repeats the next byte
/// `257 - h` times; `128` is skipped.
pub open spec fn unpackbits(s: Seq<u8>) -> Seq<u8>
    decreases s.len(),
{
    if s.len() == 0 {
        Seq::empty()
    } else if s[0] < 128 {
        let end = 2 + s[0];
        if end <= s.len() {
            s.subrange(1, end) + unpackbits(s.subrange(end, s.len() as int))
        } else {
            s.subrange(1, s.len() as int)
        }
    } else if s[0] == 128 {
        unpackbits(s.subrange(1, s.len() as int))
    } else if s.len() >= 2 {
        run_of(s[1], (257 - s[0]) as nat) + unpackbits(s.subrange(2, s.len() as int))
    } else {
        Seq::empty()
    }
}

/// `s` is a sequence of complete PackBits packets, none headed by the
/// no-op byte 0x80.
pub open spec fn whole_packets(s: Seq<u8>) -> bool
    decreases s.len(),
{
    if s.len() == 0 {
        true
    } else if s[0] < 128 {
        2 + s[0] <= s.len() && whole_packets(s.subrange(2 + s[0], s.len() as int))
    } else if s[0] == 128 {
        false
    } else {
        s.len() >= 2 && whole_packets(s.subrange(2, s.len() as int))
    }
}

proof fn lemma_unpack_concat(a: Seq<u8>, b: Seq<u8>)
    requires
        whole_packets(a),
    ensures
        unpackbits(a + b) == unpackbits(a) + unpackbits(b),
        whole_packets(b) ==> whole_packets(a + b),
    decreases a.len(),
{
    if a.len() == 0 {
        assert(a + b =~= b);
    } else {
        let ab = a + b;
        assert(ab[0] == a[0]);
        let k: int = if a[0] < 128 { 2 + a[0] } else if a[0] == 128 { 1 } else { 2 };
        assert(ab.subrange(k, ab.len() as int) =~= a.subrange(k, a.len() as int) + b);
        lemma_unpack_concat(a.subrange(k, a.len() as int), b);
        if a[0] < 128 {
            assert(ab.subrange(1, k) =~= a.subrange(1, k));
        } else if a[0] > 128 {
            assert(ab[1] == a[1]);
        }
        assert(unpackbits(ab) =~= unpackbits(a) + unpackbits(b));
    }
}

/// The length of the run of bytes equal to `s[i]` from `i`, counted on from
/// `r` and capped at `cap`.
pub open spec fn run_from(s: Seq<u8>, i: int, r: int, cap: int) -> int
    decreases cap - r,
{
    if r < cap && i + r < s.len() && s[i + r] == s[i] { run_from(s, i, r + 1, cap) } else { r }
}

/// Where a literal packet that holds `lit` bytes and has reached `i` ends:
/// it grows by one byte while there are bytes left, it holds fewer than 128,
/// and no run of three equal bytes begins at `i`.
pub open spec fn lit_end(s: Seq<u8>, i: int, lit: int) -> int
    decreases 128 - lit,
{
    if i < s.len() && lit < 128 && run_from(s, i, 1, 3) < 3 { lit_end(s, i + 1, lit + 1) } else { i }
}

/// The PackBits packets for `s` from `i` on: a repeat packet (header
/// `257 - run`) for each run of three to 128 equal bytes, and literal packets
/// (header `length - 1`) of up to 128 bytes that stop where such a run begins.
pub open spec fn packbits_from(s: Seq<u8>, i: int) -> Seq<u8>
    decreases s.len() - i,
{
    if i < 0 || i >= s.len() {
        Seq::empty()
    } else {
        let r = run_from(s, i, 1, 128);
        if r >= 3 {
            if r <= 128 && i + r <= s.len() { seq![(257 - r) as u8, s[i]] + packbits_from(s, i + r) } else { Seq::empty() }
        } else {
            let e = lit_end(s, i + 1, 1);
            if i < e <= s.len() { seq![(e - i - 1) as u8] + s.subrange(i, e) + packbits_from(s, e) } else { Seq::empty() }
        }
    }
}

/// PackBits-compress `src`: runs of 3..=128 equal bytes become a two-byte
/// repeat packet, everything else literal packets of up to 128 bytes.
pub fn packbits(src: &[u8]) -> (out: Vec<u8>)
    ensures
        out@ == packbits_from(src@, 0),
        unpackbits(out@) == src@,
        whole_packets(out@),
        out@.len() <= src@.len() + src@.len() / 128 + 1,
{
    let mut out: Vec<u8> = Vec::new();
    let n = src.len();
    let mut i: usize = 0;
    let ghost mut owed: bool = false;
    proof {
        assert(unpackbits(out@) =~= src@.subrange(0, 0));
    }
    while i < n
        invariant
            n == src@.len(),
            i <= n,
            whole_packets(out@),
            unpackbits(out@) == src@.subrange(0, i as int),
            out@.len() + (if owed { 0int } else { 1int }) <= i + i / 128 + 1,
            owed && i < n ==> i + 2 < n && src@[i + 1] == src@[i as int] && src@[i + 2] == src@[i as int],
            out@ + packbits_from(src@, i as int) == packbits_from(src@, 0),
        decreases n - i,
    {
        let mut run: usize = 1;
        while i + run < n && src[i + run] == src[i] && run < 128
            invariant
                n == src@.len(),
                i < n,
                1 <= run <= 128,
                i + run <= n,
                run_from(src@, i as int, run as int, 128) == run_from(src@, i as int, 1, 128),
                forall|j: int| i <= j < i + run ==> src@[j] == src@[i as int],
            decreases 128 - run,
        {
            run = run + 1;
        }
        proof {
            if owed {
                assert(run >= 3);
            }
        }
        let ghost before = out@;
        if run >= 3 {
            let pkt_hdr = (257 - run) as u8;
            out.push(pkt_hdr);
            out.push(src[i]);
            proof {
                let pkt = seq![pkt_hdr, src@[i as int]];
                assert(out@ =~= before + pkt);
                assert(pkt.subrange(2, 2) =~= Seq::<u8>::empty());
                assert(unpackbits(Seq::<u8>::empty()) == Seq::<u8>::empty());
                assert(pkt_hdr as int == 257 - run);
                assert(unpackbits(pkt) == run_of(src@[i as int], run as nat) + unpackbits(Seq::<u8>::empty()));
                assert(unpackbits(pkt) =~= run_of(src@[i as int], run as nat));
                assert(whole_packets(Seq::<u8>::empty()));
                assert(whole_packets(pkt));
                lemma_unpack_concat(before, pkt);
                assert(src@.subrange(0, i + run) =~= src@.subrange(0, i as int)
                    + run_of(src@[i as int], run as nat));
            }
            i = i + run;
            proof {
                owed = false;
            }
        } else {
            let start = i;
            i = i + 1;
            let mut lit: usize = 1;
            let mut broke = false;
            while i < n && lit < 128
                invariant_except_break
                    n == src@.len(),
                    start < i <= n,
                    lit == i - start,
                    1 <= lit <= 128,
                    !broke,
                    lit_end(src@, i as int, lit as int) == lit_end(src@, start + 1, 1),
                ensures
                    n == src@.len(),
                    start < i <= n,
                    lit == i - start,
                    1 <= lit <= 128,
                    i == lit_end(src@, start + 1, 1),
                    broke ==> i + 2 < n && src@[i + 1] == src@[i as int] && src@[i + 2] == src@[i as int],
                    !broke ==> i == n || lit == 128,
                decreases 128 - lit,
            {
                let mut r: usize = 1;
                while i + r < n && src[i + r] == src[i] && r < 3
                    invariant
                        n == src@.len(),
                        i < n,
                        1 <= r <= 3,
                        i + r <= n,
                        forall|j: int| i <= j < i + r ==> src@[j] == src@[i as int],
                        run_from(src@, i as int, r as int, 3) == run_from(src@, i as int, 1, 3),
                    decreases 3 - r,
                {
                    r = r + 1;
                }
                if r >= 3 {
                    broke = true;
                    break;
                }
                i = i + 1;
                lit = lit + 1;
            }
            let hdr = (lit - 1) as u8;
            out.push(hdr);
            let lits = vstd::slice::slice_subrange(src, start, start + lit);
            push_all(&mut out, lits);
            proof {
                let pkt = seq![hdr] + src@.subrange(start as int, start + lit);
                assert(out@ =~= before + pkt);
                assert(pkt.subrange(2 + hdr, pkt.len() as int) =~= Seq::<u8>::empty());
                assert(pkt.subrange(1, 2 + hdr) =~= src@.subrange(start as int, start + lit));
                assert(unpackbits(Seq::<u8>::empty()) == Seq::<u8>::empty());
                assert(unpackbits(pkt) == pkt.subrange(1, 2 + hdr) + unpackbits(Seq::<u8>::empty()));
                assert(unpackbits(pkt) =~= src@.subrange(start as int, start + lit));
                assert(whole_packets(Seq::<u8>::empty()));
                assert(whole_packets(pkt));
                lemma_unpack_concat(before, pkt);
                assert(src@.subrange(0, i as int) =~= src@.subrange(0, start as int)
                    + src@.subrange(start as int, start + lit));
                owed = broke || lit < 128;
                if lit == 128 {
                    assert(i / 128 == start / 128 + 1);
                }
            }
        }
    }
    assert(out@.len() <= n + n / 128 + 1);
    assert(src@.subrange(0, n as int) =~= src@);
    out
}


// ---- rows ------------------------------------------------------------------

/// Pixel `x` of a row of `w` indices, 0 past the end.
pub open spec fn index_or0(idx: Seq<u8>, w: int, x: int) -> int {
    if 0 <= x < w { idx[x] as int } else { 0 }
}

/// Bit `x` of a 1-bit row: set for a non-zero index.
pub open spec fn bit_or0(idx: Seq<u8>, w: int, x: int) -> int {
    if 0 <= x < w && idx[x] != 0 { 1 } else { 0 }
}

/// The first `j` bits of byte `k` of a 1-bit row, MSB-first, as a number.
pub open spec fn bits_prefix(idx: Seq<u8>, w: int, k: int, j: int) -> int
    decreases j,
{
    if j <= 0 { 0 } else { bits_prefix(idx, w, k, j - 1) * 2 + bit_or0(idx, w, 8 * k + j - 1) }
}

/// Byte `k` of a packed row at `bits` per pixel (MSB-first within a byte).
pub open spec fn row_byte(idx: Seq<u8>, w: int, bits: int, k: int) -> u8 {
    if bits == 8 {
        index_or0(idx, w, k) as u8
    } else if bits == 4 {
        ((index_or0(idx, w, 2 * k) % 16) * 16 + index_or0(idx, w, 2 * k + 1) % 16) as u8
    } else {
        bits_prefix(idx, w, k, 8) as u8
    }
}

/// A row of `w` palette indices packed into `rowbytes` bytes at `bits` per
/// pixel; the bytes past the last pixel are zero.
pub open spec fn packed_row(idx: Seq<u8>, w: int, bits: int, rowbytes: int) -> Seq<u8> {
    Seq::new(rowbytes as nat, |k: int| row_byte(idx, w, bits, k))
}

/// `2^j`.
pub open spec fn pw2(j: int) -> int
    decreases j,
{
    if j <= 0 { 1 } else { 2 * pw2(j - 1) }
}

proof fn lemma_bits_prefix_bound(idx: Seq<u8>, w: int, k: int, j: int)
    requires
        0 <= j <= 7,
    ensures
        0 <= bits_prefix(idx, w, k, j) < pw2(j),
        pw2(j) <= 128,
    decreases j,
{
    reveal_with_fuel(pw2, 8);
    if j > 0 {
        lemma_bits_prefix_bound(idx, w, k, j - 1);
    }
}

/// Pack a row of palette indices into `rowbytes` bytes at `bits` per pixel
/// (MSB-first within each byte).
pub fn pack_row(indices: &[u8], w: usize, bits: u16, rowbytes: usize) -> (row: Vec<u8>)
    requires
        bits == 1 || bits == 4 || bits == 8,
        w <= indices@.len(),
        w * bits <= rowbytes * 8,
    ensures
        row@ == packed_row(indices@, w as int, bits as int, rowbytes as int),
{
    let mut row: Vec<u8> = Vec::new();
    let mut k: usize = 0;
    while k < rowbytes
        invariant
            k <= rowbytes,
            w <= indices@.len(),
            bits == 1 || bits == 4 || bits == 8,
            row@.len() == k,
            forall|j: int| 0 <= j < k ==> row@[j] == row_byte(indices@, w as int, bits as int, j),
        decreases rowbytes - k,
    {
        let byte: u8 = if bits == 8 {
            if k < w { indices[k] } else { 0 }
        } else if bits == 4 {
            let hi: u8 = if k < w / 2 || (k == w / 2 && w % 2 == 1) { indices[2 * k] % 16 } else { 0 };
            let lo: u8 = if k < w / 2 { indices[2 * k + 1] % 16 } else { 0 };
            assert(hi == index_or0(indices@, w as int, 2 * k) % 16);
            assert(lo == index_or0(indices@, w as int, 2 * k + 1) % 16);
            hi * 16 + lo
        } else {
            let mut acc: u8 = 0;
            let mut j: usize = 0;
            while j < 8
                invariant
                    j <= 8,
                    w <= indices@.len(),
                    acc as int == bits_prefix(indices@, w as int, k as int, j as int),
                decreases 8 - j,
            {
                proof {
                    lemma_bits_prefix_bound(indices@, w as int, k as int, j as int);
                }
                let inside = k < w / 8 || (k == w / 8 && j < w % 8);
                let bit: u8 = if inside && indices[8 * k + j] != 0 { 1 } else { 0 };
                assert(bit == bit_or0(indices@, w as int, 8 * k + j));
                acc = acc * 2 + bit;
                j = j + 1;
            }
            acc
        };
        row.push(byte);
        k = k + 1;
    }
    assert(row@ =~= packed_row(indices@, w as int, bits as int, rowbytes as int));
    row
}

// ---- the raw 1-bit sidecar -------------------------------------------------

/// Length of the `.raw` sidecar header.
pub const RAW1_HEADER_LEN: usize = 12;

/// The `.raw` sidecar: magic `AB`, version 1, width, height, rowBytes,
/// depth 1 (all big-endian 16-bit), then the pixel rows.
pub open spec fn raw1_bytes(w: u16, h: u16, rowbytes: u16, pixels: Seq<u8>) -> Seq<u8> {
    seq![0x41u8, 0x42u8] + be16_bytes(1) + be16_bytes(w as int) + be16_bytes(h as int)
        + be16_bytes(rowbytes as int) + be16_bytes(1) + pixels
}

/// Wrap already-packed 1-bit pixel rows (MSB-first, `rowbytes` per row) in
/// the `.raw` sidecar header.
pub fn raw1_wrap(w: u16, h: u16, rowbytes: u16, pixels: &[u8]) -> (out: Vec<u8>)
    ensures
        out@ == raw1_bytes(w, h, rowbytes, pixels@),
{
    let mut out: Vec<u8> = Vec::new();
    out.push(0x41);
    out.push(0x42);
    push_be16(&mut out, 1);
    push_be16(&mut out, w);
    push_be16(&mut out, h);
    push_be16(&mut out, rowbytes);
    push_be16(&mut out, 1);
    push_all(&mut out, pixels);
    assert(out@ =~= raw1_bytes(w, h, rowbytes, pixels@));
    out
}


// ---- quantisation ----------------------------------------------------------

/// The 4×4 ordered-dither (Bayer) matrix.
pub open spec fn bayer(y: int, x: int) -> int {
    seq![
        seq![0int, 8, 2, 10],
        seq![12int, 4, 14, 6],
        seq![3int, 11, 1, 9],
        seq![15int, 7, 13, 5],
    ][y][x]
}

fn bayer_at(y: usize, x: usize) -> (v: u32)
    requires
        y < 4,
        x < 4,
    ensures
        v == bayer(y as int, x as int),
{
    let row: [u32; 4] = if y == 0 {
        [0, 8, 2, 10]
    } else if y == 1 {
        [12, 4, 14, 6]
    } else if y == 2 {
        [3, 11, 1, 9]
    } else {
        [15, 7, 13, 5]
    };
    row[x]
}

/// The colour of pixel `i` of an RGBA buffer.
pub open spec fn rgb_at(rgba: Seq<u8>, i: int) -> (u8, u8, u8) {
    (rgba[4 * i], rgba[4 * i + 1], rgba[4 * i + 2])
}

/// The 1-bit index of pixel `(x, y)`: white (0) when its brightness beats the
/// dither threshold `16 * bayer + 8`, else black (1).
pub open spec fn mono_index(rgba: Seq<u8>, w: int, x: int, y: int) -> u8 {
    let c = rgb_at(rgba, y * w + x);
    if luma_of(c.0, c.1, c.2) > bayer(y % 4, x % 4) * 16 + 8 { 0 } else { 1 }
}

/// The 1-bit indices of a `w`×`h` image, row by row.
pub open spec fn mono_indices(rgba: Seq<u8>, w: int, h: int) -> Seq<u8> {
    Seq::new((w * h) as nat, |i: int| mono_index(rgba, w, i % w, i / w))
}

/// The black-and-white palette of 1-bit pictures: index 0 white, 1 black.
pub open spec fn mono_palette() -> Seq<(u8, u8, u8)> {
    seq![(255u8, 255u8, 255u8), (0u8, 0u8, 0u8)]
}

/// The index of the first palette entry nearest to `(r, g, b)`.
pub open spec fn first_nearest(pal: Seq<(u8, u8, u8)>, r: u8, g: u8, b: u8) -> int {
    choose|i: int| is_first_nearest(pal, r, g, b, i)
}

proof fn lemma_first_nearest_unique(pal: Seq<(u8, u8, u8)>, r: u8, g: u8, b: u8, i: int)
    requires
        is_first_nearest(pal, r, g, b, i),
    ensures
        first_nearest(pal, r, g, b) == i,
{
    let j = first_nearest(pal, r, g, b);
    assert(is_first_nearest(pal, r, g, b, j));
    if j < i {
        assert(dist2(pal[i], r, g, b) < dist2(pal[j], r, g, b));
    } else if i < j {
        assert(dist2(pal[j], r, g, b) < dist2(pal[i], r, g, b));
    }
}

/// For each of the first `n` pixels, the index (as a byte) of the first
/// nearest palette colour.
pub open spec fn nearest_indices(rgba: Seq<u8>, n: int, pal: Seq<(u8, u8, u8)>) -> Seq<u8> {
    Seq::new(n as nat, |i: int| {
        let c = rgb_at(rgba, i);
        (first_nearest(pal, c.0, c.1, c.2) % 256) as u8
    })
}

fn nearest_index(palette: &[(u8, u8, u8)], r: u8, g: u8, b: u8) -> (k: u8)
    requires
        palette@.len() > 0,
    ensures
        k == (first_nearest(palette@, r, g, b) % 256) as u8,
{
    let k = nearest(palette, r, g, b);
    proof {
        let i = choose|i: int| is_first_nearest(palette@, r, g, b, i) && k == i % 256;
        lemma_first_nearest_unique(palette@, r, g, b, i);
    }
    k
}

/// Map every pixel to its nearest palette entry; returns the indices and the
/// palette.
pub fn map_to_palette(rgba: &[u8], w: usize, h: usize, palette: &[(u8, u8, u8)]) -> (r: (
    Vec<u8>,
    Vec<(u8, u8, u8)>,
))
    requires
        palette@.len() > 0,
        w * h * 4 <= rgba@.len(),
    ensures
        r.0@ == nearest_indices(rgba@, w * h, palette@),
        r.1@ == palette@,
{
    let rl = rgba.len();
    assert(w * h <= rl) by (nonlinear_arith) requires w * h * 4 <= rl;
    let n = w * h;
    let mut idx: Vec<u8> = Vec::new();
    let mut i: usize = 0;
    while i < n
        invariant
            n == w * h,
            n * 4 <= rgba@.len(),
            rl == rgba@.len(),
            palette@.len() > 0,
            i <= n,
            idx@.len() == i,
            forall|j: int| 0 <= j < i ==> idx@[j] == nearest_indices(rgba@, n as int, palette@)[j],
        decreases n - i,
    {
        let o = i * 4;
        let k = nearest_index(palette, rgba[o], rgba[o + 1], rgba[o + 2]);
        idx.push(k);
        i = i + 1;
    }
    assert(idx@ =~= nearest_indices(rgba@, w * h, palette@));
    let mut pal: Vec<(u8, u8, u8)> = Vec::new();
    let mut j: usize = 0;
    while j < palette.len()
        invariant
            j <= palette@.len(),
            pal@ == palette@.subrange(0, j as int),
        decreases palette@.len() - j,
    {
        pal.push(palette[j]);
        j = j + 1;
        assert(pal@ =~= palette@.subrange(0, j as int));
    }
    assert(pal@ =~= palette@);
    (idx, pal)
}

/// The sampling stride: one pixel in `max(n / 16384, 1)`.
pub open spec fn sample_step(n: int) -> int {
    if n / 16384 > 1 { n / 16384 } else { 1 }
}

/// Every `sample_step(n)`-th colour of the first `n` pixels.
pub open spec fn sample_of(rgba: Seq<u8>, n: int) -> Seq<[u8; 3]> {
    let st = sample_step(n);
    Seq::new(((n + st - 1) / st) as nat, |k: int| [rgba[4 * (k * st)], rgba[4 * (k * st) + 1], rgba[4 * (k * st) + 2]])
}

/// Sample up to about 16k colours from an RGBA buffer, for palette building.
pub fn sample_rgb(rgba: &[u8], n_px: usize) -> (v: Vec<[u8; 3]>)
    requires
        n_px * 4 <= rgba@.len(),
    ensures
        v@ == sample_of(rgba@, n_px as int),
{
    let step: usize = if n_px / 16384 > 1 { n_px / 16384 } else { 1 };
    let mut v: Vec<[u8; 3]> = Vec::new();
    let mut i: usize = 0;
    let ghost total: int = (n_px as int + step as int - 1) / step as int;
    let rl = rgba.len();
    while i < n_px
        invariant
            rl == rgba@.len(),
            step as int == sample_step(n_px as int),
            step >= 1,
            step <= n_px || n_px == 0 || step == 1,
            n_px * 4 <= rgba@.len(),
            i as int == v@.len() * step,
            i <= n_px + step - 1,
            total == (n_px as int + step as int - 1) / step as int,
            forall|k: int| 0 <= k < v@.len() ==> (#[trigger] v@[k]) == sample_of(rgba@, n_px as int)[k],
        decreases n_px + step - i,
    {
        let o = i * 4;
        let ghost k = v@.len() as int;
        assert(k < total) by (nonlinear_arith)
            requires i as int == k * step, i < n_px, step >= 1, total == (n_px as int + step as int - 1) / step as int;
        v.push([rgba[o], rgba[o + 1], rgba[o + 2]]);
        assert(i + step == (k + 1) * step) by (nonlinear_arith) requires i as int == k * step;
        i = i + step;
    }
    assert(v@.len() == total) by (nonlinear_arith)
        requires
            i as int == v@.len() * step,
            i >= n_px,
            i <= n_px + step - 1,
            step >= 1,
            total == (n_px as int + step as int - 1) / step as int;
    assert(v@ =~= sample_of(rgba@, n_px as int));
    v
}


// ---- median cut -------------------------------------------------------------

/// The smallest value of channel `c` over `x` (255 for no colours).
pub open spec fn chan_min(x: Seq<[u8; 3]>, c: int) -> int
    decreases x.len(),
{
    if x.len() == 0 {
        255
    } else {
        let m = chan_min(x.drop_last(), c);
        if (x.last()[c] as int) < m { x.last()[c] as int } else { m }
    }
}

/// The largest value of channel `c` over `x` (0 for no colours).
pub open spec fn chan_max(x: Seq<[u8; 3]>, c: int) -> int
    decreases x.len(),
{
    if x.len() == 0 {
        0
    } else {
        let m = chan_max(x.drop_last(), c);
        if (x.last()[c] as int) > m { x.last()[c] as int } else { m }
    }
}

/// The spread of channel `c` over `x`.
pub open spec fn chan_range(x: Seq<[u8; 3]>, c: int) -> int {
    chan_max(x, c) - chan_min(x, c)
}

/// The sum of channel `c` over `x`.
pub open spec fn chan_sum(x: Seq<[u8; 3]>, c: int) -> int
    decreases x.len(),
{
    if x.len() == 0 { 0 } else { chan_sum(x.drop_last(), c) + x.last()[c] as int }
}

/// The rounded-down average colour of `x`; black for no colours.
pub open spec fn box_avg(x: Seq<[u8; 3]>) -> (u8, u8, u8) {
    if x.len() == 0 {
        (0, 0, 0)
    } else {
        (
            (chan_sum(x, 0) / x.len() as int) as u8,
            (chan_sum(x, 1) / x.len() as int) as u8,
            (chan_sum(x, 2) / x.len() as int) as u8,
        )
    }
}

/// The colours of `x` whose channel `c` is `v`, in their order.
pub open spec fn with_key(x: Seq<[u8; 3]>, c: int, v: int) -> Seq<[u8; 3]>
    decreases x.len(),
{
    if x.len() == 0 {
        Seq::empty()
    } else {
        let r = with_key(x.drop_last(), c, v);
        if x.last()[c] as int == v { r.push(x.last()) } else { r }
    }
}

/// The colours of `x` whose channel `c` is below `v`, by value, equal values
/// in their order.
pub open spec fn buckets(x: Seq<[u8; 3]>, c: int, v: int) -> Seq<[u8; 3]>
    decreases v,
{
    if v <= 0 { Seq::empty() } else { buckets(x, c, v - 1) + with_key(x, c, v - 1) }
}

/// `x` stably sorted by channel `c`.
pub open spec fn sorted_by_chan(x: Seq<[u8; 3]>, c: int) -> Seq<[u8; 3]> {
    buckets(x, c, 256)
}

/// `px` with `px[s..e]` stably sorted by channel `c`.
pub open spec fn sort_range(px: Seq<[u8; 3]>, s: int, e: int, c: int) -> Seq<[u8; 3]> {
    px.take(s) + sorted_by_chan(px.subrange(s, e), c) + px.skip(e)
}

/// Keep the running best `(box, channel)` and its range unless `r` is wider.
pub open spec fn wider(acc: (Option<(int, int)>, int), b: int, c: int, r: int) -> (Option<(int, int)>, int) {
    if r > acc.1 { (Some((b, c)), r) } else { acc }
}

/// The running best after looking at channels `0..c` of box `b`, holding `x`.
pub open spec fn scan_chans(acc: (Option<(int, int)>, int), x: Seq<[u8; 3]>, b: int, c: int) -> (Option<(int, int)>, int)
    decreases c,
{
    if c <= 0 { acc } else { wider(scan_chans(acc, x, b, c - 1), b, c - 1, chan_range(x, c - 1)) }
}

/// The box (and channel) to split among the first `k` boxes: the first of
/// the widest channel ranges over boxes of at least two colours, if any range
/// is above zero; with that range.
pub open spec fn pick_upto(px: Seq<[u8; 3]>, bx: Seq<(int, int)>, k: int) -> (Option<(int, int)>, int)
    decreases k,
{
    if k <= 0 {
        (None, 0)
    } else {
        let acc = pick_upto(px, bx, k - 1);
        let (s, e) = bx[k - 1];
        if e - s < 2 { acc } else { scan_chans(acc, px.subrange(s, e), k - 1, 3) }
    }
}

/// Split boxes until there are `n` or none can be split: the colours (sorted
/// within split boxes) and the boxes as ranges of them.
pub open spec fn cut(px: Seq<[u8; 3]>, bx: Seq<(int, int)>, n: int) -> (Seq<[u8; 3]>, Seq<(int, int)>)
    decreases n - bx.len(),
{
    if bx.len() < n {
        match pick_upto(px, bx, bx.len() as int).0 {
            Some((b, c)) => if 0 <= b < bx.len() {
                let s = bx[b].0;
                let e = bx[b].1;
                let mid = s + (e - s) / 2;
                cut(sort_range(px, s, e, c), bx.update(b, (s, mid)).push((mid, e)), n)
            } else {
                (px, bx)
            },
            None => (px, bx),
        }
    } else {
        (px, bx)
    }
}

/// The average colour of each box.
pub open spec fn box_avgs(px: Seq<[u8; 3]>, bx: Seq<(int, int)>) -> Seq<(u8, u8, u8)> {
    Seq::new(bx.len(), |k: int| box_avg(px.subrange(bx[k].0, bx[k].1)))
}

/// The colours of `s`, each once, in the order they first appear.
pub open spec fn distinct_colors(s: Seq<(u8, u8, u8)>) -> Seq<(u8, u8, u8)>
    decreases s.len(),
{
    if s.len() == 0 {
        s
    } else {
        let d = distinct_colors(s.drop_last());
        if d.contains(s.last()) { d } else { d.push(s.last()) }
    }
}

/// Keeping first occurrences shortens, keeps a non-empty list non-empty,
/// repeats nothing, and keeps every colour.
pub proof fn lemma_distinct_colors(s: Seq<(u8, u8, u8)>)
    ensures
        distinct_colors(s).len() <= s.len(),
        s.len() >= 1 ==> distinct_colors(s).len() >= 1,
        distinct_colors(s).no_duplicates(),
        forall|c: (u8, u8, u8)| s.contains(c) <==> #[trigger] distinct_colors(s).contains(c),
    decreases s.len(),
{
    if s.len() > 0 {
        let t = s.drop_last();
        lemma_distinct_colors(t);
        let d = distinct_colors(t);
        assert forall|c: (u8, u8, u8)| s.contains(c) <==> #[trigger] distinct_colors(s).contains(c) by {
            assert(s =~= t.push(s.last()));
            if d.contains(s.last()) {
                assert(distinct_colors(s) == d);
            } else {
                assert(distinct_colors(s) == d.push(s.last()));
                if d.push(s.last()).contains(c) && c != s.last() {
                    let i = choose|i: int| 0 <= i < d.push(s.last()).len() && d.push(s.last())[i] == c;
                    assert(d[i] == c);
                }
                if d.contains(c) {
                    let i = choose|i: int| 0 <= i < d.len() && d[i] == c;
                    assert(d.push(s.last())[i] == c);
                }
                assert(d.push(s.last())[d.len() as int] == s.last());
            }
            if t.contains(c) {
                let i = choose|i: int| 0 <= i < t.len() && t[i] == c;
                assert(s[i] == c);
            }
            if s.contains(c) && c != s.last() {
                let i = choose|i: int| 0 <= i < s.len() && s[i] == c;
                assert(t[i] == c);
            }
            assert(s[s.len() - 1] == s.last());
        }
    }
}

/// The median-cut palette of at most `n` colours for `px` (black alone for no
/// colours): the averages of the boxes, each colour once.
pub open spec fn median_cut_palette(px: Seq<[u8; 3]>, n: int) -> Seq<(u8, u8, u8)> {
    if px.len() == 0 {
        seq![(0u8, 0u8, 0u8)]
    } else {
        let r = cut(px, seq![(0int, px.len() as int)], n);
        distinct_colors(box_avgs(r.0, r.1))
    }
}

/// The colours of `pal`, each once, first occurrences kept.
fn dedup_palette(pal: Vec<(u8, u8, u8)>) -> (out: Vec<(u8, u8, u8)>)
    ensures
        out@ == distinct_colors(pal@),
{
    let mut out: Vec<(u8, u8, u8)> = Vec::new();
    let mut i: usize = 0;
    while i < pal.len()
        invariant
            i <= pal@.len(),
            out@ == distinct_colors(pal@.take(i as int)),
        decreases pal@.len() - i,
    {
        let c = pal[i];
        let mut seen = false;
        let mut j: usize = 0;
        while j < out.len()
            invariant
                j <= out@.len(),
                seen <==> exists|q: int| 0 <= q < j && out@[q] == c,
            decreases out@.len() - j,
        {
            if out[j].0 == c.0 && out[j].1 == c.1 && out[j].2 == c.2 {
                seen = true;
            }
            j = j + 1;
        }
        proof {
            assert(pal@.take(i + 1).drop_last() =~= pal@.take(i as int));
            assert(pal@.take(i + 1).last() == c);
            if out@.contains(c) {
                let q = choose|q: int| 0 <= q < out@.len() && out@[q] == c;
                assert(seen);
            }
        }
        if !seen {
            out.push(c);
        }
        i = i + 1;
    }
    assert(pal@.take(pal@.len() as int) =~= pal@);
    out
}

/// Boxes held as parallel start and end lists.
pub open spec fn boxes_of(starts: Seq<usize>, ends: Seq<usize>) -> Seq<(int, int)> {
    Seq::new(starts.len(), |k: int| (starts[k] as int, ends[k] as int))
}

/// The spread of channel `c` over `px[s..e]`.
fn channel_range(px: &Vec<[u8; 3]>, s: usize, e: usize, c: usize) -> (r: i32)
    requires
        s <= e <= px@.len(),
        c < 3,
    ensures
        r == chan_range(px@.subrange(s as int, e as int), c as int),
{
    let mut lo: u8 = 255;
    let mut hi: u8 = 0;
    let mut i = s;
    while i < e
        invariant
            s <= i <= e <= px@.len(),
            c < 3,
            lo as int == chan_min(px@.subrange(s as int, i as int), c as int),
            hi as int == chan_max(px@.subrange(s as int, i as int), c as int),
        decreases e - i,
    {
        let v = px[i][c];
        proof {
            assert(px@.subrange(s as int, i + 1).drop_last() =~= px@.subrange(s as int, i as int));
        }
        if v < lo {
            lo = v;
        }
        if v > hi {
            hi = v;
        }
        i = i + 1;
    }
    hi as i32 - lo as i32
}

proof fn lemma_with_key_push(y: Seq<[u8; 3]>, p: [u8; 3], c: int, v: int)
    ensures
        with_key(y.push(p), c, v) == if p[c] as int == v { with_key(y, c, v).push(p) } else { with_key(y, c, v) },
{
    assert(y.push(p).drop_last() =~= y);
}

proof fn lemma_buckets_push_len(y: Seq<[u8; 3]>, p: [u8; 3], c: int, v: int)
    ensures
        buckets(y.push(p), c, v).len() == buckets(y, c, v).len() + if 0 <= p[c] as int && (p[c] as int) < v { 1int } else { 0 },
    decreases v,
{
    if v > 0 {
        lemma_buckets_push_len(y, p, c, v - 1);
        lemma_with_key_push(y, p, c, v - 1);
    }
}

/// Stable sorting keeps every colour: the buckets of all 256 values hold them all.
proof fn lemma_sorted_len(x: Seq<[u8; 3]>, c: int)
    ensures
        sorted_by_chan(x, c).len() == x.len(),
    decreases x.len(),
{
    if x.len() == 0 {
        assert forall|v: int| buckets(x, c, v).len() == 0 by {
            lemma_buckets_empty(x, c, v);
        }
    } else {
        let y = x.drop_last();
        lemma_sorted_len(y, c);
        assert(y.push(x.last()) =~= x);
        lemma_buckets_push_len(y, x.last(), c, 256);
    }
}

proof fn lemma_buckets_empty(x: Seq<[u8; 3]>, c: int, v: int)
    requires
        x.len() == 0,
    ensures
        buckets(x, c, v).len() == 0,
    decreases v,
{
    if v > 0 {
        lemma_buckets_empty(x, c, v - 1);
    }
}

/// Stable sort of `px[s..e]` by channel `c`.
fn sort_range_by_channel(px: &mut Vec<[u8; 3]>, s: usize, e: usize, c: usize)
    requires
        s <= e <= old(px)@.len(),
        c < 3,
    ensures
        final(px)@ == sort_range(old(px)@, s as int, e as int, c as int),
{
    let ghost x = px@.subrange(s as int, e as int);
    let mut tmp: Vec<[u8; 3]> = Vec::new();
    let mut v: u16 = 0;
    while v < 256
        invariant
            v <= 256,
            s <= e <= px@.len(),
            c < 3,
            x == px@.subrange(s as int, e as int),
            tmp@ == buckets(x, c as int, v as int),
        decreases 256 - v,
    {
        let mut i = s;
        while i < e
            invariant
                s <= i <= e <= px@.len(),
                v < 256,
                c < 3,
                x == px@.subrange(s as int, e as int),
                tmp@ == buckets(x, c as int, v as int) + with_key(x.take(i - s), c as int, v as int),
            decreases e - i,
        {
            proof {
                assert(x.take(i - s + 1).drop_last() =~= x.take(i - s));
                assert(x.take(i - s + 1).last() == px@[i as int]);
            }
            if px[i][c] as u16 == v {
                tmp.push(px[i]);
            }
            i = i + 1;
        }
        proof {
            assert(x.take(e - s) =~= x);
        }
        v = v + 1;
    }
    proof {
        lemma_sorted_len(x, c as int);
    }
    let ghost before = px@;
    let mut j: usize = 0;
    while j < tmp.len()
        invariant
            j <= tmp@.len(),
            tmp@.len() == e - s,
            tmp@ == sorted_by_chan(x, c as int),
            s <= e <= before.len(),
            px@.len() == before.len(),
            x == before.subrange(s as int, e as int),
            forall|q: int| 0 <= q < s ==> px@[q] == before[q],
            forall|q: int| e <= q < before.len() ==> px@[q] == before[q],
            forall|q: int| s <= q < s + j ==> px@[q] == tmp@[q - s],
            forall|q: int| s + j <= q < e ==> px@[q] == before[q],
        decreases tmp@.len() - j,
    {
        px.set(s + j, tmp[j]);
        j = j + 1;
    }
    assert(px@ =~= sort_range(before, s as int, e as int, c as int));
}

/// The rounded-down average colour of `px[s..e]`.
fn box_average(px: &Vec<[u8; 3]>, s: usize, e: usize) -> (r: (u8, u8, u8))
    requires
        s <= e <= px@.len(),
    ensures
        r == box_avg(px@.subrange(s as int, e as int)),
{
    let cnt = (e - s) as u128;
    let mut r: u128 = 0;
    let mut g: u128 = 0;
    let mut b: u128 = 0;
    let mut i = s;
    while i < e
        invariant
            s <= i <= e <= px@.len(),
            r == chan_sum(px@.subrange(s as int, i as int), 0),
            g == chan_sum(px@.subrange(s as int, i as int), 1),
            b == chan_sum(px@.subrange(s as int, i as int), 2),
            r <= 255 * (i - s),
            g <= 255 * (i - s),
            b <= 255 * (i - s),
        decreases e - i,
    {
        proof {
            assert(px@.subrange(s as int, i + 1).drop_last() =~= px@.subrange(s as int, i as int));
        }
        r = r + px[i][0] as u128;
        g = g + px[i][1] as u128;
        b = b + px[i][2] as u128;
        i = i + 1;
    }
    if cnt == 0 {
        (0, 0, 0)
    } else {
        assert(r / cnt <= 255 && g / cnt <= 255 && b / cnt <= 255) by (nonlinear_arith)
            requires r <= 255 * cnt, g <= 255 * cnt, b <= 255 * cnt, cnt > 0;
        ((r / cnt) as u8, (g / cnt) as u8, (b / cnt) as u8)
    }
}

/// Median-cut colour quantisation: repeatedly split the colour box with the
/// widest channel at its median until there are `n` boxes, then average each
/// box. An empty input gives the single colour black.
#[verifier::rlimit(40)]
pub fn median_cut(px: Vec<[u8; 3]>, n: usize) -> (pal: Vec<(u8, u8, u8)>)
    ensures
        pal@ == median_cut_palette(px@, n as int),
        pal@.no_duplicates(),
        pal@.len() >= 1,
        n >= 1 ==> pal@.len() <= n,
{
    let ghost px0 = px@;
    let mut px = px;
    if px.len() == 0 {
        let mut one: Vec<(u8, u8, u8)> = Vec::new();
        one.push((0, 0, 0));
        assert(one@ =~= seq![(0u8, 0u8, 0u8)]);
        return one;
    }
    let len = px.len();
    let mut starts: Vec<usize> = Vec::new();
    let mut ends: Vec<usize> = Vec::new();
    starts.push(0);
    ends.push(len);
    let ghost fin = cut(px0, seq![(0int, len as int)], n as int);
    assert(boxes_of(starts@, ends@) =~= seq![(0int, len as int)]);
    let mut done = false;
    while starts.len() < n && !done
        invariant
            starts@.len() == ends@.len(),
            1 <= starts@.len(),
            n >= 1 ==> starts@.len() <= n,
            px@.len() == len,
            forall|k: int| 0 <= k < starts@.len() ==> #[trigger] starts@[k] <= ends@[k] && ends@[k] <= len,
            cut(px@, boxes_of(starts@, ends@), n as int) == fin,
            done ==> pick_upto(px@, boxes_of(starts@, ends@), starts@.len() as int).0 is None,
        decreases n - starts@.len() + if done { 0int } else { 1int },
    {
        let ghost bx = boxes_of(starts@, ends@);
        let mut best: Option<usize> = None;
        let mut best_range: i32 = 0;
        let mut best_chan: usize = 0;
        let mut bi: usize = 0;
        while bi < starts.len()
            invariant
                starts@.len() == ends@.len(),
                bx == boxes_of(starts@, ends@),
                bi <= starts@.len(),
                px@.len() == len,
                best_chan < 3,
                best matches Some(k) ==> k < starts@.len() && ends@[k as int] - starts@[k as int] >= 2,
                forall|k: int| 0 <= k < starts@.len() ==> #[trigger] starts@[k] <= ends@[k] && ends@[k] <= len,
                pick_upto(px@, bx, bi as int).1 == best_range,
                pick_upto(px@, bx, bi as int).0 == match best {
                    Some(k) => Some((k as int, best_chan as int)),
                    None => None::<(int, int)>,
                },
            decreases starts@.len() - bi,
        {
            let s = starts[bi];
            let e = ends[bi];
            let ghost x = px@.subrange(s as int, e as int);
            let ghost acc0 = pick_upto(px@, bx, bi as int);
            if e - s >= 2 {
                let mut c: usize = 0;
                while c < 3
                    invariant
                        c <= 3,
                        best_chan < 3,
                        s < e <= px@.len(),
                        e - s >= 2,
                        bi < starts@.len(),
                        starts@.len() == ends@.len(),
                        s == starts@[bi as int],
                        e == ends@[bi as int],
                        x == px@.subrange(s as int, e as int),
                        best matches Some(k) ==> k < starts@.len() && ends@[k as int] - starts@[k as int] >= 2,
                        scan_chans(acc0, x, bi as int, c as int).1 == best_range,
                        scan_chans(acc0, x, bi as int, c as int).0 == match best {
                            Some(k) => Some((k as int, best_chan as int)),
                            None => None::<(int, int)>,
                        },
                    decreases 3 - c,
                {
                    let r = channel_range(&px, s, e, c);
                    if r > best_range {
                        best_range = r;
                        best = Some(bi);
                        best_chan = c;
                    }
                    c = c + 1;
                }
            }
            bi = bi + 1;
        }
        match best {
            Some(bi) => {
                let s = starts[bi];
                let e = ends[bi];
                let c = best_chan;
                let ghost old_px = px@;
                let ghost st0 = starts@;
                let ghost en0 = ends@;
                proof {
                    lemma_sorted_len(old_px.subrange(s as int, e as int), c as int);
                }
                sort_range_by_channel(&mut px, s, e, c);
                let mid = s + (e - s) / 2;
                ends.set(bi, mid);
                starts.push(mid);
                ends.push(e);
                proof {
                    assert(bx[bi as int] == (s as int, e as int));
                    assert(boxes_of(starts@, ends@) =~= bx.update(bi as int, (s as int, mid as int)).push(
                        (mid as int, e as int),
                    ));
                    assert(cut(old_px, bx, n as int) == cut(px@, boxes_of(starts@, ends@), n as int));
                    assert forall|k: int| 0 <= k < starts@.len() implies #[trigger] starts@[k] <= ends@[k]
                        && ends@[k] <= len by {
                        if k < st0.len() && k != bi {
                            assert(starts@[k] == st0[k] && ends@[k] == en0[k]);
                            assert(st0[k] <= en0[k] && en0[k] <= len);
                        } else if k == bi {
                            assert(starts@[k] == s && ends@[k] == mid);
                        } else {
                            assert(k == st0.len());
                            assert(starts@[k] == mid && ends@[k] == e);
                        }
                    }
                }
            },
            None => {
                done = true;
            },
        }
        assert(forall|k: int| 0 <= k < starts@.len() ==> #[trigger] starts@[k] <= ends@[k] && ends@[k] <= len);
    }
    let mut pal: Vec<(u8, u8, u8)> = Vec::new();
    let mut k: usize = 0;
    while k < starts.len()
        invariant
            starts@.len() == ends@.len(),
            k <= starts@.len(),
            px@.len() == len,
            forall|j: int| 0 <= j < starts@.len() ==> #[trigger] starts@[j] <= ends@[j] && ends@[j] <= len,
            forall|j: int| 0 <= j < k ==> pal@[j] == box_avg(px@.subrange(starts@[j] as int, ends@[j] as int)),
            pal@.len() == k,
        decreases starts@.len() - k,
    {
        pal.push(box_average(&px, starts[k], ends[k]));
        k = k + 1;
    }
    proof {
        assert(cut(px@, boxes_of(starts@, ends@), n as int) == (px@, boxes_of(starts@, ends@)));
        assert(pal@ =~= box_avgs(px@, boxes_of(starts@, ends@)));
        lemma_distinct_colors(pal@);
    }
    dedup_palette(pal)
}

/// `idx` and `pal` are what quantising a `w`×`h` RGBA image to `depth` gives:
/// for 1-bit, the dithered black-and-white indices; for 4- and 8-bit, a
/// median-cut palette of at most 16 / 256 colours built from a sample of the
/// image, and each pixel's nearest palette entry.
pub open spec fn quantized(rgba: Seq<u8>, w: int, h: int, depth: Depth, idx: Seq<u8>, pal: Seq<(u8, u8, u8)>) -> bool {
    if depth is One {
        idx == mono_indices(rgba, w, h) && pal == mono_palette()
    } else {
        let n: int = if depth is Four { 16 } else { 256 };
        &&& pal == median_cut_palette(sample_of(rgba, w * h), n)
        &&& 1 <= pal.len() <= n
        &&& idx == nearest_indices(rgba, w * h, pal)
    }
}

/// Quantise an RGBA image to palette indices for an indexed depth.
pub fn quantize(rgba: &[u8], w: usize, h: usize, depth: Depth) -> (r: (Vec<u8>, Vec<(u8, u8, u8)>))
    requires
        depth.indexed(),
        w * h * 4 <= rgba@.len(),
    ensures
        quantized(rgba@, w as int, h as int, depth, r.0@, r.1@),
{
    let rl = rgba.len();
    assert(w * h <= rl) by (nonlinear_arith) requires w * h * 4 <= rl;
    let n = w * h;
    match depth {
        Depth::One => {
            let mut idx: Vec<u8> = Vec::new();
            let mut i: usize = 0;
            while i < n
                invariant
                    n == w * h,
                    n * 4 <= rgba@.len(),
                    rl == rgba@.len(),
                    i <= n,
                    idx@.len() == i,
                    forall|j: int| 0 <= j < i ==> idx@[j] == mono_indices(rgba@, w as int, h as int)[j],
                decreases n - i,
            {
                assert(w > 0) by (nonlinear_arith) requires i < n, n == w * h;
                let x = i % w;
                let y = i / w;
                assert(y * w + x == i) by (nonlinear_arith) requires x == i % w, y == i / w, w > 0;
                let o = i * 4;
                let l = luma(rgba[o], rgba[o + 1], rgba[o + 2]);
                let t = bayer_at(y % 4, x % 4) * 16 + 8;
                idx.push(if l > t { 0 } else { 1 });
                i = i + 1;
            }
            assert(idx@ =~= mono_indices(rgba@, w as int, h as int));
            let mut pal: Vec<(u8, u8, u8)> = Vec::new();
            pal.push((255, 255, 255));
            pal.push((0, 0, 0));
            assert(pal@ =~= mono_palette());
            (idx, pal)
        },
        _ => {
            let cap: usize = if depth == Depth::Four { 16 } else { 256 };
            let sample = sample_rgb(rgba, n);
            let pal = median_cut(sample, cap);
            map_to_palette(rgba, w, h, pal.as_slice())
        },
    }
}


// ---- picture assembly ------------------------------------------------------

/// The PixMap fields after the opcode: rowBytes with the PixMap flag, bounds,
/// pmVersion, packType, packSize, 72 dpi resolution, pixelType, pixelSize,
/// cmpCount, cmpSize, and three zero long words.
pub open spec fn pixmap_fields(rowbytes: u16, w: u16, h: u16, depth: Depth, pack_type: u16) -> Seq<u8> {
    be16_bytes((rowbytes | 0x8000u16) as int) + rect_bytes(0, 0, h, w) + be16_bytes(0)
        + be16_bytes(pack_type as int) + be32_bytes(0) + be32_bytes(0x0048_0000) + be32_bytes(0x0048_0000)
        + be16_bytes(if depth.indexed() { 0 } else { 16 }) + be16_bytes(depth.pixel_size_of() as int)
        + be16_bytes(depth.components_of().0 as int) + be16_bytes(depth.components_of().1 as int)
        + be32_bytes(0) + be32_bytes(0) + be32_bytes(0)
}

/// Append the PixMap fields.
pub fn write_pixmap_fields(out: &mut Vec<u8>, rowbytes: u16, w: u16, h: u16, depth: Depth, pack_type: u16)
    ensures
        final(out)@ == old(out)@ + pixmap_fields(rowbytes, w, h, depth, pack_type),
{
    let (cmp_count, cmp_size) = depth.components();
    push_be16(out, rowbytes | 0x8000);
    rect(out, 0, 0, h, w);
    push_be16(out, 0);
    push_be16(out, pack_type);
    push_be32(out, 0);
    push_be32(out, 0x0048_0000);
    push_be32(out, 0x0048_0000);
    push_be16(out, if depth.is_indexed() { 0 } else { 16 });
    push_be16(out, depth.pixel_size());
    push_be16(out, cmp_count);
    push_be16(out, cmp_size);
    push_be32(out, 0);
    push_be32(out, 0);
    push_be32(out, 0);
    assert(final(out)@ =~= old(out)@ + pixmap_fields(rowbytes, w, h, depth, pack_type));
}

/// One colour-table entry: the index, then each 8-bit component widened to
/// 16 bits by repeating it.
pub open spec fn ct_entry(pal: Seq<(u8, u8, u8)>, i: int) -> Seq<u8> {
    be16_bytes(i % 0x10000) + be16_bytes(pal[i].0 * 257) + be16_bytes(pal[i].1 * 257)
        + be16_bytes(pal[i].2 * 257)
}

/// The first `k` colour-table entries.
pub open spec fn ct_entries(pal: Seq<(u8, u8, u8)>, k: int) -> Seq<u8>
    decreases k,
{
    if k <= 0 { Seq::empty() } else { ct_entries(pal, k - 1) + ct_entry(pal, k - 1) }
}

/// A colour table: seed 0, flags 0, size - 1, then the entries.
pub open spec fn color_table(pal: Seq<(u8, u8, u8)>) -> Seq<u8> {
    be32_bytes(0) + be16_bytes(0) + be16_bytes((pal.len() - 1) % 0x10000) + ct_entries(pal, pal.len() as int)
}

/// Append a colour table for `palette`.
pub fn write_color_table(out: &mut Vec<u8>, palette: &[(u8, u8, u8)])
    requires
        palette@.len() >= 1,
    ensures
        final(out)@ == old(out)@ + color_table(palette@),
{
    push_be32(out, 0);
    push_be16(out, 0);
    push_be16(out, ((palette.len() - 1) % 0x10000) as u16);
    let ghost head = out@;
    let mut i: usize = 0;
    while i < palette.len()
        invariant
            i <= palette@.len(),
            out@ == head + ct_entries(palette@, i as int),
        decreases palette@.len() - i,
    {
        let (r, g, b) = palette[i];
        push_be16(out, (i % 0x10000) as u16);
        push_be16(out, r as u16 * 257);
        push_be16(out, g as u16 * 257);
        push_be16(out, b as u16 * 257);
        i = i + 1;
        assert(out@ =~= head + ct_entries(palette@, i as int));
    }
    assert(final(out)@ =~= old(out)@ + color_table(palette@));
}

/// Row bytes of an indexed PixMap: whole bytes for the row, padded to even
/// (classic QuickDraw hangs on odd rowBytes).
pub open spec fn indexed_rowbytes(w: int, bits: int) -> int {
    2 * (((w * bits + 7) / 8 + 1) / 2)
}

/// The packed bytes of row `y` of an indexed image.
pub open spec fn raw_row(idx: Seq<u8>, w: int, y: int, bits: int, rb: int) -> Seq<u8> {
    packed_row(idx.subrange(y * w, (y + 1) * w), w, bits, rb)
}

/// The first `y` packed rows, back to back.
pub open spec fn raw_rows(idx: Seq<u8>, w: int, y: int, bits: int, rb: int) -> Seq<u8>
    decreases y,
{
    if y <= 0 { Seq::empty() } else { raw_rows(idx, w, y - 1, bits, rb) + raw_row(idx, w, y - 1, bits, rb) }
}

/// The byte-count field written before a PackBits row: one byte, or a
/// big-endian word when rowBytes exceeds 250.
pub open spec fn count_field(len: int, rb: int) -> Seq<u8> {
    if rb > 250 { be16_bytes(len) } else { seq![len as u8] }
}

/// `data` holds `h` PackBits rows, each preceded by its byte count, that
/// decode to the packed rows of `idx`; `ends` gives where each row ends.
pub open spec fn packed_rows_ok(data: Seq<u8>, ends: Seq<int>, idx: Seq<u8>, w: int, h: int, bits: int, rb: int) -> bool {
    let cw: int = if rb > 250 { 2 } else { 1 };
    &&& ends.len() == h
    &&& (if h == 0 { data.len() == 0 } else { ends[h - 1] == data.len() })
    &&& forall|y: int| #![trigger ends[y]] 0 <= y < h ==> {
        let st = if y == 0 { 0 } else { ends[y - 1] };
        let len = ends[y] - st - cw;
        &&& 0 <= st && st + cw <= ends[y] <= data.len()
        &&& 0 <= len < 0x10000
        &&& (rb <= 250 ==> len < 256)
        &&& data.subrange(st, st + cw) == count_field(len, rb)
        &&& unpackbits(data.subrange(st + cw, ends[y])) == raw_row(idx, w, y, bits, rb)
    }
}

#[verifier::spinoff_prover]
#[verifier::rlimit(40)]
proof fn lemma_rows_push(data: Seq<u8>, ends: Seq<int>, idx: Seq<u8>, w: int, y: int, bits: int, rb: int, packed: Seq<u8>)
    requires
        0 <= y,
        packed_rows_ok(data, ends, idx, w, y, bits, rb),
        unpackbits(packed) == raw_row(idx, w, y, bits, rb),
        packed.len() < 0x10000,
        rb <= 250 ==> packed.len() < 256,
    ensures
        packed_rows_ok(
            data + count_field(packed.len() as int, rb) + packed,
            ends.push((data + count_field(packed.len() as int, rb) + packed).len() as int),
            idx, w, y + 1, bits, rb,
        ),
{
    let cw: int = if rb > 250 { 2 } else { 1 };
    let cf = count_field(packed.len() as int, rb);
    let nd = data + cf + packed;
    let ne = ends.push(nd.len() as int);
    let st = data.len() as int;
    assert(cf.len() == cw);
    assert(nd.subrange(st, st + cw) =~= cf);
    assert(nd.subrange(st + cw, nd.len() as int) =~= packed);
    assert forall|yy: int| #![trigger ne[yy]] 0 <= yy < y + 1 implies {
        let s0 = if yy == 0 { 0 } else { ne[yy - 1] };
        let len = ne[yy] - s0 - cw;
        &&& 0 <= s0 && s0 + cw <= ne[yy] <= nd.len()
        &&& 0 <= len < 0x10000
        &&& (rb <= 250 ==> len < 256)
        &&& nd.subrange(s0, s0 + cw) == count_field(len, rb)
        &&& unpackbits(nd.subrange(s0 + cw, ne[yy])) == raw_row(idx, w, yy, bits, rb)
    } by {
        let s0 = if yy == 0 { 0 } else { ne[yy - 1] };
        if yy < y {
            assert(ne[yy] == ends[yy]);
            if yy > 0 {
                assert(ne[yy - 1] == ends[yy - 1]);
            }
            assert(nd.subrange(s0, s0 + cw) =~= data.subrange(s0, s0 + cw));
            assert(nd.subrange(s0 + cw, ne[yy]) =~= data.subrange(s0 + cw, ends[yy]));
        } else {
            if y > 0 {
                assert(ne[yy - 1] == ends[y - 1]);
            }
        }
    }
}

/// The opcode and PixMap header of an indexed picture, up to its rows.
pub open spec fn indexed_head(w: u16, h: u16, depth: Depth, pack: bool, pal: Seq<(u8, u8, u8)>) -> Seq<u8> {
    let rb = indexed_rowbytes(w as int, depth.bits_of() as int);
    let do_pack = pack && rb >= 8;
    be16_bytes(0x0098) + pixmap_fields((rb % 0x10000) as u16, w, h, depth, if do_pack { 0 } else { 1 })
        + color_table(pal) + rect_bytes(0, 0, h, w) + rect_bytes(0, 0, h, w) + be16_bytes(0)
}

/// `pix` is the `PackBitsRect` opcode of a `w`×`h` indexed image `idx` with
/// palette `pal`: the header, then raw rows, or PackBits rows when packing
/// is on and rowBytes is at least 8.
pub open spec fn indexed_pixdata(pix: Seq<u8>, w: u16, h: u16, depth: Depth, pack: bool, idx: Seq<u8>, pal: Seq<(u8, u8, u8)>) -> bool {
    let bits = depth.bits_of() as int;
    let rb = indexed_rowbytes(w as int, bits);
    let do_pack = pack && rb >= 8;
    let head = indexed_head(w, h, depth, pack, pal);
    &&& head.len() <= pix.len()
    &&& pix.subrange(0, head.len() as int) == head
    &&& (if do_pack {
        exists|ends: Seq<int>| packed_rows_ok(pix.subrange(head.len() as int, pix.len() as int), ends, idx, w as int, h as int, bits, rb)
    } else {
        pix.subrange(head.len() as int, pix.len() as int) == raw_rows(idx, w as int, h as int, bits, rb)
    })
}

/// The `PackBitsRect` opcode of an indexed picture and the palette size.
#[verifier::spinoff_prover]
pub fn encode_indexed(w: u16, h: u16, rgba: &[u8], depth: Depth, pack: bool) -> (r: (Vec<u8>, usize))
    requires
        depth.indexed(),
        w <= 0x7FFF,
        h <= 0x7FFF,
        w * h * 4 <= rgba@.len(),
    ensures
        exists|idx: Seq<u8>, pal: Seq<(u8, u8, u8)>|
            quantized(rgba@, w as int, h as int, depth, idx, pal) && r.1 == pal.len()
                && indexed_pixdata(r.0@, w, h, depth, pack, idx, pal),
{
    let wi = w as usize;
    let hi = h as usize;
    let (idx, palette) = quantize(rgba, wi, hi, depth);
    proof {
        if depth is One {
            assert(palette@.len() == 2);
        }
    }
    let bits = depth.bits();
    assert(bits == 1 || bits == 4 || bits == 8);
    assert(wi * bits <= 0x7FFF * 8) by (nonlinear_arith) requires wi <= 0x7FFF, bits <= 8;
    let rb0 = (wi * bits as usize + 7) / 8 + 1;
    let rowbytes = rb0 - rb0 % 2;
    assert(rowbytes == indexed_rowbytes(w as int, bits as int));
    let do_pack = pack && rowbytes >= 8;
    let mut out: Vec<u8> = Vec::new();
    push_be16(&mut out, 0x0098);
    write_pixmap_fields(&mut out, (rowbytes % 0x10000) as u16, w, h, depth, if do_pack { 0 } else { 1 });
    write_color_table(&mut out, palette.as_slice());
    rect(&mut out, 0, 0, h, w);
    rect(&mut out, 0, 0, h, w);
    push_be16(&mut out, 0);
    let ghost head = out@;
    assert(head =~= indexed_head(w, h, depth, pack, palette@));
    assert(idx@.len() == wi * hi);
    let il = idx.len();
    let mut body: Vec<u8> = Vec::new();
    let ghost mut ends: Seq<int> = Seq::empty();
    let mut y: usize = 0;
    while y < hi
        invariant
            y <= hi,
            hi == h,
            wi == w,
            w <= 0x7FFF,
            idx@.len() == wi * hi,
            il == idx@.len(),
            bits == depth.bits_of(),
            bits == 1 || bits == 4 || bits == 8,
            rowbytes == indexed_rowbytes(w as int, bits as int),
            rowbytes <= 0x7FFF + 2,
            do_pack == (pack && rowbytes >= 8),
            !do_pack ==> body@ == raw_rows(idx@, wi as int, y as int, bits as int, rowbytes as int),
            do_pack ==> packed_rows_ok(body@, ends, idx@, wi as int, y as int, bits as int, rowbytes as int),
        decreases hi - y,
    {
        assert((y + 1) * wi <= wi * hi) by (nonlinear_arith) requires y < hi;
        assert(y * wi + wi == (y + 1) * wi) by (nonlinear_arith);
        let row_idx = vstd::slice::slice_subrange(idx.as_slice(), y * wi, (y + 1) * wi);
        assert(wi * bits as usize <= rowbytes * 8);
        let raw = pack_row(row_idx, wi, bits, rowbytes);
        assert(raw@ == raw_row(idx@, wi as int, y as int, bits as int, rowbytes as int)) by {
            assert(row_idx@ =~= idx@.subrange(y * wi, (y + 1) * wi));
        }
        let ghost before = body@;
        if !do_pack {
            push_all(&mut body, raw.as_slice());
        } else {
            let packed = packbits(raw.as_slice());
            let plen = packed.len();
            if rowbytes > 250 {
                push_be16(&mut body, plen as u16);
            } else {
                body.push(plen as u8);
            }
            push_all(&mut body, packed.as_slice());
            proof {
                assert(body@ =~= before + count_field(plen as int, rowbytes as int) + packed@);
                lemma_rows_push(before, ends, idx@, wi as int, y as int, bits as int, rowbytes as int, packed@);
                ends = ends.push(body@.len() as int);
            }
        }
        y = y + 1;
    }
    push_all(&mut out, body.as_slice());
    proof {
        assert(out@.subrange(0, head.len() as int) =~= head);
        assert(out@.subrange(head.len() as int, out@.len() as int) =~= body@);
        assert(indexed_pixdata(out@, w, h, depth, pack, idx@, palette@));
    }
    (out, palette.len())
}


/// The stored bytes of pixel `i` of a direct picture: `0, R, G, B` at 24-bit,
/// the 1-5-5-5 big-endian word at 16-bit.
pub open spec fn direct_pixel(rgba: Seq<u8>, i: int, depth: Depth) -> Seq<u8> {
    let c = rgb_at(rgba, i);
    if depth is TwentyFour {
        seq![0u8, c.0, c.1, c.2]
    } else {
        be16_bytes((c.0 / 8) * 1024 + (c.1 / 8) * 32 + c.2 / 8)
    }
}

/// The stored bytes of the first `k` pixels.
pub open spec fn direct_pixels(rgba: Seq<u8>, k: int, depth: Depth) -> Seq<u8>
    decreases k,
{
    if k <= 0 { Seq::empty() } else { direct_pixels(rgba, k - 1, depth) + direct_pixel(rgba, k - 1, depth) }
}

/// The `DirectBitsRect` opcode of a `w`×`h` direct picture: unpacked rows.
pub open spec fn direct_pixdata(rgba: Seq<u8>, w: u16, h: u16, depth: Depth) -> Seq<u8> {
    let bpp: int = if depth is TwentyFour { 4 } else { 2 };
    be16_bytes(0x009A) + be32_bytes(0xFF) + pixmap_fields(((w * bpp) % 0x10000) as u16, w, h, depth, 1)
        + rect_bytes(0, 0, h, w) + rect_bytes(0, 0, h, w) + be16_bytes(0)
        + direct_pixels(rgba, w * h, depth)
}

proof fn lemma_direct_pixels_at(rgba: Seq<u8>, k: int, depth: Depth, i: int)
    requires
        0 <= i < k,
    ensures
        direct_pixels(rgba, k, depth).len() == (if depth is TwentyFour { 4 * k } else { 2 * k }),
        direct_pixels(rgba, k, depth).subrange(
            (if depth is TwentyFour { 4 * i } else { 2 * i }),
            (if depth is TwentyFour { 4 * i + 4 } else { 2 * i + 2 }),
        ) == direct_pixel(rgba, i, depth),
    decreases k,
{
    lemma_direct_pixels_len(rgba, k - 1, depth);
    let b: int = if depth is TwentyFour { 4 } else { 2 };
    assert(direct_pixel(rgba, k - 1, depth).len() == b);
    if i < k - 1 {
        lemma_direct_pixels_at(rgba, k - 1, depth, i);
        assert(direct_pixels(rgba, k, depth).subrange(b * i, b * i + b) =~= direct_pixels(rgba, k - 1, depth).subrange(
            b * i,
            b * i + b,
        ));
    } else {
        assert(direct_pixels(rgba, k, depth).subrange(b * i, b * i + b) =~= direct_pixel(rgba, i, depth));
    }
}

proof fn lemma_direct_pixels_len(rgba: Seq<u8>, k: int, depth: Depth)
    requires
        0 <= k,
    ensures
        direct_pixels(rgba, k, depth).len() == (if depth is TwentyFour { 4 * k } else { 2 * k }),
    decreases k,
{
    if k > 0 {
        lemma_direct_pixels_len(rgba, k - 1, depth);
    }
}

/// In a "Thousands" (16-bit) picture, pixel `i`'s big-endian word (the
/// pixels close the picture data, one word each, row by row) keeps the top
/// five bits of its red in bits 10..14, of its green in bits 5..9 and of its
/// blue in bits 0..4, with bit 15 clear.
pub proof fn lemma_thousands_pixel_word(rgba: Seq<u8>, w: u16, h: u16, i: int)
    requires
        0 <= i < w * h,
    ensures
        ({
            let out = direct_pixdata(rgba, w, h, Depth::Sixteen);
            let at = out.len() - 2 * (w * h) + 2 * i;
            let word = be16_at(out, at);
            &&& 0 <= at
            &&& at + 2 <= out.len()
            &&& word < 0x8000
            &&& word / 1024 == rgba[4 * i] / 8
            &&& (word / 32) % 32 == rgba[4 * i + 1] / 8
            &&& word % 32 == rgba[4 * i + 2] / 8
        }),
{
    let n = w * h;
    let out = direct_pixdata(rgba, w, h, Depth::Sixteen);
    let px = direct_pixels(rgba, n, Depth::Sixteen);
    lemma_direct_pixels_at(rgba, n, Depth::Sixteen, i);
    let pre = out.subrange(0, out.len() - px.len());
    assert(out =~= pre + px);
    let at = out.len() - 2 * n + 2 * i;
    assert(out.subrange(at, at + 2) =~= px.subrange(2 * i, 2 * i + 2));
    let r5 = rgba[4 * i] as int / 8;
    let g5 = rgba[4 * i + 1] as int / 8;
    let b5 = rgba[4 * i + 2] as int / 8;
    let v = r5 * 1024 + g5 * 32 + b5;
    assert(0 <= r5 < 32 && 0 <= g5 < 32 && 0 <= b5 < 32);
    assert(0 <= v < 0x8000);
    crate::bytes::lemma_be16_roundtrip(v);
    assert(out[at] == be16_bytes(v)[0] && out[at + 1] == be16_bytes(v)[1]);
    assert(be16_at(out, at) == v);
    assert(v / 1024 == r5 && (v / 32) % 32 == g5 && v % 32 == b5) by (nonlinear_arith)
        requires
            v == r5 * 1024 + g5 * 32 + b5,
            0 <= r5 < 32,
            0 <= g5 < 32,
            0 <= b5 < 32,
    ;
}

/// In a "Millions" (24-bit) picture, pixel `i` is stored as the four bytes
/// `0, R, G, B` (the pixels close the picture data, row by row).
pub proof fn lemma_millions_pixel_bytes(rgba: Seq<u8>, w: u16, h: u16, i: int)
    requires
        0 <= i < w * h,
    ensures
        ({
            let out = direct_pixdata(rgba, w, h, Depth::TwentyFour);
            let at = out.len() - 4 * (w * h) + 4 * i;
            &&& 0 <= at
            &&& at + 4 <= out.len()
            &&& out[at] == 0
            &&& out[at + 1] == rgba[4 * i]
            &&& out[at + 2] == rgba[4 * i + 1]
            &&& out[at + 3] == rgba[4 * i + 2]
        }),
{
    let n = w * h;
    let out = direct_pixdata(rgba, w, h, Depth::TwentyFour);
    let px = direct_pixels(rgba, n, Depth::TwentyFour);
    lemma_direct_pixels_at(rgba, n, Depth::TwentyFour, i);
    let pre = out.subrange(0, out.len() - px.len());
    assert(out =~= pre + px);
    let at = out.len() - 4 * n + 4 * i;
    assert(out.subrange(at, at + 4) =~= px.subrange(4 * i, 4 * i + 4));
    assert(out[at] == px[4 * i] && out[at + 1] == px[4 * i + 1] && out[at + 2] == px[4 * i + 2] && out[at + 3] == px[4 * i + 3]);
}

/// Direct (true-colour) picture data: 16-bit 1-5-5-5 ("Thousands") or 24-bit
/// 8-8-8 in 32-bit pixels ("Millions"), unpacked rows.
pub fn encode_direct(w: u16, h: u16, rgba: &[u8], depth: Depth) -> (r: (Vec<u8>, usize))
    requires
        !depth.indexed(),
        w * h * 4 <= rgba@.len(),
    ensures
        r.0@ == direct_pixdata(rgba@, w, h, depth),
        r.1 == 0,
{
    let wi = w as usize;
    let hi = h as usize;
    let bytes_pp: usize = if depth == Depth::TwentyFour { 4 } else { 2 };
    let rowbytes = wi * bytes_pp;
    let mut out: Vec<u8> = Vec::new();
    push_be16(&mut out, 0x009A);
    push_be32(&mut out, 0x0000_00FF);
    write_pixmap_fields(&mut out, (rowbytes % 0x10000) as u16, w, h, depth, 1);
    rect(&mut out, 0, 0, h, w);
    rect(&mut out, 0, 0, h, w);
    push_be16(&mut out, 0);
    let ghost head = out@;
    let rl = rgba.len();
    let n = wi * hi;
    let mut i: usize = 0;
    while i < n
        invariant
            i <= n,
            n == w * h,
            n * 4 <= rgba@.len(),
            rl == rgba@.len(),
            out@ == head + direct_pixels(rgba@, i as int, depth),
        decreases n - i,
    {
        let o = i * 4;
        if depth == Depth::TwentyFour {
            out.push(0);
            out.push(rgba[o]);
            out.push(rgba[o + 1]);
            out.push(rgba[o + 2]);
        } else {
            let r5 = (rgba[o] / 8) as u16;
            let g5 = (rgba[o + 1] / 8) as u16;
            let b5 = (rgba[o + 2] / 8) as u16;
            push_be16(&mut out, r5 * 1024 + g5 * 32 + b5);
        }
        i = i + 1;
        assert(out@ =~= head + direct_pixels(rgba@, i as int, depth));
    }
    assert(out@ =~= direct_pixdata(rgba@, w, h, depth));
    (out, 0)
}

/// The opcodes of a PICT v2 before the pixel data: the frame, the version
/// and extended v2 header opcodes, and a full-frame clip region.
pub open spec fn pict_prefix(w: u16, h: u16) -> Seq<u8> {
    rect_bytes(0, 0, h, w) + be16_bytes(0x0011) + be16_bytes(0x02FF) + be16_bytes(0x0C00)
        + be16_bytes(0xFFFE) + be16_bytes(0) + be32_bytes(0x0048_0000) + be32_bytes(0x0048_0000)
        + rect_bytes(0, 0, h, w) + be32_bytes(0) + be16_bytes(0x0001) + be16_bytes(10)
        + rect_bytes(0, 0, h, w)
}

/// The picture data of a PICT v2 around the pixel opcode `pix`: picSize
/// (low word), the prefix opcodes, `pix`, a pad byte if the length so far is
/// odd, and `OpEndPic`.
pub open spec fn pict_data(w: u16, h: u16, pix: Seq<u8>) -> Seq<u8> {
    let head = pict_prefix(w, h) + pix;
    let body = (if head.len() % 2 == 1 { head.push(0) } else { head }) + be16_bytes(0x00FF);
    be16_bytes((2 + body.len() as int) % 0x10000) + body
}

proof fn lemma_pict_data_shape(w: u16, h: u16, pix: Seq<u8>)
    ensures
        pict_data(w, h, pix).len() % 2 == 0,
        pict_data(w, h, pix).len() >= 2,
        pict_data(w, h, pix)[pict_data(w, h, pix).len() - 2] == 0x00,
        pict_data(w, h, pix)[pict_data(w, h, pix).len() - 1] == 0xFF,
{
    let head = pict_prefix(w, h) + pix;
    let padded = if head.len() % 2 == 1 { head.push(0) } else { head };
    let body = padded + be16_bytes(0x00FF);
    let d = be16_bytes((2 + body.len() as int) % 0x10000) + body;
    assert(padded.len() % 2 == 0);
    assert(d.len() == 2 + padded.len() + 2);
    assert(d[d.len() - 2] == body[body.len() - 2]);
    assert(d[d.len() - 1] == body[body.len() - 1]);
}

fn push_pict_prefix(out: &mut Vec<u8>, w: u16, h: u16)
    ensures
        final(out)@ == old(out)@ + pict_prefix(w, h),
{
    rect(out, 0, 0, h, w);
    push_be16(out, 0x0011);
    push_be16(out, 0x02FF);
    push_be16(out, 0x0C00);
    push_be16(out, 0xFFFE);
    push_be16(out, 0);
    push_be32(out, 0x0048_0000);
    push_be32(out, 0x0048_0000);
    rect(out, 0, 0, h, w);
    push_be32(out, 0);
    push_be16(out, 0x0001);
    push_be16(out, 10);
    rect(out, 0, 0, h, w);
    assert(final(out)@ =~= old(out)@ + pict_prefix(w, h));
}

fn wrap_pict(w: u16, h: u16, pix: &Vec<u8>) -> (data: Vec<u8>)
    ensures
        data@ == pict_data(w, h, pix@),
{
    let mut body: Vec<u8> = Vec::new();
    push_pict_prefix(&mut body, w, h);
    push_all(&mut body, pix.as_slice());
    let ghost head = body@;
    if body.len() % 2 == 1 {
        body.push(0);
    }
    let ghost padded = body@;
    push_be16(&mut body, 0x00FF);
    let bl = body.len();
    let low = (bl % 0x10000) as u64;
    let total = (low + 2) % 0x10000;
    assert(total == (2 + bl as int) % 0x10000) by (nonlinear_arith) requires low == bl % 0x10000, total == (low + 2) % 0x10000;
    let mut data: Vec<u8> = Vec::new();
    push_be16(&mut data, total as u16);
    push_all(&mut data, body.as_slice());
    assert(data@ =~= pict_data(w, h, pix@));
    data
}

/// `pix` and `colors` are the pixel opcode and palette size of a `w`×`h`
/// RGBA image encoded at `depth`.
pub open spec fn encoded_pixdata(rgba: Seq<u8>, w: u16, h: u16, depth: Depth, pack: bool, pix: Seq<u8>, colors: int) -> bool {
    if depth.indexed() {
        exists|idx: Seq<u8>, pal: Seq<(u8, u8, u8)>|
            quantized(rgba, w as int, h as int, depth, idx, pal) && colors == pal.len()
                && indexed_pixdata(pix, w, h, depth, pack, idx, pal)
    } else {
        pix == direct_pixdata(rgba, w, h, depth) && colors == 0
    }
}

/// Build the PICT v2 picture data (no 512-byte file header) of a `w`×`h`
/// RGBA image, and the number of palette colours (0 for direct depths). The
/// data always has even length and ends with `OpEndPic`, so every opcode is
/// word-aligned.
pub fn build_pict(w: u16, h: u16, rgba: &[u8], depth: Depth, pack: bool) -> (r: (Vec<u8>, usize))
    requires
        w <= 0x7FFF,
        h <= 0x7FFF,
        w * h * 4 <= rgba@.len(),
    ensures
        exists|pix: Seq<u8>| encoded_pixdata(rgba@, w, h, depth, pack, pix, r.1 as int) && r.0@ == pict_data(w, h, pix),
        r.0@.len() % 2 == 0,
        r.0@.len() >= 2,
        r.0@[r.0@.len() - 2] == 0x00,
        r.0@[r.0@.len() - 1] == 0xFF,
{
    let (pixdata, colors) = if depth.is_indexed() {
        encode_indexed(w, h, rgba, depth, pack)
    } else {
        encode_direct(w, h, rgba, depth)
    };
    let data = wrap_pict(w, h, &pixdata);
    proof {
        lemma_pict_data_shape(w, h, pixdata@);
        assert(encoded_pixdata(rgba@, w, h, depth, pack, pixdata@, colors as int));
    }
    (data, colors)
}

/// The raw 1-bit sidecar of a `w`×`h` RGBA image (dithered to black and
/// white, rows padded to an even rowBytes), and that rowBytes.
pub open spec fn raw1_of(rgba: Seq<u8>, w: u16, h: u16) -> (Seq<u8>, int) {
    let rb = indexed_rowbytes(w as int, 1);
    (raw1_bytes(w, h, (rb % 0x10000) as u16, raw_rows(mono_indices(rgba, w as int, h as int), w as int, h as int, 1, rb)), rb)
}

/// Build the raw 1-bit bitmap sidecar of a `w`×`h` RGBA image.
pub fn build_raw1(w: u16, h: u16, rgba: &[u8]) -> (r: (Vec<u8>, usize))
    requires
        w * h * 4 <= rgba@.len(),
    ensures
        (r.0@, r.1 as int) == raw1_of(rgba@, w, h),
{
    let wi = w as usize;
    let hi = h as usize;
    let (idx, _palette) = quantize(rgba, wi, hi, Depth::One);
    let rb0 = (wi + 7) / 8 + 1;
    let rowbytes = rb0 - rb0 % 2;
    assert(rowbytes == indexed_rowbytes(w as int, 1));
    let il = idx.len();
    let mut pixels: Vec<u8> = Vec::new();
    let mut y: usize = 0;
    while y < hi
        invariant
            y <= hi,
            hi == h,
            wi == w,
            idx@.len() == wi * hi,
            idx@ == mono_indices(rgba@, w as int, h as int),
            il == idx@.len(),
            rowbytes == indexed_rowbytes(w as int, 1),
            pixels@ == raw_rows(idx@, wi as int, y as int, 1, rowbytes as int),
        decreases hi - y,
    {
        assert((y + 1) * wi <= wi * hi) by (nonlinear_arith) requires y < hi;
        assert(y * wi + wi == (y + 1) * wi) by (nonlinear_arith);
        let row_idx = vstd::slice::slice_subrange(idx.as_slice(), y * wi, (y + 1) * wi);
        let raw = pack_row(row_idx, wi, 1, rowbytes);
        assert(raw@ == raw_row(idx@, wi as int, y as int, 1, rowbytes as int)) by {
            assert(row_idx@ =~= idx@.subrange(y * wi, (y + 1) * wi));
        }
        push_all(&mut pixels, raw.as_slice());
        y = y + 1;
    }
    let out = raw1_wrap(w, h, (rowbytes % 0x10000) as u16, pixels.as_slice());
    (out, rowbytes)
}

} // verus!
