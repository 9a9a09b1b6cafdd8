//! Mac OS Roman text: the launcher draws catalog bytes straight through the
//! Chicago font, so catalog text is written as MacRoman. ASCII passes through
//! unchanged, the high half (0x80–0xFF) maps to its Unicode characters, and
//! anything outside the repertoire becomes `?`.

use crate::text::{chars_of, string_from};
use vstd::prelude::*;

verus! {

/// The Unicode character of Mac OS Roman byte `0x80 + i`.
pub open spec fn high_char(i: int) -> char {
    seq![
        '\u{00C4}', '\u{00C5}', '\u{00C7}', '\u{00C9}', '\u{00D1}', '\u{00D6}', '\u{00DC}', '\u{00E1}', '\u{00E0}', '\u{00E2}', '\u{00E4}', '\u{00E3}', '\u{00E5}', '\u{00E7}', '\u{00E9}', '\u{00E8}',
        '\u{00EA}', '\u{00EB}', '\u{00ED}', '\u{00EC}', '\u{00EE}', '\u{00EF}', '\u{00F1}', '\u{00F3}', '\u{00F2}', '\u{00F4}', '\u{00F6}', '\u{00F5}', '\u{00FA}', '\u{00F9}', '\u{00FB}', '\u{00FC}',
        '\u{2020}', '\u{00B0}', '\u{00A2}', '\u{00A3}', '\u{00A7}', '\u{2022}', '\u{00B6}', '\u{00DF}', '\u{00AE}', '\u{00A9}', '\u{2122}', '\u{00B4}', '\u{00A8}', '\u{2260}', '\u{00C6}', '\u{00D8}',
        '\u{221E}', '\u{00B1}', '\u{2264}', '\u{2265}', '\u{00A5}', '\u{00B5}', '\u{2202}', '\u{2211}', '\u{220F}', '\u{03C0}', '\u{222B}', '\u{00AA}', '\u{00BA}', '\u{03A9}', '\u{00E6}', '\u{00F8}',
        '\u{00BF}', '\u{00A1}', '\u{00AC}', '\u{221A}', '\u{0192}', '\u{2248}', '\u{2206}', '\u{00AB}', '\u{00BB}', '\u{2026}', '\u{00A0}', '\u{00C0}', '\u{00C3}', '\u{00D5}', '\u{0152}', '\u{0153}',
        '\u{2013}', '\u{2014}', '\u{201C}', '\u{201D}', '\u{2018}', '\u{2019}', '\u{00F7}', '\u{25CA}', '\u{00FF}', '\u{0178}', '\u{2044}', '\u{20AC}', '\u{2039}', '\u{203A}', '\u{FB01}', '\u{FB02}',
        '\u{2021}', '\u{00B7}', '\u{201A}', '\u{201E}', '\u{2030}', '\u{00C2}', '\u{00CA}', '\u{00C1}', '\u{00CB}', '\u{00C8}', '\u{00CD}', '\u{00CE}', '\u{00CF}', '\u{00CC}', '\u{00D3}', '\u{00D4}',
        '\u{F8FF}', '\u{00D2}', '\u{00DA}', '\u{00DB}', '\u{00D9}', '\u{0131}', '\u{02C6}', '\u{02DC}', '\u{00AF}', '\u{02D8}', '\u{02D9}', '\u{02DA}', '\u{00B8}', '\u{02DD}', '\u{02DB}', '\u{02C7}',
    ][i]
}

/// The Unicode character a Mac OS Roman byte stands for.
pub open spec fn decode_byte_spec(b: u8) -> char {
    if b < 0x80 { b as char } else { high_char(b - 0x80) }
}

/// The first index from `i` on of the high half that holds `c`.
pub open spec fn high_index_from(c: char, i: int) -> Option<int>
    decreases 128 - i,
{
    if i >= 128 || i < 0 {
        None
    } else if high_char(i) == c {
        Some(i)
    } else {
        high_index_from(c, i + 1)
    }
}

/// The first index of the high half that holds `c`.
pub open spec fn high_index(c: char) -> Option<int> {
    high_index_from(c, 0)
}

proof fn lemma_high_index_from(c: char, i: int)
    requires
        0 <= i,
    ensures
        high_index_from(c, i) matches Some(k) ==> i <= k < 128 && high_char(k) == c,
    decreases 128 - i,
{
    if i < 128 && high_char(i) != c {
        lemma_high_index_from(c, i + 1);
    }
}

/// The MacRoman byte of `c`, if it has one.
pub open spec fn encode_char_spec(c: char) -> Option<u8> {
    if (c as u32) < 0x80 {
        Some(c as u8)
    } else {
        match high_index(c) {
            Some(i) => Some((0x80 + i) as u8),
            None => None,
        }
    }
}

/// The MacRoman bytes of `s`, `?` for each character without one.
pub open spec fn encode_spec(s: Seq<char>) -> Seq<u8> {
    Seq::new(s.len(), |k: int| match encode_char_spec(s[k]) {
        Some(b) => b,
        None => 0x3Fu8,
    })
}

/// How many characters of `s` have no MacRoman byte.
pub open spec fn lossy_count(s: Seq<char>) -> int
    decreases s.len(),
{
    if s.len() == 0 {
        0
    } else {
        lossy_count(s.drop_last()) + if encode_char_spec(s.last()) is None { 1int } else { 0int }
    }
}

fn high_index_of(c: char) -> (r: Option<u8>)
    ensures
        match r {
            Some(i) => high_index(c) == Some(i as int) && i < 128,
            None => high_index(c) is None,
        },
{
    let table: [char; 128] = [
        '\u{00C4}', '\u{00C5}', '\u{00C7}', '\u{00C9}', '\u{00D1}', '\u{00D6}', '\u{00DC}', '\u{00E1}', '\u{00E0}', '\u{00E2}', '\u{00E4}', '\u{00E3}', '\u{00E5}', '\u{00E7}', '\u{00E9}', '\u{00E8}',
        '\u{00EA}', '\u{00EB}', '\u{00ED}', '\u{00EC}', '\u{00EE}', '\u{00EF}', '\u{00F1}', '\u{00F3}', '\u{00F2}', '\u{00F4}', '\u{00F6}', '\u{00F5}', '\u{00FA}', '\u{00F9}', '\u{00FB}', '\u{00FC}',
        '\u{2020}', '\u{00B0}', '\u{00A2}', '\u{00A3}', '\u{00A7}', '\u{2022}', '\u{00B6}', '\u{00DF}', '\u{00AE}', '\u{00A9}', '\u{2122}', '\u{00B4}', '\u{00A8}', '\u{2260}', '\u{00C6}', '\u{00D8}',
        '\u{221E}', '\u{00B1}', '\u{2264}', '\u{2265}', '\u{00A5}', '\u{00B5}', '\u{2202}', '\u{2211}', '\u{220F}', '\u{03C0}', '\u{222B}', '\u{00AA}', '\u{00BA}', '\u{03A9}', '\u{00E6}', '\u{00F8}',
        '\u{00BF}', '\u{00A1}', '\u{00AC}', '\u{221A}', '\u{0192}', '\u{2248}', '\u{2206}', '\u{00AB}', '\u{00BB}', '\u{2026}', '\u{00A0}', '\u{00C0}', '\u{00C3}', '\u{00D5}', '\u{0152}', '\u{0153}',
        '\u{2013}', '\u{2014}', '\u{201C}', '\u{201D}', '\u{2018}', '\u{2019}', '\u{00F7}', '\u{25CA}', '\u{00FF}', '\u{0178}', '\u{2044}', '\u{20AC}', '\u{2039}', '\u{203A}', '\u{FB01}', '\u{FB02}',
        '\u{2021}', '\u{00B7}', '\u{201A}', '\u{201E}', '\u{2030}', '\u{00C2}', '\u{00CA}', '\u{00C1}', '\u{00CB}', '\u{00C8}', '\u{00CD}', '\u{00CE}', '\u{00CF}', '\u{00CC}', '\u{00D3}', '\u{00D4}',
        '\u{F8FF}', '\u{00D2}', '\u{00DA}', '\u{00DB}', '\u{00D9}', '\u{0131}', '\u{02C6}', '\u{02DC}', '\u{00AF}', '\u{02D8}', '\u{02D9}', '\u{02DA}', '\u{00B8}', '\u{02DD}', '\u{02DB}', '\u{02C7}',
    ];
    assert(forall|i: int| 0 <= i < 128 ==> table@[i] == #[trigger] high_char(i)) by {
        assert(table@ =~= seq![
        '\u{00C4}', '\u{00C5}', '\u{00C7}', '\u{00C9}', '\u{00D1}', '\u{00D6}', '\u{00DC}', '\u{00E1}', '\u{00E0}', '\u{00E2}', '\u{00E4}', '\u{00E3}', '\u{00E5}', '\u{00E7}', '\u{00E9}', '\u{00E8}',
        '\u{00EA}', '\u{00EB}', '\u{00ED}', '\u{00EC}', '\u{00EE}', '\u{00EF}', '\u{00F1}', '\u{00F3}', '\u{00F2}', '\u{00F4}', '\u{00F6}', '\u{00F5}', '\u{00FA}', '\u{00F9}', '\u{00FB}', '\u{00FC}',
        '\u{2020}', '\u{00B0}', '\u{00A2}', '\u{00A3}', '\u{00A7}', '\u{2022}', '\u{00B6}', '\u{00DF}', '\u{00AE}', '\u{00A9}', '\u{2122}', '\u{00B4}', '\u{00A8}', '\u{2260}', '\u{00C6}', '\u{00D8}',
        '\u{221E}', '\u{00B1}', '\u{2264}', '\u{2265}', '\u{00A5}', '\u{00B5}', '\u{2202}', '\u{2211}', '\u{220F}', '\u{03C0}', '\u{222B}', '\u{00AA}', '\u{00BA}', '\u{03A9}', '\u{00E6}', '\u{00F8}',
        '\u{00BF}', '\u{00A1}', '\u{00AC}', '\u{221A}', '\u{0192}', '\u{2248}', '\u{2206}', '\u{00AB}', '\u{00BB}', '\u{2026}', '\u{00A0}', '\u{00C0}', '\u{00C3}', '\u{00D5}', '\u{0152}', '\u{0153}',
        '\u{2013}', '\u{2014}', '\u{201C}', '\u{201D}', '\u{2018}', '\u{2019}', '\u{00F7}', '\u{25CA}', '\u{00FF}', '\u{0178}', '\u{2044}', '\u{20AC}', '\u{2039}', '\u{203A}', '\u{FB01}', '\u{FB02}',
        '\u{2021}', '\u{00B7}', '\u{201A}', '\u{201E}', '\u{2030}', '\u{00C2}', '\u{00CA}', '\u{00C1}', '\u{00CB}', '\u{00C8}', '\u{00CD}', '\u{00CE}', '\u{00CF}', '\u{00CC}', '\u{00D3}', '\u{00D4}',
        '\u{F8FF}', '\u{00D2}', '\u{00DA}', '\u{00DB}', '\u{00D9}', '\u{0131}', '\u{02C6}', '\u{02DC}', '\u{00AF}', '\u{02D8}', '\u{02D9}', '\u{02DA}', '\u{00B8}', '\u{02DD}', '\u{02DB}', '\u{02C7}',
        ]);
    }
    let mut i: usize = 0;
    while i < 128
        invariant
            i <= 128,
            forall|k: int| 0 <= k < 128 ==> table@[k] == #[trigger] high_char(k),
            high_index(c) == high_index_from(c, i as int),
        decreases 128 - i,
    {
        if table[i] == c {
            return Some(i as u8);
        }
        i = i + 1;
    }
    None
}

/// Encode one `char` to its MacRoman byte, or `None` if not representable.
pub fn encode_char(c: char) -> (r: Option<u8>)
    ensures
        r == encode_char_spec(c),
{
    if (c as u32) < 0x80 {
        return Some(c as u8);
    }
    match high_index_of(c) {
        Some(i) => Some(0x80 + i),
        None => None,
    }
}

/// Transcode a string to MacRoman bytes, plus the count of characters that
/// had no MacRoman equivalent (emitted as `?`).
pub fn encode(s: &str) -> (r: (Vec<u8>, usize))
    ensures
        r.0@ == encode_spec(s@),
        r.1 == lossy_count(s@),
{
    let cs = chars_of(s);
    let mut out: Vec<u8> = Vec::new();
    let mut lossy: usize = 0;
    let mut i: usize = 0;
    while i < cs.len()
        invariant
            i <= cs@.len(),
            cs@ == s@,
            out@ == encode_spec(cs@.take(i as int)),
            lossy == lossy_count(cs@.take(i as int)),
            lossy <= i,
        decreases cs@.len() - i,
    {
        assert(cs@.take(i as int + 1).drop_last() =~= cs@.take(i as int));
        match encode_char(cs[i]) {
            Some(b) => out.push(b),
            None => {
                out.push(0x3F);
                lossy = lossy + 1;
            },
        }
        i = i + 1;
        assert(out@ =~= encode_spec(cs@.take(i as int)));
    }
    assert(cs@.take(cs@.len() as int) =~= cs@);
    (out, lossy)
}

/// The Unicode character of a MacRoman byte.
pub fn decode_byte(b: u8) -> (c: char)
    ensures
        c == decode_byte_spec(b),
{
    if b < 0x80 {
        b as char
    } else {
        let table: [char; 128] = [
        '\u{00C4}', '\u{00C5}', '\u{00C7}', '\u{00C9}', '\u{00D1}', '\u{00D6}', '\u{00DC}', '\u{00E1}', '\u{00E0}', '\u{00E2}', '\u{00E4}', '\u{00E3}', '\u{00E5}', '\u{00E7}', '\u{00E9}', '\u{00E8}',
        '\u{00EA}', '\u{00EB}', '\u{00ED}', '\u{00EC}', '\u{00EE}', '\u{00EF}', '\u{00F1}', '\u{00F3}', '\u{00F2}', '\u{00F4}', '\u{00F6}', '\u{00F5}', '\u{00FA}', '\u{00F9}', '\u{00FB}', '\u{00FC}',
        '\u{2020}', '\u{00B0}', '\u{00A2}', '\u{00A3}', '\u{00A7}', '\u{2022}', '\u{00B6}', '\u{00DF}', '\u{00AE}', '\u{00A9}', '\u{2122}', '\u{00B4}', '\u{00A8}', '\u{2260}', '\u{00C6}', '\u{00D8}',
        '\u{221E}', '\u{00B1}', '\u{2264}', '\u{2265}', '\u{00A5}', '\u{00B5}', '\u{2202}', '\u{2211}', '\u{220F}', '\u{03C0}', '\u{222B}', '\u{00AA}', '\u{00BA}', '\u{03A9}', '\u{00E6}', '\u{00F8}',
        '\u{00BF}', '\u{00A1}', '\u{00AC}', '\u{221A}', '\u{0192}', '\u{2248}', '\u{2206}', '\u{00AB}', '\u{00BB}', '\u{2026}', '\u{00A0}', '\u{00C0}', '\u{00C3}', '\u{00D5}', '\u{0152}', '\u{0153}',
        '\u{2013}', '\u{2014}', '\u{201C}', '\u{201D}', '\u{2018}', '\u{2019}', '\u{00F7}', '\u{25CA}', '\u{00FF}', '\u{0178}', '\u{2044}', '\u{20AC}', '\u{2039}', '\u{203A}', '\u{FB01}', '\u{FB02}',
        '\u{2021}', '\u{00B7}', '\u{201A}', '\u{201E}', '\u{2030}', '\u{00C2}', '\u{00CA}', '\u{00C1}', '\u{00CB}', '\u{00C8}', '\u{00CD}', '\u{00CE}', '\u{00CF}', '\u{00CC}', '\u{00D3}', '\u{00D4}',
        '\u{F8FF}', '\u{00D2}', '\u{00DA}', '\u{00DB}', '\u{00D9}', '\u{0131}', '\u{02C6}', '\u{02DC}', '\u{00AF}', '\u{02D8}', '\u{02D9}', '\u{02DA}', '\u{00B8}', '\u{02DD}', '\u{02DB}', '\u{02C7}',
        ];
        assert(table@ =~= seq![
        '\u{00C4}', '\u{00C5}', '\u{00C7}', '\u{00C9}', '\u{00D1}', '\u{00D6}', '\u{00DC}', '\u{00E1}', '\u{00E0}', '\u{00E2}', '\u{00E4}', '\u{00E3}', '\u{00E5}', '\u{00E7}', '\u{00E9}', '\u{00E8}',
        '\u{00EA}', '\u{00EB}', '\u{00ED}', '\u{00EC}', '\u{00EE}', '\u{00EF}', '\u{00F1}', '\u{00F3}', '\u{00F2}', '\u{00F4}', '\u{00F6}', '\u{00F5}', '\u{00FA}', '\u{00F9}', '\u{00FB}', '\u{00FC}',
        '\u{2020}', '\u{00B0}', '\u{00A2}', '\u{00A3}', '\u{00A7}', '\u{2022}', '\u{00B6}', '\u{00DF}', '\u{00AE}', '\u{00A9}', '\u{2122}', '\u{00B4}', '\u{00A8}', '\u{2260}', '\u{00C6}', '\u{00D8}',
        '\u{221E}', '\u{00B1}', '\u{2264}', '\u{2265}', '\u{00A5}', '\u{00B5}', '\u{2202}', '\u{2211}', '\u{220F}', '\u{03C0}', '\u{222B}', '\u{00AA}', '\u{00BA}', '\u{03A9}', '\u{00E6}', '\u{00F8}',
        '\u{00BF}', '\u{00A1}', '\u{00AC}', '\u{221A}', '\u{0192}', '\u{2248}', '\u{2206}', '\u{00AB}', '\u{00BB}', '\u{2026}', '\u{00A0}', '\u{00C0}', '\u{00C3}', '\u{00D5}', '\u{0152}', '\u{0153}',
        '\u{2013}', '\u{2014}', '\u{201C}', '\u{201D}', '\u{2018}', '\u{2019}', '\u{00F7}', '\u{25CA}', '\u{00FF}', '\u{0178}', '\u{2044}', '\u{20AC}', '\u{2039}', '\u{203A}', '\u{FB01}', '\u{FB02}',
        '\u{2021}', '\u{00B7}', '\u{201A}', '\u{201E}', '\u{2030}', '\u{00C2}', '\u{00CA}', '\u{00C1}', '\u{00CB}', '\u{00C8}', '\u{00CD}', '\u{00CE}', '\u{00CF}', '\u{00CC}', '\u{00D3}', '\u{00D4}',
        '\u{F8FF}', '\u{00D2}', '\u{00DA}', '\u{00DB}', '\u{00D9}', '\u{0131}', '\u{02C6}', '\u{02DC}', '\u{00AF}', '\u{02D8}', '\u{02D9}', '\u{02DA}', '\u{00B8}', '\u{02DD}', '\u{02DB}', '\u{02C7}',
        ]);
        table[(b - 0x80) as usize]
    }
}

/// Transcode MacRoman bytes to a string.
pub fn decode(b: &[u8]) -> (s: String)
    ensures
        s@ == Seq::new(b@.len(), |k: int| decode_byte_spec(b@[k])),
{
    let mut v: Vec<char> = Vec::new();
    let mut i: usize = 0;
    while i < b.len()
        invariant
            i <= b@.len(),
            v@ == Seq::new(i as nat, |k: int| decode_byte_spec(b@[k])),
        decreases b@.len() - i,
    {
        v.push(decode_byte(b[i]));
        i = i + 1;
        assert(v@ =~= Seq::new(i as nat, |k: int| decode_byte_spec(b@[k])));
    }
    string_from(v.as_slice())
}

/// Decoding what was encoded gives back every character that MacRoman has.
pub proof fn lemma_decode_encode_char(c: char)
    ensures
        encode_char_spec(c) matches Some(b) ==> decode_byte_spec(b) == c,
{
    if (c as u32) < 0x80 {
        assert(((c as u8) as char) == c);
    } else if let Some(i) = high_index(c) {
        lemma_high_index_from(c, 0);
        assert(0 <= i < 128 && high_char(i) == c);
        assert(((0x80 + i) as u8) >= 0x80);
        assert(((0x80 + i) as u8) - 0x80 == i);
    }
}

proof fn lemma_lossless_each(s: Seq<char>, k: int)
    requires
        lossy_count(s) == 0,
        0 <= k < s.len(),
    ensures
        encode_char_spec(s[k]) is Some,
    decreases s.len(),
{
    lemma_lossy_nonneg(s.drop_last());
    if k < s.len() - 1 {
        assert(s.drop_last()[k] == s[k]);
        lemma_lossless_each(s.drop_last(), k);
    }
}

proof fn lemma_lossy_nonneg(s: Seq<char>)
    ensures
        lossy_count(s) >= 0,
    decreases s.len(),
{
    if s.len() > 0 {
        lemma_lossy_nonneg(s.drop_last());
    }
}

/// Decoding the MacRoman bytes of a text that MacRoman can hold entirely
/// (nothing was lost) gives the text back.
pub proof fn lemma_decode_encode(s: Seq<char>)
    requires
        lossy_count(s) == 0,
    ensures
        Seq::new(encode_spec(s).len(), |k: int| decode_byte_spec(encode_spec(s)[k])) == s,
{
    assert forall|k: int| 0 <= k < s.len() implies decode_byte_spec(#[trigger] encode_spec(s)[k]) == s[k] by {
        lemma_lossless_each(s, k);
        lemma_decode_encode_char(s[k]);
    }
    assert(Seq::new(encode_spec(s).len(), |k: int| decode_byte_spec(encode_spec(s)[k])) =~= s);
}

} // verus!
