//! JSON string literals, as `serde_json` writes them.

use vstd::prelude::*;

verus! {

/// The two lowercase hex digits of a control character.
pub open spec fn hex_digit(v: int) -> char {
    if v < 10 { (v + 48) as char } else { (v - 10 + 97) as char }
}

/// One character inside a JSON string: `"` and `\` backslash-escaped, the
/// control characters with a short escape (`\b \t \n \f \r`) so written, the
/// other characters below 0x20 as `\u00XX` (lowercase hex), the rest as is.
pub open spec fn json_char(c: char) -> Seq<char> {
    if c == '"' {
        seq!['\\', '"']
    } else if c == '\\' {
        seq!['\\', '\\']
    } else if c == '\u{8}' {
        seq!['\\', 'b']
    } else if c == '\u{9}' {
        seq!['\\', 't']
    } else if c == '\u{A}' {
        seq!['\\', 'n']
    } else if c == '\u{C}' {
        seq!['\\', 'f']
    } else if c == '\u{D}' {
        seq!['\\', 'r']
    } else if (c as u32) < 0x20 {
        seq!['\\', 'u', '0', '0', hex_digit((c as u32) as int / 16), hex_digit((c as u32) as int % 16)]
    } else {
        seq![c]
    }
}

/// The escaped characters of `s`.
pub open spec fn json_body(s: Seq<char>) -> Seq<char>
    decreases s.len(),
{
    if s.len() == 0 { Seq::empty() } else { json_body(s.drop_last()) + json_char(s.last()) }
}

/// The JSON string literal of `s`.
pub open spec fn json_quote(s: Seq<char>) -> Seq<char> {
    seq!['"'] + json_body(s) + seq!['"']
}

/// `s` as a JSON string literal.
///
/// Trusted: calls `serde_json::to_string` on a `&str`, which writes the string
/// between double quotes with the escapes of `json_char` (the `ESCAPE` table
/// and `write_char_escape` of serde_json's `ser.rs`); serialising a `str`
/// into memory does not fail.
#[verifier::external_body]
pub(crate) fn json_string(s: &str) -> (r: String)
    ensures
        r@ == json_quote(s@),
{
    serde_json::to_string(s).unwrap()
}

} // verus!
