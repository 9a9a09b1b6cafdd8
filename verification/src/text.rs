//! Text primitives: UTF-8 validity, character sequences of strings, and the
//! character classes the catalog and harvest rules are written in.

use vstd::prelude::*;
use vstd::utf8::valid_utf8;

verus! {

/// Whether `b` is valid UTF-8, as `std::str::from_utf8` decides it.
///
/// Trusted: calls `std::str::from_utf8`, which returns `Ok` exactly when the
/// bytes are well-formed UTF-8 (the definition `vstd::utf8::valid_utf8`
/// states).
#[verifier::external_body]
pub(crate) fn is_utf8(b: &[u8]) -> (r: bool)
    ensures
        r == valid_utf8(b@),
{
    std::str::from_utf8(b).is_ok()
}


/// Printable ASCII that `Debug` writes as itself inside a string literal:
/// a space through `~`, but not `"` or `\`.
pub open spec fn debug_plain(c: char) -> bool {
    ' ' <= c <= '~' && c != '"' && c != '\\'
}

/// What `{:?}` writes for a string: a Rust string literal.
pub uninterp spec fn debug_text(s: Seq<char>) -> Seq<char>;

/// `s` as `{:?}` writes it: between double quotes, each character as
/// `char::escape_debug` gives it.
///
/// Trusted: calls `format!("{:?}", s)`. Of the result only this is stated:
/// it is a function of the text alone, and a text of printable ASCII without
/// `"` or `\` comes out between quotes unchanged (`escape_debug` leaves those
/// characters as they are).
#[verifier::external_body]
pub(crate) fn debug_str(s: &str) -> (r: String)
    ensures
        r@ == debug_text(s@),
        (forall|i: int| 0 <= i < s@.len() ==> debug_plain(#[trigger] s@[i])) ==> r@ == seq!['"'] + s@ + seq!['"'],
{
    format!("{:?}", s)
}

/// Append `c` to `s`.
///
/// Trusted: calls `String::push`, which appends the character to the end of
/// the string.
#[verifier::external_body]
pub(crate) fn push_char(s: &mut String, c: char)
    ensures
        final(s)@ == old(s)@.push(c),
{
    s.push(c);
}

/// The characters of `s`, in order.
pub fn chars_of(s: &str) -> (v: Vec<char>)
    ensures
        v@ == s@,
{
    let mut v: Vec<char> = Vec::new();
    for c in it: s.chars()
        invariant
            it.seq() == s@,
            v@ == it.seq().take(it.index() as int),
    {
        v.push(c);
        assert(v@ =~= it.seq().take(it.index() as int + 1));
    }
    assert(v@ =~= s@);
    v
}

/// The string of the characters `v`.
pub fn string_from(v: &[char]) -> (s: String)
    ensures
        s@ == v@,
{
    let mut s = String::new();
    let mut i: usize = 0;
    while i < v.len()
        invariant
            i <= v@.len(),
            s@ == v@.take(i as int),
        decreases v@.len() - i,
    {
        push_char(&mut s, v[i]);
        i = i + 1;
        assert(s@ =~= v@.take(i as int));
    }
    assert(v@.take(v@.len() as int) =~= v@);
    s
}


/// The text of an optional string.
pub open spec fn opt_text(o: Option<&str>) -> Option<Seq<char>> {
    match o {
        Some(s) => Some(s@),
        None => None,
    }
}

/// Whether a character is alphabetic or numeric in Unicode, as
/// `char::is_alphanumeric` decides it.
pub uninterp spec fn alphanumeric(c: char) -> bool;

/// Trusted: calls `char::is_alphanumeric` (the Unicode `Alphabetic` or
/// `Numeric` property). Its result depends on the character alone and is
/// named `alphanumeric`; nothing more of it is stated.
#[verifier::external_body]
pub fn is_alphanumeric(c: char) -> (r: bool)
    ensures
        r == alphanumeric(c),
{
    c.is_alphanumeric()
}

// ---- character classes -----------------------------------------------------

/// ASCII lowercase of one character; every other character is unchanged.
pub open spec fn lower_ascii(c: char) -> char {
    if 'A' <= c <= 'Z' { ((c as u32) + 32) as char } else { c }
}

/// ASCII lowercase of a character sequence.
pub open spec fn lower_seq(s: Seq<char>) -> Seq<char> {
    Seq::new(s.len(), |i: int| lower_ascii(s[i]))
}

/// ASCII letters and digits.
pub open spec fn is_ascii_alnum(c: char) -> bool {
    ('0' <= c <= '9') || ('a' <= c <= 'z') || ('A' <= c <= 'Z')
}

/// ASCII digits.
pub open spec fn is_ascii_digit(c: char) -> bool {
    '0' <= c <= '9'
}

/// The characters with the Unicode `White_Space` property (what
/// `char::is_whitespace` and `str::trim` use).
pub open spec fn is_ws(c: char) -> bool {
    ||| ('\u{9}' <= c <= '\u{D}')
    ||| c == ' '
    ||| c == '\u{85}'
    ||| c == '\u{A0}'
    ||| c == '\u{1680}'
    ||| ('\u{2000}' <= c <= '\u{200A}')
    ||| c == '\u{2028}'
    ||| c == '\u{2029}'
    ||| c == '\u{202F}'
    ||| c == '\u{205F}'
    ||| c == '\u{3000}'
}

pub fn lower_char(c: char) -> (r: char)
    ensures
        r == lower_ascii(c),
{
    if 'A' <= c && c <= 'Z' {
        let b = (c as u8) + 32;
        assert(b as char == ((c as u32) + 32) as char);
        b as char
    } else {
        c
    }
}

pub fn alnum(c: char) -> (r: bool)
    ensures
        r == is_ascii_alnum(c),
{
    ('0' <= c && c <= '9') || ('a' <= c && c <= 'z') || ('A' <= c && c <= 'Z')
}

pub fn whitespace(c: char) -> (r: bool)
    ensures
        r == is_ws(c),
{
    ('\u{9}' <= c && c <= '\u{D}') || c == ' ' || c == '\u{85}' || c == '\u{A0}' || c == '\u{1680}'
        || ('\u{2000}' <= c && c <= '\u{200A}') || c == '\u{2028}' || c == '\u{2029}' || c == '\u{202F}'
        || c == '\u{205F}' || c == '\u{3000}'
}

/// The ASCII-lowercased characters of `s`.
pub fn lower_chars(s: &str) -> (v: Vec<char>)
    ensures
        v@ == lower_seq(s@),
{
    let cs = chars_of(s);
    let mut v: Vec<char> = Vec::new();
    let mut i: usize = 0;
    while i < cs.len()
        invariant
            i <= cs@.len(),
            cs@ == s@,
            v@ == lower_seq(cs@.take(i as int)),
        decreases cs@.len() - i,
    {
        v.push(lower_char(cs[i]));
        i = i + 1;
        assert(v@ =~= lower_seq(cs@.take(i as int)));
    }
    assert(cs@.take(cs@.len() as int) =~= cs@);
    v
}

// ---- substrings ------------------------------------------------------------

/// `n` occurs in `h` at index `i`.
pub open spec fn occurs_at(h: Seq<char>, n: Seq<char>, i: int) -> bool {
    0 <= i && i + n.len() <= h.len() && h.subrange(i, i + n.len()) == n
}

/// `n` occurs somewhere in `h`.
pub open spec fn contains_seq(h: Seq<char>, n: Seq<char>) -> bool {
    exists|i: int| occurs_at(h, n, i)
}

fn occurs_at_exec(h: &[char], n: &[char], i: usize) -> (r: bool)
    requires
        i <= h@.len(),
    ensures
        r == occurs_at(h@, n@, i as int),
{
    let hl = h.len();
    if n.len() > hl - i {
        return false;
    }
    let mut j: usize = 0;
    while j < n.len()
        invariant
            hl == h@.len(),
            j <= n@.len(),
            i + n@.len() <= h@.len(),
            forall|k: int| 0 <= k < j ==> h@[i + k] == n@[k],
        decreases n@.len() - j,
    {
        if h[i + j] != n[j] {
            assert(h@.subrange(i as int, i + n@.len())[j as int] != n@[j as int]);
            return false;
        }
        j = j + 1;
    }
    assert(h@.subrange(i as int, i + n@.len()) =~= n@);
    true
}

/// Whether `n` occurs in `h`.
pub fn contains_chars(h: &[char], n: &[char]) -> (r: bool)
    ensures
        r == contains_seq(h@, n@),
{
    let mut i: usize = 0;
    while i < h.len()
        invariant
            i <= h@.len(),
            forall|k: int| 0 <= k < i ==> !occurs_at(h@, n@, k),
        decreases h@.len() - i,
    {
        if occurs_at_exec(h, n, i) {
            return true;
        }
        i = i + 1;
    }
    if occurs_at_exec(h, n, i) {
        return true;
    }
    assert forall|k: int| !occurs_at(h@, n@, k) by {
        if 0 <= k < h@.len() {
            assert(k < i);
        }
    }
    false
}

/// Whether `n` occurs in `h`.
pub fn contains_str(h: &[char], n: &str) -> (r: bool)
    ensures
        r == contains_seq(h@, n@),
{
    let nc = chars_of(n);
    contains_chars(h, nc.as_slice())
}

/// Whether `h` begins with `n`.
pub fn starts_with_chars(h: &[char], n: &[char]) -> (r: bool)
    ensures
        r == occurs_at(h@, n@, 0),
{
    occurs_at_exec(h, n, 0)
}

/// Whether two strings hold the same characters.
pub fn same_str(a: &str, b: &str) -> (r: bool)
    ensures
        r == (a@ == b@),
{
    let x = chars_of(a);
    let y = chars_of(b);
    seq_eq(x.as_slice(), y.as_slice())
}

/// Whether two character slices are equal.
pub fn seq_eq(x: &[char], y: &[char]) -> (r: bool)
    ensures
        r == (x@ == y@),
{
    if x.len() != y.len() {
        return false;
    }
    let mut i: usize = 0;
    while i < x.len()
        invariant
            i <= x@.len(),
            x@.len() == y@.len(),
            forall|k: int| 0 <= k < i ==> x@[k] == y@[k],
        decreases x@.len() - i,
    {
        if x[i] != y[i] {
            return false;
        }
        i = i + 1;
    }
    assert(x@ =~= y@);
    true
}

// ---- trimming --------------------------------------------------------------

/// Index of the first non-whitespace character of `s` at or after `i`.
pub open spec fn skip_ws(s: Seq<char>, i: int) -> int
    decreases s.len() - i,
{
    if i >= s.len() || i < 0 || !is_ws(s[i]) { i } else { skip_ws(s, i + 1) }
}

/// One past the last non-whitespace character of `s` before `j`.
pub open spec fn back_ws(s: Seq<char>, lo: int, j: int) -> int
    decreases j - lo,
{
    if j <= lo || !is_ws(s[j - 1]) { j } else { back_ws(s, lo, j - 1) }
}

/// `s` without leading and trailing whitespace.
pub open spec fn trim_seq(s: Seq<char>) -> Seq<char> {
    let lo = skip_ws(s, 0);
    let hi = back_ws(s, lo, s.len() as int);
    s.subrange(lo, hi)
}

proof fn lemma_skip_ws(s: Seq<char>, i: int)
    requires
        0 <= i <= s.len(),
    ensures
        i <= skip_ws(s, i) <= s.len(),
    decreases s.len() - i,
{
    if i < s.len() && is_ws(s[i]) {
        lemma_skip_ws(s, i + 1);
    }
}

proof fn lemma_back_ws(s: Seq<char>, lo: int, j: int)
    requires
        0 <= lo <= j <= s.len(),
    ensures
        lo <= back_ws(s, lo, j) <= j,
    decreases j - lo,
{
    if j > lo && is_ws(s[j - 1]) {
        lemma_back_ws(s, lo, j - 1);
    }
}

/// The characters of `s` without leading and trailing whitespace.
pub fn trim_chars(s: &[char]) -> (v: Vec<char>)
    ensures
        v@ == trim_seq(s@),
{
    let n = s.len();
    let mut lo: usize = 0;
    while lo < n && whitespace(s[lo])
        invariant
            lo <= n == s@.len(),
            skip_ws(s@, 0) == skip_ws(s@, lo as int),
        decreases n - lo,
    {
        lo = lo + 1;
    }
    let mut hi: usize = n;
    while hi > lo && whitespace(s[hi - 1])
        invariant
            lo <= hi <= n == s@.len(),
            lo == skip_ws(s@, 0),
            back_ws(s@, lo as int, n as int) == back_ws(s@, lo as int, hi as int),
        decreases hi - lo,
    {
        hi = hi - 1;
    }
    let mut v: Vec<char> = Vec::new();
    let mut i = lo;
    while i < hi
        invariant
            lo <= i <= hi <= n == s@.len(),
            v@ == s@.subrange(lo as int, i as int),
        decreases hi - i,
    {
        v.push(s[i]);
        i = i + 1;
        assert(v@ =~= s@.subrange(lo as int, i as int));
    }
    v
}

/// The string `s` without leading and trailing whitespace.
pub fn trim_str(s: &str) -> (r: String)
    ensures
        r@ == trim_seq(s@),
{
    let cs = chars_of(s);
    let t = trim_chars(cs.as_slice());
    string_from(t.as_slice())
}


// ---- UTF-8 slices and numbers ----------------------------------------------

/// The text of `b` when it is well-formed UTF-8.
pub open spec fn utf8_text(b: Seq<u8>) -> Option<Seq<char>> {
    if valid_utf8(b) { Some(vstd::utf8::decode_utf8(b)) } else { None }
}

/// The string `b` spells, if it is UTF-8.
///
/// Trusted: calls `std::str::from_utf8`, which succeeds exactly on well-formed
/// UTF-8 and then borrows the bytes as the string they encode (the decoding
/// `vstd::utf8::decode_utf8` states); the result is copied into a `String`.
#[verifier::external_body]
pub(crate) fn utf8_string(b: &[u8]) -> (r: Option<String>)
    ensures
        match r {
            Some(s) => utf8_text(b@) == Some(s@),
            None => utf8_text(b@) is None,
        },
{
    match std::str::from_utf8(b) {
        Ok(s) => Some(s.to_string()),
        Err(_) => None,
    }
}

/// The value of a nonempty run of ASCII digits.
pub open spec fn digits_value(d: Seq<char>) -> int
    decreases d.len(),
{
    if d.len() == 0 { 0 } else { digits_value(d.drop_last()) * 10 + (d.last() as int - '0' as int) }
}

/// Every character of `d` is an ASCII digit.
pub open spec fn all_digits(d: Seq<char>) -> bool {
    forall|i: int| 0 <= i < d.len() ==> is_ascii_digit(#[trigger] d[i])
}

/// How `str::parse::<i64>` reads `s`: an optional `+` or `-`, then one or
/// more ASCII digits, the value within the `i64` range.
pub open spec fn parse_i64_spec(s: Seq<char>) -> Option<int> {
    if s.len() == 0 {
        None
    } else {
        let neg = s[0] == '-';
        let body = if s[0] == '-' || s[0] == '+' { s.subrange(1, s.len() as int) } else { s };
        if body.len() == 0 || !all_digits(body) {
            None
        } else {
            let v = if neg { -digits_value(body) } else { digits_value(body) };
            if i64::MIN <= v <= i64::MAX { Some(v) } else { None }
        }
    }
}

/// How `str::parse::<u64>` reads `s`: an optional `+`, then one or more
/// ASCII digits, the value within the `u64` range.
pub open spec fn parse_u64_spec(s: Seq<char>) -> Option<int> {
    if s.len() == 0 {
        None
    } else {
        let body = if s[0] == '+' { s.subrange(1, s.len() as int) } else { s };
        if body.len() == 0 || !all_digits(body) {
            None
        } else {
            let v = digits_value(body);
            if v <= u64::MAX { Some(v) } else { None }
        }
    }
}

proof fn lemma_digits_value_nonneg(d: Seq<char>)
    requires
        all_digits(d),
    ensures
        digits_value(d) >= 0,
    decreases d.len(),
{
    if d.len() > 0 {
        assert(all_digits(d.drop_last())) by {
            assert forall|i: int| 0 <= i < d.drop_last().len() implies is_ascii_digit(#[trigger] d.drop_last()[i]) by {
                assert(d.drop_last()[i] == d[i]);
            }
        }
        lemma_digits_value_nonneg(d.drop_last());
        assert(is_ascii_digit(d[d.len() - 1]));
    }
}

proof fn lemma_digits_value_mono(d: Seq<char>, k: int)
    requires
        all_digits(d),
        0 <= k <= d.len(),
    ensures
        digits_value(d.take(k)) <= digits_value(d),
    decreases d.len() - k,
{
    if k < d.len() {
        let t = d.take(k + 1);
        assert(t.drop_last() =~= d.take(k));
        assert(all_digits(t)) by {
            assert forall|i: int| 0 <= i < t.len() implies is_ascii_digit(#[trigger] t[i]) by {
                assert(t[i] == d[i]);
            }
        }
        assert(all_digits(d.take(k))) by {
            assert forall|i: int| 0 <= i < d.take(k).len() implies is_ascii_digit(#[trigger] d.take(k)[i]) by {
                assert(d.take(k)[i] == d[i]);
            }
        }
        lemma_digits_value_nonneg(d.take(k));
        assert(is_ascii_digit(t[k]));
        lemma_digits_value_mono(d, k + 1);
    } else {
        assert(d.take(k) =~= d);
    }
}

/// Value of the digits `d[lo..]` if it does not exceed `limit`.
fn digits_upto(d: &[char], lo: usize, limit: u64) -> (r: Option<u64>)
    requires
        limit >= 9,
        lo <= d@.len(),
        all_digits(d@.subrange(lo as int, d@.len() as int)),
    ensures
        match r {
            Some(v) => v == digits_value(d@.subrange(lo as int, d@.len() as int)) && v <= limit,
            None => digits_value(d@.subrange(lo as int, d@.len() as int)) > limit,
        },
{
    let ghost body = d@.subrange(lo as int, d@.len() as int);
    let mut acc: u64 = 0;
    let mut i = lo;
    while i < d.len()
        invariant
            lo <= i <= d@.len(),
            body == d@.subrange(lo as int, d@.len() as int),
            all_digits(body),
            acc == digits_value(body.take(i - lo)),
            acc <= limit,
            limit >= 9,
        decreases d@.len() - i,
    {
        assert(body.take(i - lo + 1).drop_last() =~= body.take(i - lo));
        assert(is_ascii_digit(body[i - lo]));
        assert(body[i - lo] == d@[i as int]);
        let dig = (d[i] as u32 - '0' as u32) as u64;
        if acc > (limit - dig) / 10 {
            proof {
                assert(acc * 10 + dig > limit) by (nonlinear_arith)
                    requires acc > (limit - dig) / 10, dig <= 9, dig <= limit || true;
                lemma_digits_value_mono(body, i - lo + 1);
            }
            return None;
        }
        assert(acc * 10 + dig <= limit) by (nonlinear_arith)
            requires acc <= (limit - dig) / 10, dig <= limit;
        acc = acc * 10 + dig;
        i = i + 1;
    }
    assert(body.take(i - lo) =~= body);
    Some(acc)
}

fn all_digits_from(d: &[char], lo: usize) -> (r: bool)
    requires
        lo <= d@.len(),
    ensures
        r == all_digits(d@.subrange(lo as int, d@.len() as int)),
{
    let mut i = lo;
    while i < d.len()
        invariant
            lo <= i <= d@.len(),
            forall|k: int| lo <= k < i ==> is_ascii_digit(#[trigger] d@[k]),
        decreases d@.len() - i,
    {
        if !('0' <= d[i] && d[i] <= '9') {
            assert(!is_ascii_digit(d@.subrange(lo as int, d@.len() as int)[i - lo]));
            return false;
        }
        i = i + 1;
    }
    assert forall|k: int| 0 <= k < d@.subrange(lo as int, d@.len() as int).len()
        implies is_ascii_digit(#[trigger] d@.subrange(lo as int, d@.len() as int)[k]) by {
        assert(d@.subrange(lo as int, d@.len() as int)[k] == d@[lo + k]);
    }
    true
}

/// `str::parse::<i64>`, on characters.
pub fn parse_i64(s: &[char]) -> (r: Option<i64>)
    ensures
        match r {
            Some(v) => parse_i64_spec(s@) == Some(v as int),
            None => parse_i64_spec(s@) is None,
        },
{
    if s.len() == 0 {
        return None;
    }
    let neg = s[0] == '-';
    let lo: usize = if s[0] == '-' || s[0] == '+' { 1 } else { 0 };
    proof {
        if lo == 0 {
            assert(s@.subrange(0, s@.len() as int) =~= s@);
        }
    }
    if lo == s.len() || !all_digits_from(s, lo) {
        return None;
    }
    let limit: u64 = if neg { 0x8000_0000_0000_0000 } else { 0x7FFF_FFFF_FFFF_FFFF };
    match digits_upto(s, lo, limit) {
        None => None,
        Some(m) => {
            if neg {
                if m == 0x8000_0000_0000_0000 {
                    Some(i64::MIN)
                } else {
                    Some(-(m as i64))
                }
            } else {
                Some(m as i64)
            }
        },
    }
}

/// `str::parse::<u64>`, on characters.
pub fn parse_u64(s: &[char]) -> (r: Option<u64>)
    ensures
        match r {
            Some(v) => parse_u64_spec(s@) == Some(v as int),
            None => parse_u64_spec(s@) is None,
        },
{
    if s.len() == 0 {
        return None;
    }
    let lo: usize = if s[0] == '+' { 1 } else { 0 };
    proof {
        if lo == 0 {
            assert(s@.subrange(0, s@.len() as int) =~= s@);
        }
    }
    if lo == s.len() || !all_digits_from(s, lo) {
        return None;
    }
    digits_upto(s, lo, u64::MAX)
}


// ---- splitting -------------------------------------------------------------

/// Splitting `s` at `sep` up to its end: the finished non-empty pieces and
/// the piece in progress.
pub open spec fn split_state(s: Seq<char>, sep: char) -> (Seq<Seq<char>>, Seq<char>)
    decreases s.len(),
{
    if s.len() == 0 {
        (Seq::empty(), Seq::empty())
    } else {
        let (done, cur) = split_state(s.drop_last(), sep);
        if s.last() == sep {
            (if cur.len() > 0 { done.push(cur) } else { done }, Seq::empty())
        } else {
            (done, cur.push(s.last()))
        }
    }
}

/// The non-empty pieces of `s` between occurrences of `sep`, in order.
pub open spec fn components(s: Seq<char>, sep: char) -> Seq<Seq<char>> {
    let (done, cur) = split_state(s, sep);
    if cur.len() > 0 { done.push(cur) } else { done }
}

/// The non-empty pieces of `s` between occurrences of `sep`.
pub fn split_components(s: &str, sep: char) -> (v: Vec<String>)
    ensures
        v@.len() == components(s@, sep).len(),
        forall|k: int| 0 <= k < v@.len() ==> (#[trigger] v@[k])@ == components(s@, sep)[k],
{
    let cs = chars_of(s);
    let mut done: Vec<String> = Vec::new();
    let mut cur: Vec<char> = Vec::new();
    let mut i: usize = 0;
    while i < cs.len()
        invariant
            i <= cs@.len(),
            cs@ == s@,
            done@.len() == split_state(cs@.take(i as int), sep).0.len(),
            forall|k: int| 0 <= k < done@.len() ==> (#[trigger] done@[k])@ == split_state(cs@.take(i as int), sep).0[k],
            cur@ == split_state(cs@.take(i as int), sep).1,
        decreases cs@.len() - i,
    {
        assert(cs@.take(i as int + 1).drop_last() =~= cs@.take(i as int));
        if cs[i] == sep {
            if cur.len() > 0 {
                done.push(string_from(cur.as_slice()));
            }
            cur = Vec::new();
        } else {
            cur.push(cs[i]);
        }
        i = i + 1;
    }
    assert(cs@.take(cs@.len() as int) =~= cs@);
    if cur.len() > 0 {
        done.push(string_from(cur.as_slice()));
    }
    done
}

/// The lines of `s` ended so far, and the text after the last `\n`: each
/// ended line without its `\n` and one `\r` before it.
pub open spec fn lines_state(s: Seq<char>) -> (Seq<Seq<char>>, Seq<char>)
    decreases s.len(),
{
    if s.len() == 0 {
        (Seq::empty(), Seq::empty())
    } else {
        let (done, cur) = lines_state(s.drop_last());
        if s.last() == '\n' { (done.push(strip_cr(cur)), Seq::empty()) } else { (done, cur.push(s.last())) }
    }
}

/// `l` without one trailing `\r`.
pub open spec fn strip_cr(l: Seq<char>) -> Seq<char> {
    if l.len() > 0 && l.last() == '\r' { l.drop_last() } else { l }
}

/// The lines of `s` as `str::lines` gives them: split at `\n`, a `\r`
/// before the `\n` dropped, and a last line without a `\n` kept as it is;
/// no final empty line after a trailing `\n`.
pub open spec fn lines_seq(s: Seq<char>) -> Seq<Seq<char>> {
    let (done, cur) = lines_state(s);
    if cur.len() > 0 { done.push(cur) } else { done }
}

fn strip_cr_exec(cur: &Vec<char>) -> (r: String)
    ensures
        r@ == strip_cr(cur@),
{
    if cur.len() > 0 && cur[cur.len() - 1] == '\r' {
        let t = vstd::slice::slice_subrange(cur.as_slice(), 0, cur.len() - 1);
        assert(t@ =~= cur@.drop_last());
        string_from(t)
    } else {
        string_from(cur.as_slice())
    }
}

/// The lines of `s`, as `str::lines` splits them.
pub fn lines_of(s: &str) -> (v: Vec<String>)
    ensures
        v@.len() == lines_seq(s@).len(),
        forall|k: int| 0 <= k < v@.len() ==> (#[trigger] v@[k])@ == lines_seq(s@)[k],
{
    let cs = chars_of(s);
    let mut done: Vec<String> = Vec::new();
    let mut cur: Vec<char> = Vec::new();
    let mut i: usize = 0;
    while i < cs.len()
        invariant
            i <= cs@.len(),
            cs@ == s@,
            done@.len() == lines_state(cs@.take(i as int)).0.len(),
            forall|k: int| 0 <= k < done@.len() ==> (#[trigger] done@[k])@ == lines_state(cs@.take(i as int)).0[k],
            cur@ == lines_state(cs@.take(i as int)).1,
        decreases cs@.len() - i,
    {
        assert(cs@.take(i as int + 1).drop_last() =~= cs@.take(i as int));
        if cs[i] == '\n' {
            done.push(strip_cr_exec(&cur));
            cur = Vec::new();
        } else {
            cur.push(cs[i]);
        }
        i = i + 1;
    }
    assert(cs@.take(cs@.len() as int) =~= cs@);
    if cur.len() > 0 {
        done.push(string_from(cur.as_slice()));
    }
    done
}


// ---- building strings ------------------------------------------------------

/// Append the characters of `t` to `s`.
pub fn append(s: &mut String, t: &str)
    ensures
        final(s)@ == old(s)@ + t@,
{
    let cs = chars_of(t);
    let mut i: usize = 0;
    while i < cs.len()
        invariant
            i <= cs@.len(),
            cs@ == t@,
            s@ == old(s)@ + cs@.take(i as int),
        decreases cs@.len() - i,
    {
        push_char(s, cs[i]);
        i = i + 1;
        assert(s@ =~= old(s)@ + cs@.take(i as int));
    }
    assert(cs@.take(cs@.len() as int) =~= cs@);
}

/// The decimal digits of a natural number.
pub open spec fn nat_digits(n: nat) -> Seq<char>
    decreases n,
{
    if n < 10 {
        seq![(n + 48) as char]
    } else {
        nat_digits(n / 10) + seq![((n % 10) + 48) as char]
    }
}

/// The decimal text of an integer, as `{}` formats it.
pub open spec fn decimal(v: int) -> Seq<char> {
    if v < 0 { seq!['-'] + nat_digits((-v) as nat) } else { nat_digits(v as nat) }
}

fn digit_char(d: u64) -> (c: char)
    requires
        d < 10,
    ensures
        c == (d + 48) as char,
{
    let b = (d as u8) + 48;
    b as char
}

fn push_nat_digits(s: &mut String, n: u64)
    ensures
        final(s)@ == old(s)@ + nat_digits(n as nat),
    decreases n,
{
    if n < 10 {
        push_char(s, digit_char(n));
    } else {
        push_nat_digits(s, n / 10);
        push_char(s, digit_char(n % 10));
    }
}

/// The decimal text of `v`.
pub fn decimal_i64(v: i64) -> (r: String)
    ensures
        r@ == decimal(v as int),
{
    let mut s = String::new();
    if v < 0 {
        push_char(&mut s, '-');
        let m: u64 = if v == i64::MIN { 0x8000_0000_0000_0000 } else { (-v) as u64 };
        push_nat_digits(&mut s, m);
    } else {
        push_nat_digits(&mut s, v as u64);
    }
    s
}

fn push_nat_digits_wide(s: &mut String, n: u128)
    ensures
        final(s)@ == old(s)@ + nat_digits(n as nat),
    decreases n,
{
    if n < 10 {
        push_char(s, digit_char(n as u64));
    } else {
        push_nat_digits_wide(s, n / 10);
        push_char(s, digit_char((n % 10) as u64));
    }
}

/// The decimal text of `v`.
pub fn decimal_u128(v: u128) -> (r: String)
    ensures
        r@ == decimal(v as int),
{
    let mut s = String::new();
    push_nat_digits_wide(&mut s, v);
    s
}

/// The decimal text of `v`.
pub fn decimal_u64(v: u64) -> (r: String)
    ensures
        r@ == decimal(v as int),
{
    let mut s = String::new();
    push_nat_digits(&mut s, v);
    s
}


/// `p` without trailing `/`s.
pub fn trim_end_slashes_str(p: &str) -> (r: String)
    ensures
        r@ == crate::rbcli::trim_slashes_end(p@),
{
    let cs = chars_of(p);
    let mut end = cs.len();
    assert(cs@.take(cs@.len() as int) =~= cs@);
    while end > 0 && cs[end - 1] == '/'
        invariant
            end <= cs@.len(),
            cs@ == p@,
            crate::rbcli::trim_slashes_end(p@) == crate::rbcli::trim_slashes_end(cs@.take(end as int)),
        decreases end,
    {
        assert(cs@.take(end as int).drop_last() =~= cs@.take(end - 1));
        end = end - 1;
    }
    assert(cs@.subrange(0, end as int) =~= cs@.take(end as int));
    string_from(vstd::slice::slice_subrange(cs.as_slice(), 0, end))
}


// ---- searching and replacing -----------------------------------------------

/// The first index at or after `i` where `n` occurs in `h`.
pub open spec fn first_occ(h: Seq<char>, n: Seq<char>, i: int) -> Option<int>
    decreases h.len() + 1 - i,
{
    if i < 0 || i > h.len() {
        None
    } else if occurs_at(h, n, i) {
        Some(i)
    } else {
        first_occ(h, n, i + 1)
    }
}

pub proof fn lemma_first_occ(h: Seq<char>, n: Seq<char>, i: int)
    requires
        0 <= i,
    ensures
        first_occ(h, n, i) matches Some(k) ==> i <= k && occurs_at(h, n, k),
    decreases h.len() + 1 - i,
{
    if i <= h.len() && !occurs_at(h, n, i) {
        lemma_first_occ(h, n, i + 1);
    }
}

/// Where `n` first occurs in `h` at or after `i`.
pub fn find_from(h: &[char], n: &[char], i: usize) -> (r: Option<usize>)
    requires
        i <= h@.len(),
    ensures
        match r {
            Some(k) => first_occ(h@, n@, i as int) == Some(k as int),
            None => first_occ(h@, n@, i as int) is None,
        },
{
    let mut k = i;
    while k < h.len()
        invariant
            i <= k <= h@.len(),
            first_occ(h@, n@, i as int) == first_occ(h@, n@, k as int),
        decreases h@.len() - k,
    {
        if occurs_at_exec(h, n, k) {
            return Some(k);
        }
        k = k + 1;
    }
    if occurs_at_exec(h, n, k) {
        return Some(k);
    }
    assert(first_occ(h@, n@, k + 1) is None);
    None
}

/// `s[i..]` with every occurrence of `from` (left to right, not
/// overlapping) replaced by `to`.
pub open spec fn replaced_from(s: Seq<char>, from: Seq<char>, to: Seq<char>, i: int) -> Seq<char>
    decreases s.len() + 1 - i,
{
    if from.len() == 0 || i < 0 || i > s.len() {
        Seq::empty()
    } else {
        match first_occ(s, from, i) {
            None => s.subrange(i, s.len() as int),
            Some(k) => if k >= i && k + from.len() <= s.len() {
                s.subrange(i, k) + to + replaced_from(s, from, to, k + from.len())
            } else {
                Seq::empty()
            },
        }
    }
}

/// `s` with every occurrence of `from` replaced by `to`, as `str::replace`
/// does for a non-empty pattern.
pub open spec fn replaced(s: Seq<char>, from: Seq<char>, to: Seq<char>) -> Seq<char> {
    replaced_from(s, from, to, 0)
}

/// Replace every occurrence of the non-empty pattern `from` by `to`.
pub fn replace_all(s: &[char], from: &str, to: &str) -> (r: Vec<char>)
    requires
        from@.len() > 0,
    ensures
        r@ == replaced(s@, from@, to@),
{
    let f = chars_of(from);
    let t = chars_of(to);
    let mut out: Vec<char> = Vec::new();
    let mut i: usize = 0;
    while i <= s.len()
        invariant_except_break
            i <= s@.len(),
            f@ == from@,
            t@ == to@,
            f@.len() > 0,
            replaced(s@, from@, to@) == out@ + replaced_from(s@, from@, to@, i as int),
        ensures
            out@ == replaced(s@, from@, to@),
        decreases s@.len() + 1 - i,
    {
        match find_from(s, f.as_slice(), i) {
            None => {
                let ghost before = out@;
                let mut q = i;
                while q < s.len()
                    invariant
                        i <= q <= s@.len(),
                        out@ == before + s@.subrange(i as int, q as int),
                    decreases s@.len() - q,
                {
                    out.push(s[q]);
                    q = q + 1;
                    assert(out@ =~= before + s@.subrange(i as int, q as int));
                }
                break;
            },
            Some(k) => {
                proof {
                    lemma_first_occ(s@, f@, i as int);
                }
                let ghost before = out@;
                let mut q = i;
                while q < k
                    invariant
                        i <= q <= k <= s@.len(),
                        out@ == before + s@.subrange(i as int, q as int),
                    decreases k - q,
                {
                    out.push(s[q]);
                    q = q + 1;
                    assert(out@ =~= before + s@.subrange(i as int, q as int));
                }
                let ghost mid = out@;
                let mut q2: usize = 0;
                while q2 < t.len()
                    invariant
                        q2 <= t@.len(),
                        out@ == mid + t@.take(q2 as int),
                    decreases t@.len() - q2,
                {
                    out.push(t[q2]);
                    q2 = q2 + 1;
                    assert(out@ =~= mid + t@.take(q2 as int));
                }
                assert(t@.take(t@.len() as int) =~= t@);
                assert(out@ =~= before + s@.subrange(i as int, k as int) + to@);
                i = k + f.len();
            },
        }
    }
    out
}

} // verus!

verus! {

/// The parts joined with `sep` between each two.
pub open spec fn join_with(parts: Seq<Seq<char>>, sep: Seq<char>) -> Seq<char>
    decreases parts.len(),
{
    if parts.len() == 0 {
        Seq::empty()
    } else if parts.len() == 1 {
        parts[0]
    } else {
        join_with(parts.drop_last(), sep) + sep + parts.last()
    }
}

/// The views of a list of strings.
pub open spec fn views(v: Seq<String>) -> Seq<Seq<char>> {
    v.map_values(|s: String| s@)
}

/// The strings joined with `sep` between each two.
pub fn join_strings(v: &Vec<String>, sep: &str) -> (r: String)
    ensures
        r@ == join_with(views(v@), sep@),
{
    let mut r = String::new();
    let mut i: usize = 0;
    while i < v.len()
        invariant
            i <= v@.len(),
            r@ == join_with(views(v@.take(i as int)), sep@),
        decreases v@.len() - i,
    {
        if i > 0 {
            append(&mut r, sep);
        }
        append(&mut r, v[i].as_str());
        proof {
            let p = views(v@.take(i + 1));
            assert(p.drop_last() =~= views(v@.take(i as int)));
            assert(p.last() == v@[i as int]@);
            if i == 0 {
                assert(views(v@.take(0)) =~= Seq::<Seq<char>>::empty());
            }
        }
        i = i + 1;
    }
    assert(v@.take(v@.len() as int) =~= v@);
    r
}

} // verus!

verus! {

/// What `str::to_lowercase` gives for a text: its Unicode lowercase mapping,
/// a function of the text alone.
pub uninterp spec fn unicode_lower(s: Seq<char>) -> Seq<char>;

/// Trusted: calls `str::to_lowercase`, which returns the Unicode lowercase
/// mapping of the text; its result is named `unicode_lower`.
#[verifier::external_body]
pub fn to_lower(s: &str) -> (r: String)
    ensures
        r@ == unicode_lower(s@),
{
    s.to_lowercase()
}

} // verus!

verus! {

/// The pieces of `s` between occurrences of `sep`, empty ones included, as
/// `str::split` gives them (always at least one).
pub open spec fn pieces(s: Seq<char>, sep: char) -> Seq<Seq<char>>
    decreases s.len(),
{
    if s.len() == 0 {
        seq![Seq::empty()]
    } else {
        let p = pieces(s.drop_last(), sep);
        if s.last() == sep {
            p.push(Seq::empty())
        } else {
            p.update(p.len() - 1, p.last().push(s.last()))
        }
    }
}

pub proof fn lemma_pieces_nonempty(s: Seq<char>, sep: char)
    ensures
        pieces(s, sep).len() >= 1,
    decreases s.len(),
{
    if s.len() > 0 {
        lemma_pieces_nonempty(s.drop_last(), sep);
    }
}

/// `str::split` on one character, empty pieces included.
pub fn split_pieces(s: &str, sep: char) -> (r: Vec<Vec<char>>)
    ensures
        r@.len() == pieces(s@, sep).len(),
        forall|k: int| 0 <= k < r@.len() ==> (#[trigger] r@[k])@ == pieces(s@, sep)[k],
{
    let cs = chars_of(s);
    let mut done: Vec<Vec<char>> = Vec::new();
    let mut cur: Vec<char> = Vec::new();
    let mut i: usize = 0;
    while i < cs.len()
        invariant
            i <= cs@.len(),
            cs@ == s@,
            done@.len() + 1 == pieces(cs@.take(i as int), sep).len(),
            forall|k: int| 0 <= k < done@.len() ==> (#[trigger] done@[k])@ == pieces(cs@.take(i as int), sep)[k],
            cur@ == pieces(cs@.take(i as int), sep).last(),
        decreases cs@.len() - i,
    {
        proof {
            assert(cs@.take(i as int + 1).drop_last() =~= cs@.take(i as int));
            lemma_pieces_nonempty(cs@.take(i as int), sep);
        }
        if cs[i] == sep {
            done.push(cur);
            cur = Vec::new();
        } else {
            cur.push(cs[i]);
        }
        i = i + 1;
    }
    assert(cs@.take(cs@.len() as int) =~= cs@);
    done.push(cur);
    done
}

} // verus!

verus! {

/// The views of a list after a push.
pub proof fn lemma_views_push(v: Seq<String>, x: String)
    ensures
        views(v.push(x)) == views(v).push(x@),
{
    assert(views(v.push(x)) =~= views(v).push(x@));
}

} // verus!
