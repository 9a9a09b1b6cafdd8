//! Fetching titles from a Macintosh Garden archive: what a download file is,
//! which of a record's files to fetch, the on-disk folder name of a title,
//! the app a fetched title launches, and URL path encoding. Downloading and
//! extracting are the caller's part.

use crate::harvest::{common_prefix, slug, slugify};
use crate::rbcli::Entry;
use crate::text::{
    chars_of, components, contains_seq, contains_str, lower_chars, lower_seq, push_char, same_str,
    string_from, trim_chars, trim_seq,
};
use vstd::prelude::*;
use vstd::string::StringSliceAdditionalSpecFns;

verus! {

/// How a download is installed.
#[derive(Debug, Clone, Copy, PartialEq, Eq, Structural)]
pub enum Kind {
    /// A StuffIt / Compact Pro / MAR / self-extracting archive (possibly
    /// BinHex-wrapped), extracted by `rb-cli archive extract`.
    Archive,
    /// A single BinHex file, installed with `put-binhex`.
    BinHex,
    /// A single MacBinary file, installed with `put-macbinary`.
    MacBinary,
}

/// The text after the last `.` of `s` (all of it when there is none).
pub open spec fn extension(s: Seq<char>) -> Seq<char> {
    s.subrange(crate::enrich::last_index_of(s, '.', s.len() as int) + 1, s.len() as int)
}

/// What a download file name says about how to install it, ignoring ASCII
/// case: `.sit`, `.cpt`, `.sea`, `.mar` are archives; `.hqx` is an archive
/// when the name also holds `.sit`, `.cpt` or `.sea`, else a single BinHex
/// file; `.bin` is MacBinary; anything else is not handled.
pub open spec fn kind_of_name(name: Seq<char>) -> Option<Kind> {
    let lc = lower_seq(name);
    let ext = extension(lc);
    if ext == "sit"@ || ext == "cpt"@ || ext == "sea"@ || ext == "mar"@ {
        Some(Kind::Archive)
    } else if ext == "hqx"@ {
        if contains_seq(lc, ".sit"@) || contains_seq(lc, ".cpt"@) || contains_seq(lc, ".sea"@) {
            Some(Kind::Archive)
        } else {
            Some(Kind::BinHex)
        }
    } else if ext == "bin"@ {
        Some(Kind::MacBinary)
    } else {
        None
    }
}

fn extension_of(lc: &Vec<char>) -> (r: Vec<char>)
    ensures
        r@ == extension(lc@),
{
    let n = lc.len();
    let mut k = n;
    while k > 0 && lc[k - 1] != '.'
        invariant
            k <= n == lc@.len(),
            crate::enrich::last_index_of(lc@, '.', n as int) == crate::enrich::last_index_of(lc@, '.', k as int),
        decreases k,
    {
        k = k - 1;
    }
    let mut r: Vec<char> = Vec::new();
    let mut i = k;
    while i < n
        invariant
            k <= i <= n == lc@.len(),
            r@ == lc@.subrange(k as int, i as int),
        decreases n - i,
    {
        r.push(lc[i]);
        i = i + 1;
        assert(r@ =~= lc@.subrange(k as int, i as int));
    }
    r
}

fn is_word(v: &Vec<char>, w: &str) -> (r: bool)
    ensures
        r == (v@ == w@),
{
    let c = chars_of(w);
    crate::text::seq_eq(v.as_slice(), c.as_slice())
}

/// How to install a download, from its file name.
pub fn classify(filename: &str) -> (r: Option<Kind>)
    ensures
        r == kind_of_name(filename@),
{
    let lc = lower_chars(filename);
    let ext = extension_of(&lc);
    if is_word(&ext, "sit") || is_word(&ext, "cpt") || is_word(&ext, "sea") || is_word(&ext, "mar") {
        Some(Kind::Archive)
    } else if is_word(&ext, "hqx") {
        if contains_str(lc.as_slice(), ".sit") || contains_str(lc.as_slice(), ".cpt")
            || contains_str(lc.as_slice(), ".sea") {
            Some(Kind::Archive)
        } else {
            Some(Kind::BinHex)
        }
    } else if is_word(&ext, "bin") {
        Some(Kind::MacBinary)
    } else {
        None
    }
}

/// A name that marks an updater, demo or document rather than the software,
/// ignoring ASCII case.
pub open spec fn aux_name(name: Seq<char>) -> bool {
    let l = lower_seq(name);
    contains_seq(l, "updat"@) || contains_seq(l, "upgrade"@) || contains_seq(l, "patch"@)
        || contains_seq(l, "demo"@) || contains_seq(l, "readme"@) || contains_seq(l, "read me"@)
        || contains_seq(l, "read_me"@) || contains_seq(l, "manual"@) || contains_seq(l, "instructions"@)
        || contains_seq(l, "sample"@) || contains_seq(l, "trial"@)
}

/// Whether a download is an updater, demo or document.
pub fn is_aux_name(name: &str) -> (r: bool)
    ensures
        r == aux_name(name@),
{
    let l = lower_chars(name);
    let h = l.as_slice();
    contains_str(h, "updat") || contains_str(h, "upgrade") || contains_str(h, "patch")
        || contains_str(h, "demo") || contains_str(h, "readme") || contains_str(h, "read me")
        || contains_str(h, "read_me") || contains_str(h, "manual") || contains_str(h, "instructions")
        || contains_str(h, "sample") || contains_str(h, "trial")
}

/// ASCII digit byte.
pub open spec fn digit_byte(b: u8) -> bool {
    0x30 <= b <= 0x39
}

/// End of the run of digits and dots starting at `i`.
pub open spec fn run_end(b: Seq<u8>, i: int) -> int
    decreases b.len() - i,
{
    if i >= b.len() || i < 0 || !(digit_byte(b[i]) || b[i] == 0x2E) { i } else { run_end(b, i + 1) }
}

/// The bytes of an ASCII run as characters.
pub open spec fn ascii_chars(b: Seq<u8>) -> Seq<char> {
    Seq::new(b.len(), |i: int| b[i] as char)
}

/// Part `k` of a dotted number: its `k`-th non-empty `.`-separated piece as
/// a `u32`, 0 when missing or too large.
pub open spec fn version_part(run: Seq<char>, k: int) -> int {
    let pieces = components(run, '.');
    if k < pieces.len() {
        match crate::text::parse_u64_spec(pieces[k]) {
            Some(v) => if v <= u32::MAX { v } else { 0 },
            None => 0,
        }
    } else {
        0
    }
}

/// The version a run of digits and dots stands for.
pub open spec fn run_version(run: Seq<char>) -> (int, int, int) {
    (version_part(run, 0), version_part(run, 1), version_part(run, 2))
}

/// Lexicographic comparison of versions.
pub open spec fn version_gt(a: (int, int, int), b: (int, int, int)) -> bool {
    a.0 > b.0 || (a.0 == b.0 && (a.1 > b.1 || (a.1 == b.1 && a.2 > b.2)))
}

/// Scanning a name's bytes from `i` for version tokens, with the best so far.
pub open spec fn version_scan(b: Seq<u8>, i: int, best: (int, int, int)) -> (int, int, int)
    decreases b.len() - i,
{
    if i >= b.len() || i < 0 {
        best
    } else if !digit_byte(b[i]) {
        version_scan(b, i + 1, best)
    } else {
        let j = run_end(b, i + 1);
        proof {
            lemma_run_end(b, i + 1);
        }
        let run = ascii_chars(b.subrange(i, j));
        let dotted = run.contains('.');
        let v = run_version(run);
        version_scan(b, j, if (dotted || v.0 < 100) && version_gt(v, best) { v } else { best })
    }
}

/// The version a file name carries: the largest version-looking number in
/// it, where a number counts if it is dotted (`1.2`) or below 100 (so years
/// and title numbers like `2000` or `688` do not); `(0, 0, 0)` if none.
pub open spec fn version_key_of(name: Seq<u8>) -> (int, int, int) {
    version_scan(name, 0, (0, 0, 0))
}

pub proof fn lemma_run_end(b: Seq<u8>, i: int)
    requires
        0 <= i <= b.len(),
    ensures
        i <= run_end(b, i) <= b.len(),
        forall|k: int| i <= k < run_end(b, i) ==> digit_byte(#[trigger] b[k]) || b[k] == 0x2E,
    decreases b.len() - i,
{
    if i < b.len() && (digit_byte(b[i]) || b[i] == 0x2E) {
        lemma_run_end(b, i + 1);
    }
}

fn part_value(pieces: &Vec<String>, k: usize) -> (v: u32)
    ensures
        v as int == if k < pieces@.len() {
            match crate::text::parse_u64_spec(pieces@[k as int]@) {
                Some(x) => if x <= u32::MAX { x } else { 0 },
                None => 0,
            }
        } else {
            0
        },
{
    if k < pieces.len() {
        let c = chars_of(pieces[k].as_str());
        match crate::text::parse_u64(c.as_slice()) {
            Some(x) => if x <= 0xFFFF_FFFF { x as u32 } else { 0 },
            None => 0,
        }
    } else {
        0
    }
}

/// A comparable version key parsed from a file name.
pub fn version_key(name: &str) -> (r: (u32, u32, u32))
    ensures
        (r.0 as int, r.1 as int, r.2 as int) == version_key_of(name.spec_bytes()),
{
    let b = name.as_bytes();
    let n = b.len();
    let mut best: (u32, u32, u32) = (0, 0, 0);
    let mut i: usize = 0;
    while i < n
        invariant
            i <= n == b@.len(),
            b@ == name.spec_bytes(),
            version_key_of(b@) == version_scan(b@, i as int, (best.0 as int, best.1 as int, best.2 as int)),
        decreases n - i,
    {
        if !(0x30 <= b[i] && b[i] <= 0x39) {
            i = i + 1;
        } else {
            let start = i;
            let mut j = i + 1;
            let mut dotted = false;
            while j < n && ((0x30 <= b[j] && b[j] <= 0x39) || b[j] == 0x2E)
                invariant
                    start < j <= n == b@.len(),
                    run_end(b@, start + 1) == run_end(b@, j as int),
                    dotted == exists|k: int| start + 1 <= k < j && b@[k] == 0x2E,
                decreases n - j,
            {
                if b[j] == 0x2E {
                    dotted = true;
                }
                j = j + 1;
            }
            let mut run: Vec<char> = Vec::new();
            let mut q = start;
            while q < j
                invariant
                    start <= q <= j <= n == b@.len(),
                    run@ == ascii_chars(b@.subrange(start as int, q as int)),
                decreases j - q,
            {
                run.push(b[q] as char);
                q = q + 1;
                assert(run@ =~= ascii_chars(b@.subrange(start as int, q as int)));
            }
            let ghost rs = ascii_chars(b@.subrange(start as int, j as int));
            proof {
                assert(dotted == rs.contains('.')) by {
                    if dotted {
                        let k = choose|k: int| start + 1 <= k < j && b@[k] == 0x2E;
                        assert(rs[k - start] == '.');
                    }
                    if rs.contains('.') {
                        let k = choose|k: int| 0 <= k < rs.len() && rs[k] == '.';
                        assert(b@[start + k] as char == '.');
                        assert(b@[start + k] == 0x2E);
                        assert(k != 0);
                    }
                }
            }
            let rstr = string_from(run.as_slice());
            let pieces = crate::text::split_components(rstr.as_str(), '.');
            let v = (part_value(&pieces, 0), part_value(&pieces, 1), part_value(&pieces, 2));
            let gt = v.0 > best.0 || (v.0 == best.0 && (v.1 > best.1 || (v.1 == best.1 && v.2 > best.2)));
            if (dotted || v.0 < 100) && gt {
                best = v;
            }
            i = j;
        }
    }
    best
}

/// The HFS-safe app folder name of a title: letters, digits (Unicode) and
/// `-` kept, every other run between kept characters a single space, cut to
/// 31 characters and trimmed.
pub open spec fn folder_text(title: Seq<char>) -> Seq<char> {
    let s = folder_state(title).0;
    trim_seq(if s.len() > 31 { s.take(31) } else { s })
}

/// Building the folder name up to the end of `t`: output and pending space.
pub open spec fn folder_state(t: Seq<char>) -> (Seq<char>, bool)
    decreases t.len(),
{
    if t.len() == 0 {
        (Seq::empty(), false)
    } else {
        let (o, sp) = folder_state(t.drop_last());
        let c = t.last();
        if crate::text::alphanumeric(c) || c == '-' {
            ((if sp && o.len() > 0 { o.push(' ') } else { o }).push(c), false)
        } else {
            (o, true)
        }
    }
}

/// HFS-safe app folder name from a title.
pub fn folder_name(title: &str) -> (r: String)
    ensures
        r@ == folder_text(title@),
{
    let cs = chars_of(title);
    let mut s: Vec<char> = Vec::new();
    let mut sp = false;
    let mut i: usize = 0;
    while i < cs.len()
        invariant
            i <= cs@.len(),
            cs@ == title@,
            (s@, sp) == folder_state(cs@.take(i as int)),
        decreases cs@.len() - i,
    {
        assert(cs@.take(i as int + 1).drop_last() =~= cs@.take(i as int));
        let c = cs[i];
        if crate::text::is_alphanumeric(c) || c == '-' {
            if sp && s.len() > 0 {
                s.push(' ');
            }
            s.push(c);
            sp = false;
        } else {
            sp = true;
        }
        i = i + 1;
    }
    assert(cs@.take(cs@.len() as int) =~= cs@);
    let n = if s.len() > 31 { 31 } else { s.len() };
    let head = vstd::slice::slice_subrange(s.as_slice(), 0, n);
    assert(head@ =~= (if s@.len() > 31 { s@.take(31) } else { s@ }));
    string_from(trim_chars(head).as_slice())
}

/// Percent-encoding of one byte of a URL path segment: the unreserved set
/// (`A-Z a-z 0-9 - _ . ~`) as is, everything else `%XX` (uppercase hex).
pub open spec fn url_byte(b: u8) -> Seq<char> {
    if (0x41 <= b <= 0x5A) || (0x61 <= b <= 0x7A) || (0x30 <= b <= 0x39) || b == 0x2D || b == 0x5F
        || b == 0x2E || b == 0x7E {
        seq![b as char]
    } else {
        seq!['%', hex_upper(b as int / 16), hex_upper(b as int % 16)]
    }
}

/// An uppercase hex digit.
pub open spec fn hex_upper(v: int) -> char {
    if v < 10 { (v + 48) as char } else { (v - 10 + 65) as char }
}

/// The percent-encoding of the bytes `b`.
pub open spec fn url_encoded(b: Seq<u8>) -> Seq<char>
    decreases b.len(),
{
    if b.len() == 0 { Seq::empty() } else { url_encoded(b.drop_last()) + url_byte(b.last()) }
}

fn hex_char(v: u8) -> (c: char)
    requires
        v < 16,
    ensures
        c == hex_upper(v as int),
{
    if v < 10 { (v + 48) as char } else { (v - 10 + 65) as char }
}

/// Minimal percent-encoding for a URL path segment.
pub fn urlencode(s: &str) -> (r: String)
    ensures
        r@ == url_encoded(s.spec_bytes()),
{
    let b = s.as_bytes();
    let mut out = String::new();
    let mut i: usize = 0;
    while i < b.len()
        invariant
            i <= b@.len(),
            out@ == url_encoded(b@.take(i as int)),
        decreases b@.len() - i,
    {
        assert(b@.take(i as int + 1).drop_last() =~= b@.take(i as int));
        let x = b[i];
        if (0x41 <= x && x <= 0x5A) || (0x61 <= x && x <= 0x7A) || (0x30 <= x && x <= 0x39) || x == 0x2D
            || x == 0x5F || x == 0x2E || x == 0x7E {
            push_char(&mut out, x as char);
        } else {
            push_char(&mut out, '%');
            push_char(&mut out, hex_char(x / 16));
            push_char(&mut out, hex_char(x % 16));
        }
        i = i + 1;
        assert(out@ =~= url_encoded(b@.take(i as int)));
    }
    assert(b@.take(b@.len() as int) =~= b@);
    out
}


/// The rank of a candidate download: real software over an updater or demo,
/// then the newer version, then a real archive over a single-file form.
pub open spec fn file_key(name: Seq<char>, k: Kind) -> (int, (int, int, int), int) {
    (
        if aux_name(name) { 0int } else { 1int },
        version_key_of(vstd::utf8::encode_utf8(name)),
        if k is Archive { 1int } else { 0int },
    )
}

pub open spec fn file_key_gt(a: (int, (int, int, int), int), b: (int, (int, int, int), int)) -> bool {
    a.0 > b.0 || (a.0 == b.0 && (version_gt(a.1, b.1) || (a.1 == b.1 && a.2 > b.2)))
}

/// Among the first `k` listed files, the index of the first best-ranked one
/// that can be installed.
pub open spec fn best_file(files: Seq<Seq<char>>, k: int) -> Option<int>
    decreases k,
{
    if k <= 0 {
        None
    } else {
        let p = best_file(files, k - 1);
        match kind_of_name(files[k - 1]) {
            None => p,
            Some(kd) => match p {
                None => Some(k - 1),
                Some(b) => if file_key_gt(file_key(files[k - 1], kd), file_key(files[b], kind_of_name(files[b]).unwrap())) {
                    Some(k - 1)
                } else {
                    Some(b)
                },
            },
        }
    }
}

/// The allowed names, in their order, that the record lists and that can be
/// installed, with their kinds (the first `k` of them).
pub open spec fn allowed_picks(files: Seq<Seq<char>>, allowed: Seq<Seq<char>>, k: int) -> Seq<(Seq<char>, Kind)>
    decreases k,
{
    if k <= 0 {
        Seq::empty()
    } else {
        let p = allowed_picks(files, allowed, k - 1);
        let n = allowed[k - 1];
        if files.contains(n) && kind_of_name(n) is Some { p.push((n, kind_of_name(n).unwrap())) } else { p }
    }
}

/// Which downloads to fetch for a record listing `files`: with an explicit
/// pick list, each picked name the record lists and that can be installed,
/// in the pick order; otherwise the single best-ranked installable file.
pub open spec fn picked_files(files: Seq<Seq<char>>, allowed: Seq<Seq<char>>) -> Seq<(Seq<char>, Kind)> {
    if allowed.len() > 0 {
        allowed_picks(files, allowed, allowed.len() as int)
    } else {
        match best_file(files, files.len() as int) {
            Some(b) => seq![(files[b], kind_of_name(files[b]).unwrap())],
            None => Seq::empty(),
        }
    }
}

/// The texts of a list of strings.
pub open spec fn texts(v: Seq<String>) -> Seq<Seq<char>> {
    v.map_values(|s: String| s@)
}

fn listed(files: &Vec<String>, n: &str) -> (r: bool)
    ensures
        r == texts(files@).contains(n@),
{
    let mut i: usize = 0;
    while i < files.len()
        invariant
            i <= files@.len(),
            forall|k: int| 0 <= k < i ==> (#[trigger] files@[k])@ != n@,
        decreases files@.len() - i,
    {
        if same_str(files[i].as_str(), n) {
            assert(texts(files@)[i as int] == n@);
            return true;
        }
        i = i + 1;
    }
    proof {
        if texts(files@).contains(n@) {
            let k = choose|k: int| 0 <= k < texts(files@).len() && texts(files@)[k] == n@;
            assert(files@[k]@ == n@);
        }
    }
    false
}

fn key_of_file(name: &str, k: Kind) -> (r: (u8, (u32, u32, u32), u8))
    ensures
        (r.0 as int, (r.1.0 as int, r.1.1 as int, r.1.2 as int), r.2 as int) == file_key(name@, k),
{
    let v = version_key(name);
    (if is_aux_name(name) { 0 } else { 1 }, v, if k == Kind::Archive { 1 } else { 0 })
}

/// Resolve which downloads to fetch for a record, best first. `files` are
/// the file names the record lists; `allowed` is the explicit pick list
/// (empty for an automatic pick).
pub fn pick_file(files: &Vec<String>, allowed: &Vec<String>) -> (r: Vec<(String, Kind)>)
    ensures
        r@.map_values(|p: (String, Kind)| (p.0@, p.1)) == picked_files(texts(files@), texts(allowed@)),
{
    let ghost fs = texts(files@);
    let ghost al = texts(allowed@);
    if allowed.len() > 0 {
        let mut out: Vec<(String, Kind)> = Vec::new();
        let mut k: usize = 0;
        while k < allowed.len()
            invariant
                k <= allowed@.len(),
                fs == texts(files@),
                al == texts(allowed@),
                out@.map_values(|p: (String, Kind)| (p.0@, p.1)) == allowed_picks(fs, al, k as int),
            decreases allowed@.len() - k,
        {
            let n = allowed[k].as_str();
            assert(al[k as int] == n@);
            if listed(files, n) {
                match classify(n) {
                    Some(kd) => out.push((allowed[k].clone(), kd)),
                    None => {},
                }
            }
            assert(out@.map_values(|p: (String, Kind)| (p.0@, p.1)) =~= allowed_picks(fs, al, k + 1));
            k = k + 1;
        }
        return out;
    }
    let mut best: Option<usize> = None;
    let mut best_kind: Kind = Kind::Archive;
    let mut best_key: (u8, (u32, u32, u32), u8) = (0, (0, 0, 0), 0);
    let mut i: usize = 0;
    while i < files.len()
        invariant
            i <= files@.len(),
            fs == texts(files@),
            match best {
                Some(b) => best_file(fs, i as int) == Some(b as int) && b < i
                    && kind_of_name(fs[b as int]) == Some(best_kind)
                    && (best_key.0 as int, (best_key.1.0 as int, best_key.1.1 as int, best_key.1.2 as int), best_key.2 as int)
                        == file_key(fs[b as int], best_kind),
                None => best_file(fs, i as int) is None,
            },
        decreases files@.len() - i,
    {
        let name = files[i].as_str();
        assert(fs[i as int] == name@);
        match classify(name) {
            None => {},
            Some(kd) => {
                let key = key_of_file(name, kd);
                let gt = key.0 > best_key.0 || (key.0 == best_key.0 && ((key.1.0 > best_key.1.0
                    || (key.1.0 == best_key.1.0 && (key.1.1 > best_key.1.1 || (key.1.1 == best_key.1.1
                    && key.1.2 > best_key.1.2)))) || (key.1.0 == best_key.1.0 && key.1.1 == best_key.1.1 && key.1.2 == best_key.1.2 && key.2 > best_key.2)));
                if best.is_none() || gt {
                    best = Some(i);
                    best_kind = kd;
                    best_key = key;
                }
            },
        }
        i = i + 1;
    }
    let mut out: Vec<(String, Kind)> = Vec::new();
    match best {
        Some(b) => {
            out.push((files[b].clone(), best_kind));
        },
        None => {},
    }
    assert(out@.map_values(|p: (String, Kind)| (p.0@, p.1)) =~= picked_files(fs, al));
    out
}

/// Length of the common leading run of the UTF-8 bytes of two strings.
pub fn common_prefix_len(a: &str, b: &str) -> (r: usize)
    ensures
        r == common_prefix(a.spec_bytes(), b.spec_bytes()),
{
    crate::harvest::common_prefix_len(a, b)
}

/// How well an app's leaf name fits a title: shared slug prefix, then (shorter
/// is better) the negated byte length.
pub open spec fn appl_fit(name: Seq<char>, tslug: Seq<char>) -> (int, int) {
    (common_prefix(vstd::utf8::encode_utf8(slug(name)), vstd::utf8::encode_utf8(tslug)),
        -(vstd::utf8::encode_utf8(name).len() as int))
}

pub open spec fn fit_ge(a: (int, int), b: (int, int)) -> bool {
    a.0 > b.0 || (a.0 == b.0 && a.1 >= b.1)
}

/// The applications considered: those not named `Finder`, or all of them
/// when every one is.
pub open spec fn appl_pool(appls: Seq<(Seq<char>, Seq<char>)>) -> Seq<int> {
    let named = pool_upto(appls, appls.len() as int);
    if named.len() > 0 { named } else { Seq::new(appls.len(), |i: int| i) }
}

pub open spec fn pool_upto(appls: Seq<(Seq<char>, Seq<char>)>, k: int) -> Seq<int>
    decreases k,
{
    if k <= 0 {
        Seq::empty()
    } else {
        let p = pool_upto(appls, k - 1);
        if appls[k - 1].1 != "Finder"@ { p.push(k - 1) } else { p }
    }
}

/// The position in `pool[..k]` of the last entry with the greatest fit.
pub open spec fn last_best(appls: Seq<(Seq<char>, Seq<char>)>, pool: Seq<int>, tslug: Seq<char>, k: int) -> int
    decreases k,
{
    if k <= 1 {
        0
    } else {
        let b = last_best(appls, pool, tslug, k - 1);
        if fit_ge(appl_fit(appls[pool[k - 1]].1, tslug), appl_fit(appls[pool[b]].1, tslug)) { k - 1 } else { b }
    }
}

/// The launch target among `(path, leaf name)` applications: skipping a
/// bundled Finder, the one whose leaf name shares the longest slug prefix
/// with the title, then the shorter name, the last such on a full tie.
pub open spec fn picked_appl_path(appls: Seq<(Seq<char>, Seq<char>)>, title: Seq<char>) -> Option<Seq<char>> {
    if appls.len() == 0 {
        None
    } else {
        let pool = appl_pool(appls);
        Some(appls[pool[last_best(appls, pool, slug(title), pool.len() as int)]].0)
    }
}

pub open spec fn pair_texts(v: Seq<(String, String)>) -> Seq<(Seq<char>, Seq<char>)> {
    v.map_values(|p: (String, String)| (p.0@, p.1@))
}

proof fn lemma_pool(appls: Seq<(Seq<char>, Seq<char>)>, k: int)
    requires
        0 <= k <= appls.len(),
    ensures
        forall|j: int| 0 <= j < pool_upto(appls, k).len() ==> 0 <= #[trigger] pool_upto(appls, k)[j] < k,
    decreases k,
{
    if k > 0 {
        lemma_pool(appls, k - 1);
        let p = pool_upto(appls, k - 1);
        assert forall|j: int| 0 <= j < pool_upto(appls, k).len() implies 0 <= #[trigger] pool_upto(appls, k)[j] < k by {
            if j < p.len() {
                assert(pool_upto(appls, k)[j] == p[j]);
            }
        }
    }
}

proof fn lemma_last_best(appls: Seq<(Seq<char>, Seq<char>)>, pool: Seq<int>, tslug: Seq<char>, k: int)
    requires
        1 <= k,
    ensures
        0 <= last_best(appls, pool, tslug, k) < k,
    decreases k,
{
    if k > 1 {
        lemma_last_best(appls, pool, tslug, k - 1);
    }
}

/// Pick the launch-target application path for a title.
pub fn pick_appl_path(appls: &Vec<(String, String)>, title: &str) -> (r: Option<String>)
    ensures
        match (r, picked_appl_path(pair_texts(appls@), title@)) {
            (Some(p), Some(q)) => p@ == q,
            (None, None) => true,
            _ => false,
        },
{
    let ghost ap = pair_texts(appls@);
    if appls.len() == 0 {
        return None;
    }
    let tslug = slugify(title);
    let mut pool: Vec<usize> = Vec::new();
    let mut i: usize = 0;
    while i < appls.len()
        invariant
            i <= appls@.len(),
            ap == pair_texts(appls@),
            pool@.len() == pool_upto(ap, i as int).len(),
            forall|j: int| 0 <= j < pool@.len() ==> (#[trigger] pool@[j]) as int == pool_upto(ap, i as int)[j],
        decreases appls@.len() - i,
    {
        assert(ap[i as int].1 == appls@[i as int].1@);
        if !same_str(appls[i].1.as_str(), "Finder") {
            pool.push(i);
        }
        i = i + 1;
    }
    proof {
        lemma_pool(ap, ap.len() as int);
    }
    if pool.len() == 0 {
        let mut j: usize = 0;
        while j < appls.len()
            invariant
                j <= appls@.len(),
                pool@.len() == j,
                forall|q: int| 0 <= q < j ==> (#[trigger] pool@[q]) as int == q,
            decreases appls@.len() - j,
        {
            pool.push(j);
            j = j + 1;
        }
    }
    let ghost gp = appl_pool(ap);
    assert(pool@.len() == gp.len());
    assert(forall|q: int| 0 <= q < pool@.len() ==> (#[trigger] pool@[q]) as int == gp[q]);
    let mut b: usize = 0;
    let first = pool[0];
    let mut bfit = (common_prefix_len(slugify(appls[first].1.as_str()).as_str(), tslug.as_str()),
        appls[first].1.as_str().as_bytes().len());
    let mut k: usize = 1;
    while k < pool.len()
        invariant
            1 <= k <= pool@.len(),
            ap == pair_texts(appls@),
            pool@.len() == gp.len(),
            forall|q: int| 0 <= q < pool@.len() ==> (#[trigger] pool@[q]) as int == gp[q],
            forall|q: int| 0 <= q < pool@.len() ==> (#[trigger] pool@[q]) < appls@.len(),
            b as int == last_best(ap, gp, tslug@, k as int),
            b < k,
            bfit.0 as int == appl_fit(ap[gp[b as int]].1, tslug@).0,
            -(bfit.1 as int) == appl_fit(ap[gp[b as int]].1, tslug@).1,
        decreases pool@.len() - k,
    {
        let idx = pool[k];
        let nm = appls[idx].1.as_str();
        let f = (common_prefix_len(slugify(nm).as_str(), tslug.as_str()), nm.as_bytes().len());
        if f.0 > bfit.0 || (f.0 == bfit.0 && f.1 <= bfit.1) {
            b = k;
            bfit = f;
        }
        k = k + 1;
    }
    proof {
        lemma_last_best(ap, gp, tslug@, gp.len() as int);
    }
    Some(appls[pool[b]].0.clone())
}

/// What to do with one entry while walking a folder tree for applications.
pub enum WalkStep {
    /// Leave it out (a name holding `/` cannot be addressed by this walk).
    Skip,
    /// Walk into the sub-folder at this path.
    Enter(String),
    /// An application at this path, with its leaf name.
    Appl(String, String),
}

/// The step for entry `e` of the folder at `dir`.
pub open spec fn walk_step(e: Entry, dir: Seq<char>) -> (int, Seq<char>) {
    let p = crate::harvest::join(crate::rbcli::trim_slashes_end(dir), e.name@);
    if e.name@.contains('/') {
        (0, Seq::empty())
    } else if e.is_dir {
        (1, p)
    } else if e.ostype@ == "APPL"@ {
        (2, p)
    } else {
        (0, Seq::empty())
    }
}

/// Decide what to do with one entry while collecting the applications under
/// a folder.
pub fn collect_appls(e: &Entry, dir: &str) -> (r: WalkStep)
    ensures
        match r {
            WalkStep::Skip => walk_step(*e, dir@).0 == 0,
            WalkStep::Enter(p) => walk_step(*e, dir@) == (1int, p@),
            WalkStep::Appl(p, n) => walk_step(*e, dir@) == (2int, p@) && n@ == e.name@,
        },
{
    let nc = chars_of(e.name.as_str());
    let mut i: usize = 0;
    while i < nc.len()
        invariant
            i <= nc@.len(),
            nc@ == e.name@,
            forall|k: int| 0 <= k < i ==> nc@[k] != '/',
        decreases nc@.len() - i,
    {
        if nc[i] == '/' {
            return WalkStep::Skip;
        }
        i = i + 1;
    }
    let mut p = crate::text::trim_end_slashes_str(dir);
    push_char(&mut p, '/');
    crate::text::append(&mut p, e.name.as_str());
    if e.is_dir {
        WalkStep::Enter(p)
    } else if same_str(e.ostype.as_str(), "APPL") {
        WalkStep::Appl(p, e.name.clone())
    } else {
        WalkStep::Skip
    }
}

} // verus!
