//! Importing a hand-made capture of an already-installed app: which of the
//! expanded files launches the title, where each file lands on the volume,
//! and what a BinHex header names a file. Expanding archives, walking the
//! staging folder and running `rb-cli` are the caller's part.

use crate::fetch::{folder_name, folder_text};
use crate::harvest::{installer_name, is_installer_name};
use crate::rbcli::trim_slashes_end;
use crate::text::{
    append, chars_of, contains_chars, contains_seq, occurs_at, pieces, same_str, split_pieces, starts_with_chars,
    string_from, to_lower, trim_end_slashes_str, unicode_lower,
};
use vstd::prelude::*;

verus! {

/// One file expanded out of a capture, ready to inject.
#[derive(Debug, Clone, PartialEq)]
pub struct StagedFile {
    /// The `.hqx` on the host.
    pub host: String,
    /// Directory under the apps root, `/`-separated ("" = the apps root).
    pub rel_dir: String,
    /// The file's real Mac name, from the BinHex header.
    pub mac_name: String,
    /// HFS type code, e.g. `APPL`.
    pub ostype: String,
}

/// A capture expanded into a staging folder and ready to be recorded.
#[derive(Debug, Clone)]
pub struct StagedImport {
    /// Slug id derived from the title.
    pub id: String,
    /// Display name (the archive's top folder, else its file name stem).
    pub name: String,
    /// The on-volume folder the files land in, HFS-safe and at most 31 characters.
    pub folder: String,
    /// Every expanded fork.
    pub files: Vec<StagedFile>,
    /// The launch app's path relative to the volume's MacAtrium folder.
    pub app_rel: String,
    /// Host staging dir holding the expanded forks.
    pub dir: String,
    /// Files whose Mac name the host could not hold, as `(mac_name, host_name)`.
    pub renamed: Vec<(String, String)>,
}

/// What one import run produced.
#[derive(Debug, Default)]
pub struct ImportReport {
    /// `(id, name, file count)` per imported capture.
    pub imported: Vec<(String, String, usize)>,
    /// `(archive, error)` for captures that failed.
    pub failed: Vec<(String, String)>,
    /// `(id, mac_name, host_name)` of files the host renamed.
    pub renamed: Vec<(String, String, String)>,
}

/// `rel` without its first `/`-separated component.
pub open spec fn without_top(rel: Seq<char>) -> Seq<char> {
    let p = pieces(rel, '/');
    if p.len() <= 1 {
        Seq::empty()
    } else {
        rel.skip(p[0].len() as int + 1)
    }
}

proof fn lemma_first_piece(s: Seq<char>, i: int)
    requires
        0 <= i <= s.len(),
        forall|k: int| 0 <= k < i ==> s[k] != '/',
    ensures
        pieces(s.take(i), '/').len() == 1,
        pieces(s.take(i), '/')[0] == s.take(i),
    decreases i,
{
    if i > 0 {
        lemma_first_piece(s, i - 1);
        assert(s.take(i).drop_last() =~= s.take(i - 1));
    } else {
        assert(s.take(0) =~= Seq::<char>::empty());
    }
}

proof fn lemma_pieces_extend(s: Seq<char>, i: int)
    requires
        0 <= i < s.len(),
        pieces(s.take(i + 1), '/').len() >= 2,
    ensures
        pieces(s, '/').len() >= 2,
        pieces(s, '/')[0] == pieces(s.take(i + 1), '/')[0],
    decreases s.len() - i,
{
    if i + 1 < s.len() {
        assert(s.take(i + 2).drop_last() =~= s.take(i + 1));
        lemma_pieces_extend(s, i + 1);
    } else {
        assert(s.take(i + 1) =~= s);
    }
}

/// Drop the first path component (the archive's own wrapper folder).
pub fn strip_top(rel: &str) -> (r: String)
    ensures
        r@ == without_top(rel@),
{
    let cs = chars_of(rel);
    let mut i: usize = 0;
    while i < cs.len() && cs[i] != '/'
        invariant
            i <= cs@.len(),
            cs@ == rel@,
            forall|k: int| 0 <= k < i ==> cs@[k] != '/',
        decreases cs@.len() - i,
    {
        i = i + 1;
    }
    proof {
        lemma_first_piece(cs@, i as int);
    }
    if i == cs.len() {
        proof {
            assert(cs@.take(i as int) =~= cs@);
        }
        return String::new();
    }
    proof {
        assert(cs@.take(i + 1).drop_last() =~= cs@.take(i as int));
        assert(pieces(cs@.take(i + 1), '/') == pieces(cs@.take(i as int), '/').push(Seq::empty()));
        lemma_pieces_extend(cs@, i as int);
    }
    let mut out: Vec<char> = Vec::new();
    let mut k: usize = i + 1;
    while k < cs.len()
        invariant
            i < k <= cs@.len(),
            out@ == cs@.subrange(i + 1, k as int),
        decreases cs@.len() - k,
    {
        out.push(cs[k]);
        k = k + 1;
        assert(out@ =~= cs@.subrange(i + 1, k as int));
    }
    assert(cs@.skip(i + 1) =~= cs@.subrange(i + 1, cs@.len() as int));
    string_from(out.as_slice())
}

/// How many times `c` occurs in `s`.
pub open spec fn count_of(s: Seq<char>, c: char) -> int
    decreases s.len(),
{
    if s.len() == 0 {
        0
    } else {
        count_of(s.drop_last(), c) + if s.last() == c { 1int } else { 0int }
    }
}

fn count_exec(s: &str, c: char) -> (r: usize)
    ensures
        r == count_of(s@, c),
{
    let cs = chars_of(s);
    let mut n: usize = 0;
    let mut i: usize = 0;
    while i < cs.len()
        invariant
            i <= cs@.len(),
            cs@ == s@,
            n == count_of(cs@.take(i as int), c),
            n <= i,
        decreases cs@.len() - i,
    {
        assert(cs@.take(i + 1).drop_last() =~= cs@.take(i as int));
        if cs[i] == c {
            n = n + 1;
        }
        i = i + 1;
    }
    assert(cs@.take(i as int) =~= cs@);
    n
}

/// How well a file name matches the title (both lowercased): 3 the same,
/// 2 one a prefix of the other, 1 one inside the other, else 0.
pub open spec fn name_match(n: Seq<char>, want: Seq<char>) -> int {
    if n == want {
        3
    } else if occurs_at(want, n, 0) || occurs_at(n, want, 0) {
        2
    } else if contains_seq(n, want) || contains_seq(want, n) {
        1
    } else {
        0
    }
}

/// The preference key of an application file: a real app over an
/// installer, then the title match, then the shallower path.
pub open spec fn launch_key(f: StagedFile, title: Seq<char>) -> (int, int, int) {
    (
        if installer_name(f.mac_name@) { 0 } else { 1 },
        name_match(unicode_lower(f.mac_name@), unicode_lower(title)),
        10 - count_of(f.rel_dir@, '/'),
    )
}

/// `a` is below `b` in the lexicographic order of keys.
pub open spec fn key_below(a: (int, int, int), b: (int, int, int)) -> bool {
    a.0 < b.0 || (a.0 == b.0 && (a.1 < b.1 || (a.1 == b.1 && a.2 < b.2)))
}

/// The file is an application.
pub open spec fn is_appl(f: StagedFile) -> bool {
    f.ostype@ == "APPL"@
}

/// Index `i` is the launch app: an application whose key no application
/// beats, and the last of any with the same key.
pub open spec fn is_launch_pick(files: Seq<StagedFile>, title: Seq<char>, i: int) -> bool {
    &&& 0 <= i < files.len()
    &&& is_appl(files[i])
    &&& forall|j: int| 0 <= j < files.len() && is_appl(#[trigger] files[j]) ==> !key_below(launch_key(files[i], title), launch_key(files[j], title))
    &&& forall|j: int| i < j < files.len() && is_appl(#[trigger] files[j]) ==> key_below(launch_key(files[j], title), launch_key(files[i], title))
}

fn key_of(f: &StagedFile, want: &Vec<char>, Ghost(title): Ghost<Seq<char>>) -> (r: (u8, u8, usize))
    requires
        want@ == unicode_lower(title),
    ensures
        r.0 == launch_key(*f, title).0,
        r.1 == launch_key(*f, title).1,
        10 - r.2 == launch_key(*f, title).2,
{
    let n = chars_of(to_lower(f.mac_name.as_str()).as_str());
    let m: u8 = if crate::text::seq_eq(n.as_slice(), want.as_slice()) {
        3
    } else if starts_with_chars(want.as_slice(), n.as_slice()) || starts_with_chars(n.as_slice(), want.as_slice()) {
        2
    } else if contains_chars(n.as_slice(), want.as_slice()) || contains_chars(want.as_slice(), n.as_slice()) {
        1
    } else {
        0
    };
    let ni: u8 = if is_installer_name(f.mac_name.as_str()) { 0 } else { 1 };
    (ni, m, count_exec(f.rel_dir.as_str(), '/'))
}

/// `a` is below `b`, on keys whose third part counts separators (fewer is higher).
fn below(a: (u8, u8, usize), b: (u8, u8, usize)) -> (r: bool)
    ensures
        r == key_below((a.0 as int, a.1 as int, 10 - a.2), (b.0 as int, b.1 as int, 10 - b.2)),
{
    a.0 < b.0 || (a.0 == b.0 && (a.1 < b.1 || (a.1 == b.1 && a.2 > b.2)))
}

/// Choose the launchable app among the staged files: the files of type
/// `APPL`, a real app over an installer, then the best title match, then the
/// shallowest path (the last of equals); `None` where no file is an
/// application.
pub fn pick_launch_app(files: &Vec<StagedFile>, title: &str) -> (r: Option<usize>)
    ensures
        match r {
            Some(i) => is_launch_pick(files@, title@, i as int),
            None => forall|j: int| 0 <= j < files@.len() ==> !is_appl(#[trigger] files@[j]),
        },
{
    let want = chars_of(to_lower(title).as_str());
    let ghost t = title@;
    let mut best: Option<usize> = None;
    let mut best_key: (u8, u8, usize) = (0, 0, 0);
    let mut i: usize = 0;
    proof {
        reveal_strlit("APPL");
    }
    while i < files.len()
        invariant
            i <= files@.len(),
            want@ == unicode_lower(t),
            t == title@,
            match best {
                Some(b) => {
                    &&& b < i
                    &&& is_appl(files@[b as int])
                    &&& launch_key(files@[b as int], t) == (best_key.0 as int, best_key.1 as int, 10 - best_key.2)
                    &&& forall|j: int| 0 <= j < i && is_appl(#[trigger] files@[j]) ==> !key_below(launch_key(files@[b as int], t), launch_key(files@[j], t))
                    &&& forall|j: int| b < j < i && is_appl(#[trigger] files@[j]) ==> key_below(launch_key(files@[j], t), launch_key(files@[b as int], t))
                },
                None => forall|j: int| 0 <= j < i ==> !is_appl(#[trigger] files@[j]),
            },
        decreases files@.len() - i,
    {
        if same_str(files[i].ostype.as_str(), "APPL") {
            let k = key_of(&files[i], &want, Ghost(t));
            let take = match best {
                Some(_) => !below(k, best_key),
                None => true,
            };
            if take {
                best = Some(i);
                best_key = k;
            }
        }
        i = i + 1;
    }
    best
}

/// The top folder a staged layout names: the first non-empty first
/// component of a file's directory.
pub open spec fn top_of(files: Seq<StagedFile>) -> Option<Seq<char>>
    decreases files.len(),
{
    if files.len() == 0 {
        None
    } else {
        let p = pieces(files[0].rel_dir@, '/')[0];
        if p.len() > 0 { Some(p) } else { top_of(files.drop_first()) }
    }
}

proof fn lemma_pieces_len(s: Seq<char>)
    ensures
        pieces(s, '/').len() >= 1,
    decreases s.len(),
{
    if s.len() > 0 {
        lemma_pieces_len(s.drop_last());
    }
}

fn top_exec(files: &Vec<StagedFile>) -> (r: Option<String>)
    ensures
        match top_of(files@) {
            Some(p) => r matches Some(x) && x@ == p,
            None => r is None,
        },
{
    let mut i: usize = 0;
    assert(files@.skip(0) =~= files@);
    while i < files.len()
        invariant
            i <= files@.len(),
            top_of(files@) == top_of(files@.skip(i as int)),
        decreases files@.len() - i,
    {
        let ps = split_pieces(files[i].rel_dir.as_str(), '/');
        proof {
            lemma_pieces_len(files@[i as int].rel_dir@);
            assert(files@.skip(i as int)[0] == files@[i as int]);
            assert(files@.skip(i as int).drop_first() =~= files@.skip(i + 1));
        }
        if ps[0].len() > 0 {
            return Some(string_from(ps[0].as_slice()));
        }
        i = i + 1;
    }
    None
}

/// Why a staged capture cannot be injected.
#[derive(Debug, Clone)]
pub enum ImportError {
    /// The staging folder holds no importable file.
    NothingStaged { dir: String },
}

impl ImportError {
    /// The message shown to the user.
    pub fn message(&self) -> (r: String)
        ensures
            match self {
                ImportError::NothingStaged { dir } => r@ == "no importable files under "@ + dir@,
            },
    {
        match self {
            ImportError::NothingStaged { dir } => {
                let mut m = "no importable files under ".to_owned();
                append(&mut m, dir.as_str());
                m
            },
        }
    }
}

/// Where one staged file lands: `<apps_root>/<folder>[/<inner>]`, the apps
/// root without trailing `/` and `inner` its directory below the wrapper.
pub open spec fn landing_dir(apps_root: Seq<char>, folder: Seq<char>, rel_dir: Seq<char>) -> Seq<char> {
    let base = trim_slashes_end(apps_root) + "/"@ + folder;
    let inner = without_top(rel_dir);
    if inner.len() == 0 { base } else { base + "/"@ + inner }
}

/// The directory each staged file is written to, in file order.
pub fn inject_plan(s: &StagedImport, apps_root: &str) -> (r: Vec<String>)
    ensures
        r@.len() == s.files@.len(),
        forall|k: int| 0 <= k < r@.len() ==> (#[trigger] r@[k])@ == landing_dir(apps_root@, s.folder@, s.files@[k].rel_dir@),
{
    let root = trim_end_slashes_str(apps_root);
    let mut out: Vec<String> = Vec::new();
    let mut k: usize = 0;
    while k < s.files.len()
        invariant
            k <= s.files@.len(),
            root@ == trim_slashes_end(apps_root@),
            out@.len() == k,
            forall|x: int| 0 <= x < k ==> (#[trigger] out@[x])@ == landing_dir(apps_root@, s.folder@, s.files@[x].rel_dir@),
        decreases s.files@.len() - k,
    {
        let inner = strip_top(s.files[k].rel_dir.as_str());
        let mut d = root.clone();
        append(&mut d, "/");
        append(&mut d, s.folder.as_str());
        let n = chars_of(inner.as_str()).len();
        if n > 0 {
            append(&mut d, "/");
            append(&mut d, inner.as_str());
        }
        out.push(d);
        k = k + 1;
    }
    out
}

/// Lay out a previously staged capture for injection, from what walking its
/// folder found: the files (in walk order), the host renames, the folder's
/// own path and name. The display name is the layout's top folder, else the
/// folder's name; the on-volume folder is its HFS-safe form. An empty staging
/// folder is an error, not a silent no-op.
pub fn inject_staged(dir: &str, dir_name: &str, files: Vec<StagedFile>, renamed: Vec<(String, String)>) -> (r: Result<
    StagedImport,
    ImportError,
>)
    ensures
        files@.len() == 0 <==> r is Err,
        r matches Err(ImportError::NothingStaged { dir: d }) ==> d@ == dir@,
        r matches Ok(s) ==> ({
            let name = match top_of(files@) {
                Some(t) => t,
                None => dir_name@,
            };
            &&& s.name@ == name
            &&& s.folder@ == folder_text(name)
            &&& s.files@ == files@
            &&& s.renamed@ == renamed@
            &&& s.dir@ == dir@
            &&& s.id@.len() == 0
            &&& s.app_rel@.len() == 0
        }),
{
    if files.len() == 0 {
        return Err(ImportError::NothingStaged { dir: dir.to_owned() });
    }
    let name = match top_exec(&files) {
        Some(t) => t,
        None => dir_name.to_owned(),
    };
    let folder = folder_name(name.as_str());
    Ok(StagedImport {
        id: String::new(),
        name,
        folder,
        files,
        app_rel: String::new(),
        dir: dir.to_owned(),
        renamed,
    })
}

} // verus!

verus! {

// ---- the BinHex header ---------------------------------------------------------

/// `2^k` for a small `k`.
pub open spec fn pow2_small(k: int) -> int
    decreases k,
{
    if k <= 0 { 1 } else { 2 * pow2_small(k - 1) }
}

/// The decoder's state: pending bits (value, count), bytes out, the last
/// byte out, whether a run marker waits for its count, whether it stopped.
pub type HeaderState = (int, int, Seq<u8>, Option<u8>, bool, bool);

/// A byte of the 8-bit stream, through the run-length coding: 0x90 marks a
/// run, a count after it repeats the last byte that many times in all (zero
/// stands for a literal 0x90).
pub open spec fn rle_byte(out: Seq<u8>, prev: Option<u8>, in_run: bool, b: u8) -> (Seq<u8>, Option<u8>, bool) {
    if in_run {
        if b == 0 {
            (out.push(0x90u8), Some(0x90u8), false)
        } else {
            match prev {
                Some(p) => (out + Seq::new((b - 1) as nat, |i: int| p), prev, false),
                None => (out, prev, false),
            }
        }
    } else if b == 0x90 {
        (out, prev, true)
    } else {
        (out.push(b), Some(b), false)
    }
}

/// One character of the BinHex text read: `:` ends the payload, a character
/// outside the alphabet (a line break) is skipped, a symbol adds six bits,
/// and each full byte goes through the run-length coding; reading stops once
/// 160 bytes are out, enough for any header the caller reads.
pub open spec fn header_step(st: HeaderState, c: u8) -> HeaderState {
    let (acc, nb, out, prev, in_run, done) = st;
    if done {
        st
    } else if c == 0x3A {
        (acc, nb, out, prev, in_run, true)
    } else {
        match crate::icons::hqx_value(c) {
            None => st,
            Some(v) => {
                let a = acc * 64 + v;
                let n = nb + 6;
                if n >= 8 {
                    let (o2, p2, r2) = rle_byte(out, prev, in_run, (a / pow2_small(n - 8)) as u8);
                    (a % pow2_small(n - 8), n - 8, o2, p2, r2, o2.len() >= 160)
                } else {
                    (a, n, out, prev, in_run, out.len() >= 160)
                }
            },
        }
    }
}

/// The state after reading the first `k` characters of `t`.
pub open spec fn header_state(t: Seq<u8>, k: int) -> HeaderState
    decreases k,
{
    if k <= 0 { (0, 0, Seq::empty(), None, false, false) } else { header_step(header_state(t, k - 1), t[k - 1]) }
}

/// The first `:` of `b`.
pub open spec fn first_colon_at(b: Seq<u8>, k: int) -> Option<int>
    decreases k,
{
    if k <= 0 {
        None
    } else {
        match first_colon_at(b, k - 1) {
            Some(i) => Some(i),
            None => if b[k - 1] == 0x3A { Some(k - 1) } else { None },
        }
    }
}

/// The start of a BinHex file's decoded stream, as far as the header needs:
/// the bytes decoded from the payload after the first `:`.
pub open spec fn header_bytes(raw: Seq<u8>) -> Option<Seq<u8>> {
    match first_colon_at(raw, raw.len() as int) {
        Some(i) => {
            let t = raw.skip(i + 1);
            Some(header_state(t, t.len() as int).2)
        },
        None => None,
    }
}

/// The header fields: the name bytes, type and creator; none when the name
/// is empty or the bytes stop short of the creator.
pub open spec fn header_fields(out: Seq<u8>) -> Option<(Seq<u8>, Seq<u8>, Seq<u8>)> {
    if out.len() == 0 {
        None
    } else {
        let n = out[0] as int;
        if n == 0 || out.len() < 1 + n + 1 + 8 {
            None
        } else {
            let p = 1 + n + 1;
            Some((out.subrange(1, 1 + n), out.subrange(p, p + 4), out.subrange(p + 4, p + 8)))
        }
    }
}

/// A file name's text: UTF-8 when the bytes are UTF-8 (as a modern writer
/// leaves them), else MacRoman.
pub open spec fn name_text(b: Seq<u8>) -> Seq<char> {
    match crate::text::utf8_text(b) {
        Some(t) => t,
        None => Seq::new(b.len(), |k: int| crate::macroman::decode_byte_spec(b[k])),
    }
}

/// What `String::from_utf8_lossy` gives for bytes.
pub uninterp spec fn utf8_lossy(b: Seq<u8>) -> Seq<char>;

/// Trusted: calls `String::from_utf8_lossy`, which decodes the bytes as
/// UTF-8 with each invalid sequence replaced by U+FFFD, and gives the bytes'
/// own text when they are valid UTF-8; the result is named `utf8_lossy`.
#[verifier::external_body]
fn lossy_text(b: &[u8]) -> (r: String)
    ensures
        r@ == utf8_lossy(b@),
        crate::text::utf8_text(b@) matches Some(t) ==> r@ == t,
{
    String::from_utf8_lossy(b).to_string()
}

/// One run-length-coded byte, appended.
fn rle_exec(out: &mut Vec<u8>, prev: &mut Option<u8>, in_run: &mut bool, b: u8)
    ensures
        (final(out)@, *final(prev), *final(in_run)) == rle_byte(old(out)@, *old(prev), *old(in_run), b),
{
    if *in_run {
        *in_run = false;
        if b == 0 {
            out.push(0x90);
            *prev = Some(0x90);
        } else {
            match *prev {
                Some(p) => {
                    let ghost o0 = out@;
                    let mut k: u8 = 1;
                    while k < b
                        invariant
                            1 <= k <= b,
                            out@ == o0 + Seq::new((k - 1) as nat, |i: int| p),
                        decreases b - k,
                    {
                        out.push(p);
                        k = k + 1;
                        assert(out@ =~= o0 + Seq::new((k - 1) as nat, |i: int| p));
                    }
                },
                None => {},
            }
        }
    } else if b == 0x90 {
        *in_run = true;
    } else {
        out.push(b);
        *prev = Some(b);
    }
}

/// Decode just enough of a BinHex 4.0 file to read its header: the real Mac
/// file name (UTF-8 when the bytes are, else MacRoman), then its type and
/// creator. `None` when there is no `:` to open the payload, when the name is
/// empty, or when the decoded bytes stop short of the creator. Decoding stops
/// once 160 bytes are out.
pub fn binhex_header(raw: &[u8]) -> (r: Option<(String, String, String)>)
    ensures
        match header_bytes(raw@) {
            None => r is None,
            Some(out) => match header_fields(out) {
                None => r is None,
                Some((n, t, c)) => r matches Some(x) && x.0@ == name_text(n) && x.1@ == utf8_lossy(t) && x.2@
                    == utf8_lossy(c),
            },
        },
{
    let mut start: usize = 0;
    let mut found = false;
    while start < raw.len() && !found
        invariant
            start <= raw@.len(),
            found ==> start >= 1 && first_colon_at(raw@, raw@.len() as int) == Some(start - 1),
            !found ==> first_colon_at(raw@, start as int) is None,
        decreases raw@.len() - start + if found { 0int } else { 1 },
    {
        if raw[start] == 0x3A {
            found = true;
            proof {
                lemma_first_colon_stays(raw@, start as int + 1, raw@.len() as int);
            }
        }
        start = start + 1;
    }
    if !found {
        proof {
            lemma_first_colon_none(raw@, start as int, raw@.len() as int);
        }
        return None;
    }
    let ghost t = raw@.skip(start as int);
    let mut acc: u32 = 0;
    let mut nb: u32 = 0;
    let mut out: Vec<u8> = Vec::new();
    let mut prev: Option<u8> = None;
    let mut in_run = false;
    let mut done = false;
    let mut i = start;
    while i < raw.len() && !done
        invariant
            start <= i <= raw@.len(),
            t == raw@.skip(start as int),
            nb < 8,
            (acc as int) < pow2_small(nb as int),
            ((acc as int, nb as int, out@, prev, in_run, done) == header_state(t, (i - start) as int)),
            done ==> header_state(t, t.len() as int) == header_state(t, (i - start) as int),
        decreases raw@.len() - i + if done { 0int } else { 1 },
    {
        let c = raw[i];
        let ghost st0 = header_state(t, (i - start) as int);
        proof {
            assert(t.take((i - start) as int + 1).len() >= 0);
            assert(t[(i - start) as int] == c);
        }
        if c == 0x3A {
            done = true;
        } else {
            match crate::icons::hqx_value_of(c) {
                None => {},
                Some(v) => {
                    proof {
                        lemma_pow2_small_bound(nb as int);
                    }
                    let a: u32 = acc * 64 + v as u32;
                    let n: u32 = nb + 6;
                    if n >= 8 {
                        let d: u32 = pow2_exec(n - 8);
                        let b: u32 = a / d;
                        proof {
                            lemma_pow2_small_bound(n as int - 8);
                            assert(a < pow2_small(n as int)) by {
                                assert(pow2_small(n as int) == 64 * pow2_small(nb as int)) by {
                                    lemma_pow2_six(nb as int);
                                }
                            }
                            assert(pow2_small(n as int) == 256 * pow2_small(n as int - 8)) by {
                                lemma_pow2_eight(n as int - 8);
                            }
                            assert(b < 256) by (nonlinear_arith)
                                requires
                                    b == a / d,
                                    d > 0,
                                    (a as int) < 256 * d;
                        }
                        rle_exec(&mut out, &mut prev, &mut in_run, b as u8);
                        acc = a % d;
                        nb = n - 8;
                    } else {
                        acc = a;
                        nb = n;
                        proof {
                            assert(pow2_small(n as int) == 64 * pow2_small((n - 6) as int)) by {
                                lemma_pow2_six((n - 6) as int);
                            }
                        }
                    }
                    done = out.len() >= 160;
                },
            }
        }
        i = i + 1;
        proof {
            assert(header_state(t, (i - start) as int) == header_step(st0, c));
            if done {
                lemma_header_done(t, (i - start) as int, t.len() as int);
            }
        }
    }
    proof {
        if !done {
            assert((i - start) as int == t.len());
        }
    }
    if out.len() == 0 {
        return None;
    }
    let nlen = out[0] as usize;
    if nlen == 0 || out.len() < 1 + nlen + 1 + 8 {
        return None;
    }
    let raw_name = vstd::slice::slice_subrange(out.as_slice(), 1, 1 + nlen);
    let name = match crate::text::utf8_string(raw_name) {
        Some(s) => s,
        None => crate::macroman::decode(raw_name),
    };
    assert(name@ =~= name_text(out@.subrange(1, 1 + nlen as int)));
    let p = 1 + nlen + 1;
    let ostype = lossy_text(vstd::slice::slice_subrange(out.as_slice(), p, p + 4));
    let creator = lossy_text(vstd::slice::slice_subrange(out.as_slice(), p + 4, p + 8));
    Some((name, ostype, creator))
}

fn pow2_exec(k: u32) -> (r: u32)
    requires
        k < 8,
    ensures
        r as int == pow2_small(k as int),
        r > 0,
{
    let mut r: u32 = 1;
    let mut j: u32 = 0;
    while j < k
        invariant
            j <= k < 8,
            r as int == pow2_small(j as int),
            0 < r <= 128,
        decreases k - j,
    {
        proof {
            lemma_pow2_small_bound(j as int);
        }
        r = r * 2;
        j = j + 1;
    }
    r
}

proof fn lemma_pow2_small_bound(k: int)
    requires
        0 <= k < 8,
    ensures
        1 <= pow2_small(k) <= 128,
        k < 7 ==> pow2_small(k) <= 64,
{
    reveal_with_fuel(pow2_small, 9);
    assert(pow2_small(0) == 1);
    assert(pow2_small(7) == 128);
    if k < 7 {
        assert(pow2_small(6) == 64);
        assert(k == 0 || k == 1 || k == 2 || k == 3 || k == 4 || k == 5 || k == 6);
    } else {
        assert(k == 7);
    }
}

proof fn lemma_pow2_six(k: int)
    requires
        0 <= k,
    ensures
        pow2_small(k + 6) == 64 * pow2_small(k),
{
    assert(pow2_small(k + 6) == 2 * pow2_small(k + 5));
    assert(pow2_small(k + 5) == 2 * pow2_small(k + 4));
    assert(pow2_small(k + 4) == 2 * pow2_small(k + 3));
    assert(pow2_small(k + 3) == 2 * pow2_small(k + 2));
    assert(pow2_small(k + 2) == 2 * pow2_small(k + 1));
    assert(pow2_small(k + 1) == 2 * pow2_small(k));
}

proof fn lemma_pow2_eight(k: int)
    requires
        0 <= k,
    ensures
        pow2_small(k + 8) == 256 * pow2_small(k),
{
    lemma_pow2_six(k + 2);
    assert(pow2_small(k + 2) == 2 * pow2_small(k + 1));
    assert(pow2_small(k + 1) == 2 * pow2_small(k));
}

proof fn lemma_first_colon_stays(b: Seq<u8>, k: int, m: int)
    requires
        1 <= k <= m <= b.len(),
        first_colon_at(b, k) is Some,
    ensures
        first_colon_at(b, m) == first_colon_at(b, k),
    decreases m - k,
{
    if m > k {
        lemma_first_colon_stays(b, k, m - 1);
    }
}

proof fn lemma_first_colon_none(b: Seq<u8>, k: int, m: int)
    requires
        0 <= k <= m <= b.len(),
        first_colon_at(b, k) is None,
        forall|j: int| k <= j < m ==> b[j] != 0x3A,
    ensures
        first_colon_at(b, m) is None,
    decreases m - k,
{
    if m > k {
        lemma_first_colon_none(b, k, m - 1);
    }
}

proof fn lemma_header_done(t: Seq<u8>, k: int, m: int)
    requires
        0 <= k <= m <= t.len(),
        header_state(t, k).5,
    ensures
        header_state(t, m) == header_state(t, k),
    decreases m - k,
{
    if m > k {
        lemma_header_done(t, k, m - 1);
    }
}

} // verus!
