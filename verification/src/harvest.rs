//! Harvesting apps out of a donor HFS image: which files of a game folder
//! are copied and under what names, which app the folder launches, what the
//! folder path says of the title's kind, genre and year, and the dataset stub
//! line written for each harvested app. Listing and copying through `rb-cli`
//! is the caller's part.

use crate::rbcli::Entry;
use crate::json::{json_quote, json_string};
use crate::text::{
    append, decimal, decimal_i64,
    alnum, chars_of, components, contains_seq, contains_str, is_ascii_alnum, lower_ascii, lower_char,
    lower_chars, lower_seq, parse_i64, parse_i64_spec, push_char, same_str, split_components,
    string_from,
};
use vstd::prelude::*;
use vstd::string::StringSliceAdditionalSpecFns;

verus! {

/// What was learned about one harvested app.
#[derive(Debug)]
pub struct Harvested {
    pub id: String,
    pub name: String,
    pub kind: String,
    pub year: Option<i64>,
    pub genre: Option<String>,
    /// Relative to the tree root, e.g. `Apps/Dark Castle/Dark Castle`.
    pub app_path: String,
    pub files: Vec<String>,
    /// The picked launch app looks like an installer or patcher.
    pub was_installer: bool,
    /// The original download's file name, when known.
    pub download: Option<String>,
    /// The Macintosh Garden node id, when known.
    pub mg_nid: Option<i64>,
}

/// A name that looks like an installer or patcher rather than the runnable
/// game: it holds `install`, `setup`, `updater` or `patch`, ignoring ASCII
/// case.
pub open spec fn installer_name(n: Seq<char>) -> bool {
    let l = lower_seq(n);
    contains_seq(l, "install"@) || contains_seq(l, "setup"@) || contains_seq(l, "updater"@)
        || contains_seq(l, "patch"@)
}

/// Whether a file or app name looks like an installer or patcher.
pub fn is_installer_name(name: &str) -> (r: bool)
    ensures
        r == installer_name(name@),
{
    let n = lower_chars(name);
    contains_str(n.as_slice(), "install") || contains_str(n.as_slice(), "setup")
        || contains_str(n.as_slice(), "updater") || contains_str(n.as_slice(), "patch")
}

/// Files never copied out of a game folder: a bundled System or Finder, the
/// desktop database, the custom-icon marker.
pub open spec fn clutter_file(e: Entry) -> bool {
    e.ostype@ == "ZSYS"@ || e.ostype@ == "FNDR"@ || e.name@ == "Desktop DB"@ || e.name@ == "Desktop DF"@
        || e.name@ == "Desktop"@ || e.name@ == "Icon\r"@ || e.name@ == "Icon"@
}

/// Whether a file is system clutter that is never copied.
pub fn is_clutter(e: &Entry) -> (r: bool)
    ensures
        r == clutter_file(*e),
{
    same_str(e.ostype.as_str(), "ZSYS") || same_str(e.ostype.as_str(), "FNDR")
        || same_str(e.name.as_str(), "Desktop DB") || same_str(e.name.as_str(), "Desktop DF")
        || same_str(e.name.as_str(), "Desktop") || same_str(e.name.as_str(), "Icon\r")
        || same_str(e.name.as_str(), "Icon")
}

/// Sub-folders never recursed into: a bundled System Folder or the volume's
/// housekeeping folders.
pub open spec fn clutter_dir(e: Entry) -> bool {
    e.is_dir && (e.name@ == "System Folder"@ || e.name@ == "Desktop Folder"@ || e.name@ == "Trash"@
        || e.name@ == "Temporary Items"@ || e.name@ == "TheVolumeSettingsFolder"@
        || e.name@ == "Cleanup At Startup"@)
}

/// Whether a folder is one never recursed into.
pub fn is_clutter_dir(e: &Entry) -> (r: bool)
    ensures
        r == clutter_dir(*e),
{
    e.is_dir && (same_str(e.name.as_str(), "System Folder") || same_str(e.name.as_str(), "Desktop Folder")
        || same_str(e.name.as_str(), "Trash") || same_str(e.name.as_str(), "Temporary Items")
        || same_str(e.name.as_str(), "TheVolumeSettingsFolder")
        || same_str(e.name.as_str(), "Cleanup At Startup"))
}

/// A path component escaped for rb-cli's slash grammar: `\` becomes `\\` and
/// `/` becomes `\/`.
pub open spec fn escaped(s: Seq<char>) -> Seq<char>
    decreases s.len(),
{
    if s.len() == 0 {
        Seq::empty()
    } else {
        let c = s.last();
        escaped(s.drop_last()) + if c == '\\' || c == '/' { seq!['\\', c] } else { seq![c] }
    }
}

/// Escape one path component so rb-cli addresses it as an exact literal.
pub fn esc(name: &str) -> (r: String)
    ensures
        r@ == escaped(name@),
{
    let cs = chars_of(name);
    let mut out = String::new();
    let mut i: usize = 0;
    while i < cs.len()
        invariant
            i <= cs@.len(),
            cs@ == name@,
            out@ == escaped(cs@.take(i as int)),
        decreases cs@.len() - i,
    {
        assert(cs@.take(i as int + 1).drop_last() =~= cs@.take(i as int));
        let c = cs[i];
        if c == '\\' || c == '/' {
            push_char(&mut out, '\\');
        }
        push_char(&mut out, c);
        i = i + 1;
        assert(out@ =~= escaped(cs@.take(i as int)));
    }
    assert(cs@.take(cs@.len() as int) =~= cs@);
    out
}

/// A donor name as an on-disk component: every `/` becomes `-`.
pub open spec fn sanitized(s: Seq<char>) -> Seq<char> {
    Seq::new(s.len(), |i: int| if s[i] == '/' { '-' } else { s[i] })
}

/// Sanitize a donor name into an on-disk destination component.
pub fn sanitize(name: &str) -> (r: String)
    ensures
        r@ == sanitized(name@),
{
    let cs = chars_of(name);
    let mut out = String::new();
    let mut i: usize = 0;
    while i < cs.len()
        invariant
            i <= cs@.len(),
            cs@ == name@,
            out@ == sanitized(cs@.take(i as int)),
        decreases cs@.len() - i,
    {
        push_char(&mut out, if cs[i] == '/' { '-' } else { cs[i] });
        i = i + 1;
        assert(out@ =~= sanitized(cs@.take(i as int)));
    }
    assert(cs@.take(cs@.len() as int) =~= cs@);
    out
}

/// Common Latin accented letters folded to their base letter.
pub open spec fn folded(c: char) -> char {
    if c == 'à' || c == 'á' || c == 'â' || c == 'ä' || c == 'ã' || c == 'å' || c == 'À' || c == 'Á'
        || c == 'Â' || c == 'Ä' || c == 'Ã' || c == 'Å' {
        'a'
    } else if c == 'è' || c == 'é' || c == 'ê' || c == 'ë' || c == 'È' || c == 'É' || c == 'Ê' || c == 'Ë' {
        'e'
    } else if c == 'ì' || c == 'í' || c == 'î' || c == 'ï' || c == 'Ì' || c == 'Í' || c == 'Î' || c == 'Ï' {
        'i'
    } else if c == 'ò' || c == 'ó' || c == 'ô' || c == 'ö' || c == 'õ' || c == 'Ò' || c == 'Ó' || c == 'Ô'
        || c == 'Ö' || c == 'Õ' {
        'o'
    } else if c == 'ù' || c == 'ú' || c == 'û' || c == 'ü' || c == 'Ù' || c == 'Ú' || c == 'Û' || c == 'Ü' {
        'u'
    } else if c == 'ñ' || c == 'Ñ' {
        'n'
    } else if c == 'ç' || c == 'Ç' {
        'c'
    } else {
        c
    }
}

/// Fold a common Latin accented letter to its base letter.
pub fn fold_accent(c: char) -> (r: char)
    ensures
        r == folded(c),
{
    if c == 'à' || c == 'á' || c == 'â' || c == 'ä' || c == 'ã' || c == 'å' || c == 'À' || c == 'Á'
        || c == 'Â' || c == 'Ä' || c == 'Ã' || c == 'Å' {
        'a'
    } else if c == 'è' || c == 'é' || c == 'ê' || c == 'ë' || c == 'È' || c == 'É' || c == 'Ê' || c == 'Ë' {
        'e'
    } else if c == 'ì' || c == 'í' || c == 'î' || c == 'ï' || c == 'Ì' || c == 'Í' || c == 'Î' || c == 'Ï' {
        'i'
    } else if c == 'ò' || c == 'ó' || c == 'ô' || c == 'ö' || c == 'õ' || c == 'Ò' || c == 'Ó' || c == 'Ô'
        || c == 'Ö' || c == 'Õ' {
        'o'
    } else if c == 'ù' || c == 'ú' || c == 'û' || c == 'ü' || c == 'Ù' || c == 'Ú' || c == 'Û' || c == 'Ü' {
        'u'
    } else if c == 'ñ' || c == 'Ñ' {
        'n'
    } else if c == 'ç' || c == 'Ç' {
        'c'
    } else {
        c
    }
}

/// The slug built so far from `s`: folded ASCII letters and digits,
/// lowercased; every other run of characters after the first kept one
/// becomes a single `-`.
pub open spec fn slug_acc(s: Seq<char>) -> Seq<char>
    decreases s.len(),
{
    if s.len() == 0 {
        Seq::empty()
    } else {
        let o = slug_acc(s.drop_last());
        let f = folded(s.last());
        if is_ascii_alnum(f) {
            o.push(lower_ascii(f))
        } else if o.len() > 0 && o.last() != '-' {
            o.push('-')
        } else {
            o
        }
    }
}

/// `s` without leading and trailing `-`.
pub open spec fn trim_dashes(s: Seq<char>) -> Seq<char> {
    let lo = dash_skip(s, 0);
    s.subrange(lo, dash_back(s, lo, s.len() as int))
}

pub open spec fn dash_skip(s: Seq<char>, i: int) -> int
    decreases s.len() - i,
{
    if i >= s.len() || i < 0 || s[i] != '-' { i } else { dash_skip(s, i + 1) }
}

pub open spec fn dash_back(s: Seq<char>, lo: int, j: int) -> int
    decreases j - lo,
{
    if j <= lo || s[j - 1] != '-' { j } else { dash_back(s, lo, j - 1) }
}

/// The lowercase ASCII slug of a title (`Déjà Vu` → `deja-vu`).
pub open spec fn slug(s: Seq<char>) -> Seq<char> {
    trim_dashes(slug_acc(s))
}

/// A slug character: a lowercase ASCII letter, a digit or `-`.
pub open spec fn slug_char(c: char) -> bool {
    ('0' <= c <= '9') || ('a' <= c <= 'z') || c == '-'
}

/// The shape of a slug: slug characters only, no `-` at either end, no two
/// `-` in a row.
pub open spec fn slug_shaped(t: Seq<char>) -> bool {
    &&& forall|i: int| 0 <= i < t.len() ==> slug_char(#[trigger] t[i])
    &&& t.len() > 0 ==> t[0] != '-' && t.last() != '-'
    &&& forall|i: int| 0 <= i < t.len() - 1 ==> !(#[trigger] t[i] == '-' && t[i + 1] == '-')
}

/// What the slug built so far looks like: slug characters, no leading `-`,
/// no two `-` in a row (a trailing `-` may still come off).
proof fn lemma_slug_acc_shape(s: Seq<char>)
    ensures
        forall|i: int| 0 <= i < slug_acc(s).len() ==> slug_char(#[trigger] slug_acc(s)[i]),
        slug_acc(s).len() > 0 ==> slug_acc(s)[0] != '-',
        forall|i: int| 0 <= i < slug_acc(s).len() - 1 ==> !(#[trigger] slug_acc(s)[i] == '-' && slug_acc(s)[i + 1] == '-'),
    decreases s.len(),
{
    if s.len() > 0 {
        lemma_slug_acc_shape(s.drop_last());
        let o = slug_acc(s.drop_last());
        let f = folded(s.last());
        if is_ascii_alnum(f) {
            let c = lower_ascii(f);
            assert(slug_char(c));
            assert(slug_acc(s) == o.push(c));
            assert forall|i: int| 0 <= i < slug_acc(s).len() implies slug_char(#[trigger] slug_acc(s)[i]) by {
                if i < o.len() {
                    assert(slug_acc(s)[i] == o[i]);
                }
            }
            assert forall|i: int| 0 <= i < slug_acc(s).len() - 1 implies !(#[trigger] slug_acc(s)[i] == '-' && slug_acc(s)[i + 1] == '-') by {
                assert(slug_acc(s)[i] == o[i]);
                if i + 1 < o.len() {
                    assert(slug_acc(s)[i + 1] == o[i + 1]);
                }
            }
            if o.len() > 0 {
                assert(slug_acc(s)[0] == o[0]);
            }
        } else if o.len() > 0 && o.last() != '-' {
            assert(slug_acc(s) == o.push('-'));
            assert forall|i: int| 0 <= i < slug_acc(s).len() implies slug_char(#[trigger] slug_acc(s)[i]) by {
                if i < o.len() {
                    assert(slug_acc(s)[i] == o[i]);
                }
            }
            assert forall|i: int| 0 <= i < slug_acc(s).len() - 1 implies !(#[trigger] slug_acc(s)[i] == '-' && slug_acc(s)[i + 1] == '-') by {
                assert(slug_acc(s)[i] == o[i]);
                if i + 1 < o.len() {
                    assert(slug_acc(s)[i + 1] == o[i + 1]);
                } else {
                    assert(o[i] == o.last());
                }
            }
            assert(slug_acc(s)[0] == o[0]);
        }
    }
}

/// A slug is slug-shaped: lowercase ASCII letters, digits and single `-`
/// between them.
pub proof fn lemma_slug_shaped(s: Seq<char>)
    ensures
        slug_shaped(slug(s)),
{
    lemma_slug_acc_shape(s);
    let a = slug_acc(s);
    lemma_dash_skip(a, 0);
    if a.len() > 0 {
        assert(dash_skip(a, 0) == 0);
    } else {
        assert(dash_skip(a, 0) == 0);
    }
    let n = a.len() as int;
    let hi = dash_back(a, 0, n);
    if n > 0 && a[n - 1] == '-' {
        if n - 1 > 0 {
            assert(!(a[n - 2] == '-' && a[n - 1] == '-'));
            assert(a[n - 2] != '-');
        }
        assert(dash_back(a, 0, n - 1) == n - 1);
        assert(hi == n - 1);
    } else {
        assert(hi == n);
    }
    let t = slug(s);
    assert(t == a.subrange(0, hi));
    assert forall|i: int| 0 <= i < t.len() implies slug_char(#[trigger] t[i]) by {
        assert(t[i] == a[i]);
    }
    assert forall|i: int| 0 <= i < t.len() - 1 implies !(#[trigger] t[i] == '-' && t[i + 1] == '-') by {
        assert(t[i] == a[i]);
        assert(t[i + 1] == a[i + 1]);
    }
    if t.len() > 0 {
        assert(t[0] == a[0]);
        assert(t.last() == a[hi - 1]);
    }
}

/// Building a slug again from a slug-shaped text changes nothing, prefix
/// by prefix.
proof fn lemma_slug_acc_fixed(t: Seq<char>, k: int)
    requires
        slug_shaped(t),
        0 <= k <= t.len(),
    ensures
        slug_acc(t.take(k)) == t.take(k),
    decreases k,
{
    if k > 0 {
        lemma_slug_acc_fixed(t, k - 1);
        let p = t.take(k);
        assert(p.drop_last() =~= t.take(k - 1));
        let c = t[k - 1];
        assert(p.last() == c);
        assert(slug_char(c));
        if c == '-' {
            assert(folded(c) == c);
            assert(k - 1 > 0);
            assert(t.take(k - 1).last() == t[k - 2]);
            assert(t[k - 2] != '-');
            assert(p =~= t.take(k - 1).push('-'));
        } else {
            assert(folded(c) == c);
            assert(lower_ascii(c) == c);
            assert(p =~= t.take(k - 1).push(c));
        }
    }
}

/// Slugging a slug gives it back.
pub proof fn lemma_slug_idempotent(s: Seq<char>)
    ensures
        slug(slug(s)) == slug(s),
{
    let t = slug(s);
    lemma_slug_shaped(s);
    lemma_slug_acc_fixed(t, t.len() as int);
    assert(t.take(t.len() as int) =~= t);
    assert(slug_acc(t) == t);
    if t.len() > 0 {
        assert(dash_skip(t, 0) == 0);
        assert(dash_back(t, 0, t.len() as int) == t.len());
    }
    assert(trim_dashes(t) =~= t);
}

proof fn lemma_dash_skip(s: Seq<char>, i: int)
    requires
        0 <= i <= s.len(),
    ensures
        i <= dash_skip(s, i) <= s.len(),
    decreases s.len() - i,
{
    if i < s.len() && s[i] == '-' {
        lemma_dash_skip(s, i + 1);
    }
}

proof fn lemma_dash_back(s: Seq<char>, lo: int, j: int)
    requires
        0 <= lo <= j <= s.len(),
    ensures
        lo <= dash_back(s, lo, j) <= j,
    decreases j - lo,
{
    if j > lo && s[j - 1] == '-' {
        lemma_dash_back(s, lo, j - 1);
    }
}

/// Lowercase ASCII slug of a title, common Latin accents folded.
pub fn slugify(s: &str) -> (r: String)
    ensures
        r@ == slug(s@),
{
    let cs = chars_of(s);
    let mut out: Vec<char> = Vec::new();
    let mut i: usize = 0;
    while i < cs.len()
        invariant
            i <= cs@.len(),
            cs@ == s@,
            out@ == slug_acc(cs@.take(i as int)),
        decreases cs@.len() - i,
    {
        assert(cs@.take(i as int + 1).drop_last() =~= cs@.take(i as int));
        let f = fold_accent(cs[i]);
        if alnum(f) {
            out.push(lower_char(f));
        } else if out.len() > 0 && out[out.len() - 1] != '-' {
            out.push('-');
        }
        i = i + 1;
    }
    assert(cs@.take(cs@.len() as int) =~= cs@);
    let n = out.len();
    let mut lo: usize = 0;
    while lo < n && out[lo] == '-'
        invariant
            lo <= n == out@.len(),
            dash_skip(out@, 0) == dash_skip(out@, lo as int),
        decreases n - lo,
    {
        lo = lo + 1;
    }
    let mut hi: usize = n;
    while hi > lo && out[hi - 1] == '-'
        invariant
            lo <= hi <= n == out@.len(),
            lo == dash_skip(out@, 0),
            dash_back(out@, lo as int, n as int) == dash_back(out@, lo as int, hi as int),
        decreases hi - lo,
    {
        hi = hi - 1;
    }
    string_from(vstd::slice::slice_subrange(out.as_slice(), lo, hi))
}

/// `(kind, genre)` from the source folder path: the first component that is
/// `Games` (a game), `Applications` (an app, with the next component as
/// genre unless it is `?`), or `Utilities` (a utility); a game otherwise.
pub open spec fn kind_of(path: Seq<char>) -> (Seq<char>, Option<Seq<char>>) {
    kind_from(components(path, '/'), 0)
}

pub open spec fn kind_from(c: Seq<Seq<char>>, i: int) -> (Seq<char>, Option<Seq<char>>)
    decreases c.len() - i,
{
    if i >= c.len() || i < 0 {
        ("game"@, None)
    } else if c[i] == "Games"@ {
        ("game"@, None)
    } else if c[i] == "Applications"@ {
        ("app"@, if i + 1 < c.len() && c[i + 1] != "?"@ { Some(c[i + 1]) } else { None })
    } else if c[i] == "Utilities"@ {
        ("utility"@, None)
    } else {
        kind_from(c, i + 1)
    }
}

/// Infer `(kind, genre)` from the source folder path.
pub fn infer_kind(src_folder: &str) -> (r: (String, Option<String>))
    ensures
        r.0@ == kind_of(src_folder@).0,
        match (r.1, kind_of(src_folder@).1) {
            (Some(g), Some(h)) => g@ == h,
            (None, None) => true,
            _ => false,
        },
{
    let comps = split_components(src_folder, '/');
    let ghost c = components(src_folder@, '/');
    let mut i: usize = 0;
    while i < comps.len()
        invariant
            i <= comps@.len(),
            comps@.len() == c.len(),
            c == components(src_folder@, '/'),
            forall|k: int| 0 <= k < comps@.len() ==> (#[trigger] comps@[k])@ == c[k],
            kind_of(src_folder@) == kind_from(c, i as int),
        decreases comps@.len() - i,
    {
        if same_str(comps[i].as_str(), "Games") {
            return ("game".to_owned(), None);
        } else if same_str(comps[i].as_str(), "Applications") {
            let genre = if i + 1 < comps.len() && !same_str(comps[i + 1].as_str(), "?") {
                Some(comps[i + 1].clone())
            } else {
                None
            };
            proof {
                if i + 1 < comps@.len() {
                    assert(comps@[i + 1]@ == c[i + 1]);
                }
            }
            return ("app".to_owned(), genre);
        } else if same_str(comps[i].as_str(), "Utilities") {
            return ("utility".to_owned(), None);
        }
        i = i + 1;
    }
    ("game".to_owned(), None)
}

/// The first path component that reads as a year in 1970..=2010.
pub open spec fn year_of_path(path: Seq<char>) -> Option<int> {
    year_from(components(path, '/'), 0)
}

pub open spec fn year_from(c: Seq<Seq<char>>, i: int) -> Option<int>
    decreases c.len() - i,
{
    if i >= c.len() || i < 0 {
        None
    } else {
        match parse_i64_spec(c[i]) {
            Some(y) => if 1970 <= y <= 2010 { Some(y) } else { year_from(c, i + 1) },
            None => year_from(c, i + 1),
        }
    }
}

/// A path component that is a plausible year (e.g. `/Games/1986/`).
pub fn infer_year(src_folder: &str) -> (r: Option<i64>)
    ensures
        match r {
            Some(y) => year_of_path(src_folder@) == Some(y as int),
            None => year_of_path(src_folder@) is None,
        },
{
    let comps = split_components(src_folder, '/');
    let ghost c = components(src_folder@, '/');
    let mut i: usize = 0;
    while i < comps.len()
        invariant
            i <= comps@.len(),
            comps@.len() == c.len(),
            c == components(src_folder@, '/'),
            forall|k: int| 0 <= k < comps@.len() ==> (#[trigger] comps@[k])@ == c[k],
            year_of_path(src_folder@) == year_from(c, i as int),
        decreases comps@.len() - i,
    {
        let cc = chars_of(comps[i].as_str());
        match parse_i64(cc.as_slice()) {
            Some(y) => {
                if 1970 <= y && y <= 2010 {
                    return Some(y);
                }
            },
            None => {},
        }
        i = i + 1;
    }
    None
}

/// Length of the common leading run of two byte strings.
pub open spec fn common_prefix(a: Seq<u8>, b: Seq<u8>) -> int
    decreases a.len(),
{
    if a.len() == 0 || b.len() == 0 || a[0] != b[0] {
        0
    } else {
        1 + common_prefix(a.drop_first(), b.drop_first())
    }
}

/// Length of the common leading run of the UTF-8 bytes of two strings.
pub fn common_prefix_len(a: &str, b: &str) -> (r: usize)
    ensures
        r == common_prefix(a.spec_bytes(), b.spec_bytes()),
{
    let x = a.as_bytes();
    let y = b.as_bytes();
    let mut i: usize = 0;
    assert(x@.subrange(0, x@.len() as int) =~= x@);
    assert(y@.subrange(0, y@.len() as int) =~= y@);
    while i < x.len() && i < y.len() && x[i] == y[i]
        invariant
            i <= x@.len(),
            i <= y@.len(),
            common_prefix(x@, y@) == i + common_prefix(x@.subrange(i as int, x@.len() as int), y@.subrange(i as int, y@.len() as int)),
        decreases x@.len() - i,
    {
        assert(x@.subrange(i as int, x@.len() as int).drop_first() =~= x@.subrange(i + 1, x@.len() as int));
        assert(y@.subrange(i as int, y@.len() as int).drop_first() =~= y@.subrange(i + 1, y@.len() as int));
        i = i + 1;
    }
    i
}

/// A colour hint from an app's name, ignoring ASCII case: +1 for a colour
/// build (`color`, `colour`, `8-bit`, `8 bit`, `256`, `24-bit`), -1 for a
/// black-and-white one (`b/w`, `b&w`, `mono`, `1-bit`, `1 bit`,
/// `black & white`, `black and white`), their difference when both match.
pub open spec fn variant_rank_of(name: Seq<char>) -> int {
    let n = lower_seq(name);
    let bw = contains_seq(n, "b/w"@) || contains_seq(n, "b&w"@) || contains_seq(n, "mono"@)
        || contains_seq(n, "1-bit"@) || contains_seq(n, "1 bit"@) || contains_seq(n, "black & white"@)
        || contains_seq(n, "black and white"@);
    let color = contains_seq(n, "color"@) || contains_seq(n, "colour"@) || contains_seq(n, "8-bit"@)
        || contains_seq(n, "8 bit"@) || contains_seq(n, "256"@) || contains_seq(n, "24-bit"@);
    (if color { 1int } else { 0int }) - (if bw { 1int } else { 0int })
}

/// A colour/B&W hint from an app's name.
pub fn variant_rank(name: &str) -> (r: i32)
    ensures
        r == variant_rank_of(name@),
{
    let n = lower_chars(name);
    let h = n.as_slice();
    let bw = contains_str(h, "b/w") || contains_str(h, "b&w") || contains_str(h, "mono")
        || contains_str(h, "1-bit") || contains_str(h, "1 bit") || contains_str(h, "black & white")
        || contains_str(h, "black and white");
    let color = contains_str(h, "color") || contains_str(h, "colour") || contains_str(h, "8-bit")
        || contains_str(h, "8 bit") || contains_str(h, "256") || contains_str(h, "24-bit");
    (if color { 1 } else { 0 }) - (if bw { 1 } else { 0 })
}


/// A launchable application other than a bundled Finder.
pub open spec fn real_appl(e: Entry) -> bool {
    !e.is_dir && e.ostype@ == "APPL"@ && e.creator@ != "MACS"@ && e.name@ != "Finder"@
}

/// Any application file.
pub open spec fn any_appl(e: Entry) -> bool {
    !e.is_dir && e.ostype@ == "APPL"@
}

/// The indices below `k` of the real applications, in order.
pub open spec fn real_upto(es: Seq<Entry>, k: int) -> Seq<int>
    decreases k,
{
    if k <= 0 {
        Seq::empty()
    } else {
        let p = real_upto(es, k - 1);
        if real_appl(es[k - 1]) { p.push(k - 1) } else { p }
    }
}

/// The first application at or after `i`.
pub open spec fn first_appl_from(es: Seq<Entry>, i: int) -> Option<int>
    decreases es.len() - i,
{
    if i >= es.len() || i < 0 {
        None
    } else if any_appl(es[i]) {
        Some(i)
    } else {
        first_appl_from(es, i + 1)
    }
}

/// The text after the last `/` of a path (all of it when there is none).
pub open spec fn last_component(p: Seq<char>) -> Seq<char> {
    p.subrange(crate::rbcli::last_slash(p, p.len() as int) + 1, p.len() as int)
}

/// How well an app name fits a folder: the common prefix of the slugs, the
/// colour hint, and (shorter is better) the negated byte length.
pub open spec fn appl_key(name: Seq<char>, base: Seq<char>) -> (int, int, int) {
    (
        common_prefix(vstd::utf8::encode_utf8(slug(name)), vstd::utf8::encode_utf8(base)),
        variant_rank_of(name),
        -(vstd::utf8::encode_utf8(name).len() as int),
    )
}

/// Lexicographic comparison of keys.
pub open spec fn key_gt(a: (int, int, int), b: (int, int, int)) -> bool {
    a.0 > b.0 || (a.0 == b.0 && (a.1 > b.1 || (a.1 == b.1 && a.2 > b.2)))
}

/// The position in `ix[..k]` of the first entry with the greatest key.
pub open spec fn best_of(es: Seq<Entry>, ix: Seq<int>, base: Seq<char>, k: int) -> int
    decreases k,
{
    if k <= 1 {
        0
    } else {
        let b = best_of(es, ix, base, k - 1);
        if key_gt(appl_key(es[ix[k - 1]].name@, base), appl_key(es[ix[b]].name@, base)) { k - 1 } else { b }
    }
}

/// The app a game folder launches: among the real applications, the one
/// whose slug shares the longest prefix with the folder's slug (then the
/// colour build, then the shorter name, then the first listed), provided
/// that prefix is at least 3 characters, else the first real application;
/// with no real application, the first application of any kind.
pub open spec fn picked_appl(es: Seq<Entry>, folder: Seq<char>) -> Option<Seq<char>> {
    let ix = real_upto(es, es.len() as int);
    let base = slug(last_component(folder));
    if ix.len() == 0 {
        match first_appl_from(es, 0) {
            Some(i) => Some(es[i].name@),
            None => None,
        }
    } else {
        let b = ix[best_of(es, ix, base, ix.len() as int)];
        if appl_key(es[b].name@, base).0 >= 3 { Some(es[b].name@) } else { Some(es[ix[0]].name@) }
    }
}

proof fn lemma_real_upto(es: Seq<Entry>, k: int)
    requires
        0 <= k <= es.len(),
    ensures
        forall|j: int| 0 <= j < real_upto(es, k).len() ==> 0 <= #[trigger] real_upto(es, k)[j] < k,
    decreases k,
{
    if k > 0 {
        lemma_real_upto(es, k - 1);
        let p = real_upto(es, k - 1);
        assert forall|j: int| 0 <= j < real_upto(es, k).len() implies 0 <= #[trigger] real_upto(es, k)[j] < k by {
            if j < p.len() {
                assert(real_upto(es, k)[j] == p[j]);
            }
        }
    }
}

proof fn lemma_best_of(es: Seq<Entry>, ix: Seq<int>, base: Seq<char>, k: int)
    requires
        1 <= k,
    ensures
        0 <= best_of(es, ix, base, k) < k,
    decreases k,
{
    if k > 1 {
        lemma_best_of(es, ix, base, k - 1);
    }
}

fn after_last_slash(p: &str) -> (r: String)
    ensures
        r@ == last_component(p@),
{
    let cs = chars_of(p);
    let n = cs.len();
    let mut k = n;
    while k > 0 && cs[k - 1] != '/'
        invariant
            k <= n == cs@.len(),
            crate::rbcli::last_slash(cs@, n as int) == crate::rbcli::last_slash(cs@, k as int),
        decreases k,
    {
        k = k - 1;
    }
    string_from(vstd::slice::slice_subrange(cs.as_slice(), k, n))
}

/// The key of an app name against a folder slug.
fn key_of(name: &str, base: &str) -> (k: (usize, i32, usize))
    ensures
        k.0 as int == appl_key(name@, base@).0,
        k.1 as int == appl_key(name@, base@).1,
        -(k.2 as int) == appl_key(name@, base@).2,
{
    let sl = slugify(name);
    let pfx = common_prefix_len(sl.as_str(), base);
    (pfx, variant_rank(name), name.as_bytes().len())
}

/// Choose the app a game folder should launch.
pub fn pick_appl(entries: &Vec<Entry>, src_folder: &str) -> (r: Option<String>)
    ensures
        match (r, picked_appl(entries@, src_folder@)) {
            (Some(n), Some(m)) => n@ == m,
            (None, None) => true,
            _ => false,
        },
{
    let ghost es = entries@;
    let last = after_last_slash(src_folder);
    let base = slugify(last.as_str());
    let mut ix: Vec<usize> = Vec::new();
    let mut i: usize = 0;
    while i < entries.len()
        invariant
            i <= es.len(),
            es == entries@,
            ix@.len() == real_upto(es, i as int).len(),
            forall|j: int| 0 <= j < ix@.len() ==> (#[trigger] ix@[j]) as int == real_upto(es, i as int)[j],
        decreases es.len() - i,
    {
        let e = &entries[i];
        if !e.is_dir && same_str(e.ostype.as_str(), "APPL") && !same_str(e.creator.as_str(), "MACS")
            && !same_str(e.name.as_str(), "Finder") {
            ix.push(i);
        }
        i = i + 1;
    }
    let ghost gix = real_upto(es, es.len() as int);
    proof {
        lemma_real_upto(es, es.len() as int);
    }
    if ix.len() == 0 {
        let mut j: usize = 0;
        while j < entries.len()
            invariant
                j <= es.len(),
                es == entries@,
                real_upto(es, es.len() as int).len() == 0,
                first_appl_from(es, 0) == first_appl_from(es, j as int),
            decreases es.len() - j,
        {
            if !entries[j].is_dir && same_str(entries[j].ostype.as_str(), "APPL") {
                return Some(entries[j].name.clone());
            }
            j = j + 1;
        }
        return None;
    }
    let mut b: usize = 0;
    let mut bk = key_of(entries[ix[0]].name.as_str(), base.as_str());
    let mut k: usize = 1;
    while k < ix.len()
        invariant
            1 <= k <= ix@.len(),
            es == entries@,
            ix@.len() == gix.len(),
            forall|j: int| 0 <= j < ix@.len() ==> (#[trigger] ix@[j]) as int == gix[j],
            forall|j: int| 0 <= j < gix.len() ==> 0 <= #[trigger] gix[j] < es.len(),
            b as int == best_of(es, gix, base@, k as int),
            b < k,
            bk.0 as int == appl_key(es[gix[b as int]].name@, base@).0,
            bk.1 as int == appl_key(es[gix[b as int]].name@, base@).1,
            -(bk.2 as int) == appl_key(es[gix[b as int]].name@, base@).2,
        decreases ix@.len() - k,
    {
        let kk = key_of(entries[ix[k]].name.as_str(), base.as_str());
        if kk.0 > bk.0 || (kk.0 == bk.0 && (kk.1 > bk.1 || (kk.1 == bk.1 && kk.2 < bk.2))) {
            b = k;
            bk = kk;
        }
        k = k + 1;
    }
    proof {
        lemma_best_of(es, gix, base@, gix.len() as int);
    }
    if bk.0 >= 3 {
        Some(entries[ix[b]].name.clone())
    } else {
        Some(entries[ix[0]].name.clone())
    }
}


/// The JSON field `,"key":value` for an optional quoted value.
pub open spec fn opt_str_field(key: Seq<char>, v: Option<String>) -> Seq<char> {
    match v {
        Some(x) => key + json_quote(x@),
        None => Seq::empty(),
    }
}

/// The JSON field `,"key":value` for an optional number.
pub open spec fn opt_num_field(key: Seq<char>, v: Option<i64>) -> Seq<char> {
    match v {
        Some(x) => key + decimal(x as int),
        None => Seq::empty(),
    }
}

/// The dataset stub line of a harvested app: a JSON object with `id`,
/// `name`, `kind`, then `year` and `genre` (a one-element list) when known,
/// `app`, then `was_installer` only when set, `download` and `mg_nid` when
/// known.
pub open spec fn stub_text(h: Harvested) -> Seq<char> {
    "{\"id\":"@ + json_quote(h.id@) + ",\"name\":"@ + json_quote(h.name@) + ",\"kind\":"@ + json_quote(h.kind@)
        + opt_num_field(",\"year\":"@, h.year)
        + (match h.genre { Some(g) => ",\"genre\":["@ + json_quote(g@) + "]"@, None => Seq::empty() })
        + ",\"app\":"@ + json_quote(h.app_path@)
        + (if h.was_installer { ",\"was_installer\":true"@ } else { Seq::empty() })
        + opt_str_field(",\"download\":"@, h.download)
        + opt_num_field(",\"mg_nid\":"@, h.mg_nid)
        + "}"@
}

fn push_str_field(s: &mut String, key: &str, v: &Option<String>)
    ensures
        final(s)@ == old(s)@ + opt_str_field(key@, *v),
{
    match v {
        Some(x) => {
            append(s, key);
            append(s, json_string(x.as_str()).as_str());
        },
        None => {},
    }
    assert(final(s)@ =~= old(s)@ + opt_str_field(key@, *v));
}

pub(crate) fn push_num_field(s: &mut String, key: &str, v: Option<i64>)
    ensures
        final(s)@ == old(s)@ + opt_num_field(key@, v),
{
    match v {
        Some(x) => {
            append(s, key);
            append(s, decimal_i64(x).as_str());
        },
        None => {},
    }
    assert(final(s)@ =~= old(s)@ + opt_num_field(key@, v));
}

pub(crate) fn push_quoted(s: &mut String, key: &str, v: &str)
    ensures
        final(s)@ == old(s)@ + key@ + json_quote(v@),
{
    append(s, key);
    append(s, json_string(v).as_str());
    assert(final(s)@ =~= old(s)@ + key@ + json_quote(v@));
}

/// Serialize a harvested app as a dataset stub line.
pub fn stub_line(h: &Harvested) -> (r: String)
    ensures
        r@ == stub_text(*h),
{
    let mut s = String::new();
    push_quoted(&mut s, "{\"id\":", h.id.as_str());
    push_quoted(&mut s, ",\"name\":", h.name.as_str());
    push_quoted(&mut s, ",\"kind\":", h.kind.as_str());
    push_num_field(&mut s, ",\"year\":", h.year);
    let ghost s2 = s@;
    match &h.genre {
        Some(g) => {
            push_quoted(&mut s, ",\"genre\":[", g.as_str());
            append(&mut s, "]");
        },
        None => {},
    }
    let ghost s3 = s@;
    assert(s3 == s2 + (match h.genre { Some(g) => ",\"genre\":["@ + json_quote(g@) + "]"@, None => Seq::<char>::empty() }));
    push_quoted(&mut s, ",\"app\":", h.app_path.as_str());
    let ghost s4 = s@;
    if h.was_installer {
        append(&mut s, ",\"was_installer\":true");
    }
    assert(s@ == s4 + (if h.was_installer { ",\"was_installer\":true"@ } else { Seq::<char>::empty() }));
    push_str_field(&mut s, ",\"download\":", &h.download);
    push_num_field(&mut s, ",\"mg_nid\":", h.mg_nid);
    append(&mut s, "}");
    assert(s@ =~= stub_text(*h));
    s
}

/// What to do with one listing entry while copying a folder tree.
pub enum TreeStep {
    /// Leave it out.
    Skip,
    /// Recurse into a sub-folder: its source path, its path relative to the
    /// app folder, and the directory to create for it on the target.
    Descend { src: String, rel: String, dir: String },
    /// Copy a file: its source path, the target directory, the sanitized
    /// on-disk name when it differs from the donor's, the staged `.hqx` file
    /// name, and its path relative to the app folder.
    Copy { src: String, dst_dir: String, rename: Option<String>, hqx: String, rel: String },
}

/// A tree step as values.
pub enum StepView {
    Skip,
    Descend(Seq<char>, Seq<char>, Seq<char>),
    Copy(Seq<char>, Seq<char>, Option<Seq<char>>, Seq<char>, Seq<char>),
}

impl TreeStep {
    pub open spec fn view(self) -> StepView {
        match self {
            TreeStep::Skip => StepView::Skip,
            TreeStep::Descend { src, rel, dir } => StepView::Descend(src@, rel@, dir@),
            TreeStep::Copy { src, dst_dir, rename, hqx, rel } => StepView::Copy(
                src@, dst_dir@, match rename { Some(r) => Some(r@), None => None }, hqx@, rel@),
        }
    }
}

/// `a` + `/` + `b`.
pub open spec fn join(a: Seq<char>, b: Seq<char>) -> Seq<char> {
    a + seq!['/'] + b
}

/// The step for entry `e` of the folder at source path `src_folder`, which
/// sits at `rel` (empty at the top) under the app folder `app_dir`: clutter is
/// skipped; a folder is entered; a file is copied into the directory of its
/// path, staged as the slug of that path plus `.hqx`. Source names are
/// escaped for rb-cli, target names sanitized.
pub open spec fn tree_step(e: Entry, src_folder: Seq<char>, rel: Seq<char>, app_dir: Seq<char>) -> StepView {
    let child_src = join(crate::rbcli::trim_slashes_end(src_folder), escaped(e.name@));
    let dst_name = sanitized(e.name@);
    let child_rel = if rel.len() == 0 { dst_name } else { join(rel, dst_name) };
    if e.is_dir {
        if clutter_dir(e) { StepView::Skip } else { StepView::Descend(child_src, child_rel, join(app_dir, child_rel)) }
    } else if clutter_file(e) {
        StepView::Skip
    } else {
        let i = crate::rbcli::last_slash(child_rel, child_rel.len() as int);
        let dst_dir = if i >= 0 { join(app_dir, child_rel.subrange(0, i)) } else { app_dir };
        StepView::Copy(child_src, dst_dir, if dst_name != e.name@ { Some(dst_name) } else { None },
            slug(child_rel) + ".hqx"@, child_rel)
    }
}

fn join_exec(a: &str, b: &str) -> (r: String)
    ensures
        r@ == join(a@, b@),
{
    let mut s = a.to_owned();
    push_char(&mut s, '/');
    append(&mut s, b);
    s
}

fn trim_end_slashes(p: &str) -> (r: String)
    ensures
        r@ == crate::rbcli::trim_slashes_end(p@),
{
    let cs = chars_of(p);
    let mut end = cs.len();
    assert(cs@.take(cs@.len() as int) =~= cs@);
    while end > 0 && cs[end - 1] == '/'
        invariant
            end <= cs@.len(),
            cs@ == p@,
            crate::rbcli::trim_slashes_end(p@) == crate::rbcli::trim_slashes_end(cs@.take(end as int)),
        decreases end,
    {
        assert(cs@.take(end as int).drop_last() =~= cs@.take(end - 1));
        end = end - 1;
    }
    assert(cs@.subrange(0, end as int) =~= cs@.take(end as int));
    string_from(vstd::slice::slice_subrange(cs.as_slice(), 0, end))
}

fn dir_of(child_rel: &str, app_dir: &str) -> (r: String)
    ensures
        ({
            let i = crate::rbcli::last_slash(child_rel@, child_rel@.len() as int);
            r@ == if i >= 0 { join(app_dir@, child_rel@.subrange(0, i)) } else { app_dir@ }
        }),
{
    let rc = chars_of(child_rel);
    let n = rc.len();
    let mut k = n;
    while k > 0 && rc[k - 1] != '/'
        invariant
            k <= n == rc@.len(),
            crate::rbcli::last_slash(rc@, n as int) == crate::rbcli::last_slash(rc@, k as int),
        decreases k,
    {
        k = k - 1;
    }
    if k > 0 {
        let head = string_from(vstd::slice::slice_subrange(rc.as_slice(), 0, k - 1));
        join_exec(app_dir, head.as_str())
    } else {
        app_dir.to_owned()
    }
}

/// Decide what to do with one entry of a folder being copied.
pub fn plan_tree_entry(e: &Entry, src_folder: &str, rel: &str, app_dir: &str) -> (r: TreeStep)
    ensures
        r@ == tree_step(*e, src_folder@, rel@, app_dir@),
{
    let trimmed = trim_end_slashes(src_folder);
    let child_src = join_exec(trimmed.as_str(), esc(e.name.as_str()).as_str());
    let dst_name = sanitize(e.name.as_str());
    let rel_empty = chars_of(rel).len() == 0;
    let child_rel = if rel_empty { dst_name.clone() } else { join_exec(rel, dst_name.as_str()) };
    if e.is_dir {
        if is_clutter_dir(e) {
            return TreeStep::Skip;
        }
        let dir = join_exec(app_dir, child_rel.as_str());
        return TreeStep::Descend { src: child_src, rel: child_rel, dir };
    }
    if is_clutter(e) {
        return TreeStep::Skip;
    }
    let dst_dir = dir_of(child_rel.as_str(), app_dir);
    let rename = if !same_str(dst_name.as_str(), e.name.as_str()) { Some(dst_name) } else { None };
    let mut hqx = slugify(child_rel.as_str());
    append(&mut hqx, ".hqx");
    TreeStep::Copy { src: child_src, dst_dir, rename, hqx, rel: child_rel }
}

/// A sanitized name holds no `/`, so it is one path component.
pub proof fn lemma_sanitized_has_no_slash(s: Seq<char>)
    ensures
        !sanitized(s).contains('/'),
        sanitized(s).len() == s.len(),
{
    if sanitized(s).contains('/') {
        let k = choose|k: int| 0 <= k < sanitized(s).len() && sanitized(s)[k] == '/';
        assert(sanitized(s)[k] != '/');
    }
}

// ---- adding stubs to a dataset -------------------------------------------------

/// The last harvested app with id `id`.
pub open spec fn last_harvested(hs: Seq<Harvested>, id: Seq<char>) -> Option<Harvested>
    decreases hs.len(),
{
    if hs.len() == 0 {
        None
    } else if hs.last().id@ == id {
        Some(hs.last())
    } else {
        last_harvested(hs.drop_last(), id)
    }
}

/// Some line of the dataset is a record with id `id`.
pub open spec fn dataset_has(lines: Seq<(String, Option<crate::merge::Record>)>, id: Seq<char>) -> bool {
    exists|i: int| 0 <= i < lines.len() && holds_id(#[trigger] lines[i], id)
}

/// The line holds a record with id `id`.
pub open spec fn holds_id(l: (String, Option<crate::merge::Record>), id: Seq<char>) -> bool {
    l.1 matches Some(r) && crate::merge::id_text(r) == Some(id)
}

/// The line is kept text `t`.
pub open spec fn raw_is(l: crate::merge::Line, t: Seq<char>) -> bool {
    l matches crate::merge::Line::Raw(u) && u@ == t
}

/// A dataset line (its text, and its record where it holds one) and what
/// adding stubs makes of it: a record a harvested app has the id of, whose
/// `app` is not that app's install path, takes the path (every other field
/// kept); every other line stays as its text.
pub open spec fn stub_merged_line(l: (String, Option<crate::merge::Record>), o: crate::merge::Line, hs: Seq<Harvested>) -> bool {
    match l.1 {
        Some(r) => match crate::merge::id_text(r) {
            Some(id) => match last_harvested(hs, id) {
                Some(h) => if crate::merge::field_text(r.fields.entries@, "app"@) != Some(json_quote(h.app_path@)) {
                    o matches crate::merge::Line::Rec(x) && x.id == r.id && x.fields.wf() && forall|k: Seq<char>|
                        #[trigger] crate::merge::field_text(x.fields.entries@, k) == if k == "app"@ {
                            Some(json_quote(h.app_path@))
                        } else {
                            crate::merge::field_text(r.fields.entries@, k)
                        }
                } else {
                    o matches crate::merge::Line::Raw(t) && t@ == l.0@
                },
                None => o matches crate::merge::Line::Raw(t) && t@ == l.0@,
            },
            None => o matches crate::merge::Line::Raw(t) && t@ == l.0@,
        },
        None => o matches crate::merge::Line::Raw(t) && t@ == l.0@,
    }
}

/// The stub lines of the first `k` harvested apps whose id the dataset lacks.
pub open spec fn stubs_upto(lines: Seq<(String, Option<crate::merge::Record>)>, hs: Seq<Harvested>, k: int) -> Seq<Seq<char>>
    decreases k,
{
    if k <= 0 {
        Seq::empty()
    } else {
        let p = stubs_upto(lines, hs, k - 1);
        if dataset_has(lines, hs[k - 1].id@) { p } else { p.push(stub_text(hs[k - 1])) }
    }
}

fn last_harvested_exec(hs: &Vec<Harvested>, id: &str) -> (r: Option<usize>)
    ensures
        match last_harvested(hs@, id@) {
            Some(h) => r matches Some(i) && i < hs@.len() && hs@[i as int] == h,
            None => r is None,
        },
{
    let mut p: usize = hs.len();
    assert(hs@.take(hs@.len() as int) =~= hs@);
    while p > 0
        invariant
            p <= hs@.len(),
            last_harvested(hs@, id@) == last_harvested(hs@.take(p as int), id@),
        decreases p,
    {
        proof {
            assert(hs@.take(p as int).drop_last() =~= hs@.take(p - 1));
            assert(hs@.take(p as int).last() == hs@[p - 1]);
        }
        if same_str(hs[p - 1].id.as_str(), id) {
            return Some(p - 1);
        }
        p = p - 1;
    }
    None
}

fn dataset_has_exec(lines: &Vec<(String, Option<crate::merge::Record>)>, id: &str) -> (r: bool)
    ensures
        r == dataset_has(lines@, id@),
{
    let mut i: usize = 0;
    while i < lines.len()
        invariant
            i <= lines@.len(),
            forall|j: int| 0 <= j < i ==> !holds_id(#[trigger] lines@[j], id@),
        decreases lines@.len() - i,
    {
        match &lines[i].1 {
            Some(r) => match &r.id {
                Some(s) => {
                    if same_str(s.as_str(), id) {
                        return true;
                    }
                },
                None => {},
            },
            None => {},
        }
        i = i + 1;
    }
    false
}

/// Add harvested apps to a dataset (its lines, each with the record it
/// holds, if any): a stub line is appended for each app whose id no record
/// has, so existing (hand-enriched) records are never replaced and a re-run
/// adds nothing new; a record an app has the id of only has its `app`
/// corrected to the actual install path. Comment and other lines are kept as
/// they are. Gives the lines and the numbers of apps appended and matched.
pub fn merge_stubs(lines: &Vec<(String, Option<crate::merge::Record>)>, hs: &Vec<Harvested>) -> (r: (
    Vec<crate::merge::Line>,
    usize,
    usize,
))
    requires
        forall|i: int| 0 <= i < lines@.len() ==> ((#[trigger] lines@[i]).1 matches Some(x) ==> x.fields.wf()),
    ensures
        r.0@.len() == lines@.len() + stubs_upto(lines@, hs@, hs@.len() as int).len(),
        forall|i: int| 0 <= i < lines@.len() ==> stub_merged_line(#[trigger] lines@[i], r.0@[i], hs@),
        forall|j: int| 0 <= j < stubs_upto(lines@, hs@, hs@.len() as int).len() ==> raw_is(
            #[trigger] r.0@[lines@.len() + j],
            stubs_upto(lines@, hs@, hs@.len() as int)[j],
        ),
        r.1 == stubs_upto(lines@, hs@, hs@.len() as int).len(),
        r.1 + r.2 == hs@.len(),
{
    proof {
        reveal_strlit("app");
    }
    let mut out: Vec<crate::merge::Line> = Vec::new();
    let mut i: usize = 0;
    while i < lines.len()
        invariant
            i <= lines@.len(),
            out@.len() == i,
            forall|q: int| 0 <= q < lines@.len() ==> ((#[trigger] lines@[q]).1 matches Some(x) ==> x.fields.wf()),
            forall|q: int| 0 <= q < i ==> stub_merged_line(#[trigger] lines@[q], out@[q], hs@),
        decreases lines@.len() - i,
    {
        let keep = crate::merge::Line::Raw(lines[i].0.clone());
        let l = match &lines[i].1 {
            Some(rec) => match &rec.id {
                Some(id) => match last_harvested_exec(hs, id.as_str()) {
                    Some(k) => {
                        let want = json_string(hs[k].app_path.as_str());
                        let same = match rec.fields.get("app") {
                            Some(cur) => same_str(cur.as_str(), want.as_str()),
                            None => false,
                        };
                        if same {
                            keep
                        } else {
                            let c = crate::merge::copy_record(rec);
                            let mut f = c.fields;
                            proof {
                                assert(f.entries@ == rec.fields.entries@);
                            }
                            f.insert("app".to_string(), want);
                            let cid = match &rec.id {
                                Some(s) => Some(s.clone()),
                                None => None,
                            };
                            crate::merge::Line::Rec(crate::merge::Record { id: cid, fields: f })
                        }
                    },
                    None => keep,
                },
                None => keep,
            },
            None => keep,
        };
        let ghost before = out@;
        out.push(l);
        proof {
            assert forall|q: int| 0 <= q < i + 1 implies stub_merged_line(#[trigger] lines@[q], out@[q], hs@) by {
                if q < i {
                    assert(out@[q] == before[q]);
                }
            }
        }
        i = i + 1;
    }
    let mut appended: usize = 0;
    let mut k: usize = 0;
    while k < hs.len()
        invariant
            k <= hs@.len(),
            out@.len() == lines@.len() + stubs_upto(lines@, hs@, k as int).len(),
            forall|q: int| 0 <= q < lines@.len() ==> stub_merged_line(#[trigger] lines@[q], out@[q], hs@),
            forall|j: int| 0 <= j < stubs_upto(lines@, hs@, k as int).len() ==> raw_is(
                #[trigger] out@[lines@.len() + j],
                stubs_upto(lines@, hs@, k as int)[j],
            ),
            appended == stubs_upto(lines@, hs@, k as int).len(),
            appended <= k,
        decreases hs@.len() - k,
    {
        let ghost before = out@;
        if !dataset_has_exec(lines, hs[k].id.as_str()) {
            out.push(crate::merge::Line::Raw(stub_line(&hs[k])));
            appended = appended + 1;
        }
        proof {
            assert forall|q: int| 0 <= q < lines@.len() implies stub_merged_line(#[trigger] lines@[q], out@[q], hs@) by {
                assert(out@[q] == before[q]);
            }
            assert forall|j: int| 0 <= j < stubs_upto(lines@, hs@, k + 1).len() implies raw_is(
                #[trigger] out@[lines@.len() + j],
                stubs_upto(lines@, hs@, k + 1)[j],
            ) by {
                if j < stubs_upto(lines@, hs@, k as int).len() {
                    assert(out@[lines@.len() + j] == before[lines@.len() + j]);
                }
            }
        }
        k = k + 1;
    }
    let matched = hs.len() - appended;
    (out, appended, matched)
}

/// Adding the same apps again adds no stub once the dataset has a record of
/// every one of their ids (as it has after the first run): re-runs are
/// idempotent in what they append.
pub proof fn lemma_stubs_rerun_adds_nothing(lines: Seq<(String, Option<crate::merge::Record>)>, hs: Seq<Harvested>, k: int)
    requires
        0 <= k <= hs.len(),
        forall|q: int| 0 <= q < hs.len() ==> dataset_has(lines, (#[trigger] hs[q]).id@),
    ensures
        stubs_upto(lines, hs, k) == Seq::<Seq<char>>::empty(),
    decreases k,
{
    if k > 0 {
        lemma_stubs_rerun_adds_nothing(lines, hs, k - 1);
        assert(dataset_has(lines, hs[k - 1].id@));
    }
}

} // verus!
