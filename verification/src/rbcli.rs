//! The `rb-cli` volume tool that reads and writes HFS images: the argument
//! lists of the verbs the build uses, the parsing of its `ls` listing, and
//! the choice of which binary a build runs. Running the process is the
//! caller's part.

use crate::text::{
    chars_of, is_ws, parse_u64, parse_u64_spec, same_str, string_from, trim_chars, trim_seq, utf8_string,
    utf8_text,
};
use vstd::prelude::*;
use vstd::string::StringSliceAdditionalSpecFns;

verus! {

/// One entry of an `rb-cli ls -q` listing. The listing is fixed-column:
/// `FILE`/`DIR` (bytes 0..4), size right-aligned (4..16), type (18..22),
/// creator (23..27), then the name from byte 29.
#[derive(Debug, Clone)]
pub struct Entry {
    pub is_dir: bool,
    pub ostype: String,
    pub name: String,
    pub creator: String,
    pub size: u64,
}

/// The `rb-cli` binary to run.
pub struct RbCli {
    pub bin: String,
}

/// The views of an argument list.
pub open spec fn argv(v: Seq<String>) -> Seq<Seq<char>> {
    v.map_values(|s: String| s@)
}

fn s(x: &str) -> (r: String)
    ensures
        r@ == x@,
{
    x.to_owned()
}

impl RbCli {
    pub fn new(bin: &str) -> (r: RbCli)
        ensures
            r.bin@ == bin@,
    {
        RbCli { bin: bin.to_owned() }
    }

    /// Arguments listing a directory inside an image.
    pub fn ls(&self, image: &str, path: &str) -> (a: Vec<String>)
        ensures
            argv(a@) == seq!["ls"@, "-q"@, image@, path@],
    {
        let a = vec![s("ls"), s("-q"), s(image), s(path)];
        assert(argv(a@) =~= seq!["ls"@, "-q"@, image@, path@]);
        a
    }

    /// Arguments extracting a file (both forks + Finder info) as a BinHex
    /// `.hqx` on the host.
    pub fn get_binhex(&self, image: &str, src: &str, out_hqx: &str) -> (a: Vec<String>)
        ensures
            argv(a@) == seq!["get-binhex"@, "-q"@, image@, src@, out_hqx@],
    {
        let a = vec![s("get-binhex"), s("-q"), s(image), s(src), s(out_hqx)];
        assert(argv(a@) =~= seq!["get-binhex"@, "-q"@, image@, src@, out_hqx@]);
        a
    }

    /// The `mkdir` calls creating `path` inside an image one level at a time
    /// (rb-cli's mkdir is not recursive): one per prefix `/a`, `/a/b`, ...
    /// of the non-empty components. Failures of these calls are to be
    /// ignored (an existing level fails harmlessly).
    pub fn mkdir_p(&self, image: &str, path: &str) -> (calls: Vec<Vec<String>>)
        ensures
            calls@.len() == path_prefixes(path@).len(),
            forall|k: int| 0 <= k < calls@.len() ==> argv(#[trigger] calls@[k]@)
                == seq!["mkdir"@, image@, path_prefixes(path@)[k], "-q"@],
    {
        let pre = prefixes_of(path);
        let mut calls: Vec<Vec<String>> = Vec::new();
        let mut k: usize = 0;
        while k < pre.len()
            invariant
                k <= pre@.len(),
                pre@.len() == path_prefixes(path@).len(),
                forall|j: int| 0 <= j < pre@.len() ==> (#[trigger] pre@[j])@ == path_prefixes(path@)[j],
                calls@.len() == k,
                forall|j: int| 0 <= j < k ==> argv(#[trigger] calls@[j]@)
                    == seq!["mkdir"@, image@, path_prefixes(path@)[j], "-q"@],
            decreases pre@.len() - k,
        {
            let p = pre[k].clone();
            let a = vec![s("mkdir"), s(image), p, s("-q")];
            assert(argv(a@) =~= seq!["mkdir"@, image@, path_prefixes(path@)[k as int], "-q"@]);
            calls.push(a);
            k = k + 1;
        }
        calls
    }

    /// Arguments writing a `.hqx` (both forks) into a directory inside an
    /// image, clearing `hasBeenInited` so the Finder re-reads the bundle.
    pub fn put_binhex(&self, image: &str, hqx: &str, dst_dir: &str) -> (a: Vec<String>)
        ensures
            argv(a@) == seq!["put-binhex"@, image@, hqx@, "--dst-dir"@, dst_dir@, "--clear-inited"@, "-q"@],
    {
        let a = vec![s("put-binhex"), s(image), s(hqx), s("--dst-dir"), s(dst_dir), s("--clear-inited"), s("-q")];
        assert(argv(a@) =~= seq!["put-binhex"@, image@, hqx@, "--dst-dir"@, dst_dir@, "--clear-inited"@, "-q"@]);
        a
    }

    /// Arguments extracting a plain file (data fork) to the host; `force`
    /// overwrites an existing host file.
    pub fn get(&self, image: &str, src: &str, out: &str, force: bool) -> (a: Vec<String>)
        ensures
            argv(a@) == if force {
                seq!["get"@, "-q"@, image@, src@, out@, "--force"@]
            } else {
                seq!["get"@, "-q"@, image@, src@, out@]
            },
    {
        let mut a = vec![s("get"), s("-q"), s(image), s(src), s(out)];
        if force {
            a.push(s("--force"));
        }
        proof {
            if force {
                assert(argv(a@) =~= seq!["get"@, "-q"@, image@, src@, out@, "--force"@]);
            } else {
                assert(argv(a@) =~= seq!["get"@, "-q"@, image@, src@, out@]);
            }
        }
        a
    }

    /// Arguments writing a host file into an image with the given type and
    /// creator, overwriting any existing file.
    pub fn put_text(&self, image: &str, host: &str, dst: &str, type_: &str, creator: &str) -> (a: Vec<String>)
        ensures
            argv(a@) == seq!["put"@, image@, host@, dst@, "--type"@, type_@, "--creator"@, creator@, "--force"@, "-q"@],
    {
        let a = vec![
            s("put"), s(image), s(host), s(dst), s("--type"), s(type_), s("--creator"), s(creator), s("--force"), s("-q"),
        ];
        assert(argv(a@) =~= seq!["put"@, image@, host@, dst@, "--type"@, type_@, "--creator"@, creator@, "--force"@, "-q"@]);
        a
    }

    /// Arguments writing a host file with an explicit type and creator (the
    /// same call as `put_text`).
    pub fn put_typed(&self, image: &str, host: &str, dst: &str, type_: &str, creator: &str) -> (a: Vec<String>)
        ensures
            argv(a@) == seq!["put"@, image@, host@, dst@, "--type"@, type_@, "--creator"@, creator@, "--force"@, "-q"@],
    {
        self.put_text(image, host, dst, type_, creator)
    }

    /// Arguments replacing the resource fork of an existing file from a host
    /// file.
    pub fn set_rsrc(&self, image: &str, dst: &str, host_rsrc: &str) -> (a: Vec<String>)
        ensures
            argv(a@) == seq!["setrsrc"@, image@, dst@, "--from-file"@, host_rsrc@],
    {
        let a = vec![s("setrsrc"), s(image), s(dst), s("--from-file"), s(host_rsrc)];
        assert(argv(a@) =~= seq!["setrsrc"@, image@, dst@, "--from-file"@, host_rsrc@]);
        a
    }

    /// Arguments extracting a classic-Mac archive to a host directory as one
    /// `.hqx` per file.
    pub fn archive_extract(&self, archive: &str, dest: &str) -> (a: Vec<String>)
        ensures
            argv(a@) == seq!["archive"@, "extract"@, archive@, dest@, "--format"@, "binhex"@],
    {
        let a = vec![s("archive"), s("extract"), s(archive), s(dest), s("--format"), s("binhex")];
        assert(argv(a@) =~= seq!["archive"@, "extract"@, archive@, dest@, "--format"@, "binhex"@]);
        a
    }

    /// Arguments changing an existing file's type and creator codes.
    pub fn chmeta(&self, image: &str, path: &str, type_: &str, creator: &str) -> (a: Vec<String>)
        ensures
            argv(a@) == seq!["chmeta"@, image@, path@, "--type"@, type_@, "--creator"@, creator@],
    {
        let a = vec![s("chmeta"), s(image), s(path), s("--type"), s(type_), s("--creator"), s(creator)];
        assert(argv(a@) =~= seq!["chmeta"@, image@, path@, "--type"@, type_@, "--creator"@, creator@]);
        a
    }

    /// Arguments installing a MacBinary archive into a directory, overwriting
    /// any existing file.
    pub fn put_macbinary(&self, image: &str, host: &str, dst_dir: &str) -> (a: Vec<String>)
        ensures
            argv(a@) == seq!["put-macbinary"@, image@, host@, "--dst-dir"@, dst_dir@, "--force"@, "-q"@],
    {
        let a = vec![s("put-macbinary"), s(image), s(host), s("--dst-dir"), s(dst_dir), s("--force"), s("-q")];
        assert(argv(a@) =~= seq!["put-macbinary"@, image@, host@, "--dst-dir"@, dst_dir@, "--force"@, "-q"@]);
        a
    }

    /// Arguments growing the volume in `image` to `size_mb` MB by cloning it
    /// into a fresh disk at `output`; `size` is the decimal text of `size_mb`
    /// followed by `M`.
    pub fn expand(&self, image: &str, size: &str, output: &str) -> (a: Vec<String>)
        ensures
            argv(a@) == seq!["expand"@, image@, "--size"@, size@, "--output"@, output@, "-q"@],
    {
        let a = vec![s("expand"), s(image), s("--size"), s(size), s("--output"), s(output), s("-q")];
        assert(argv(a@) =~= seq!["expand"@, image@, "--size"@, size@, "--output"@, output@, "-q"@]);
        a
    }

    /// How to test that `path` exists inside an image: list its parent and
    /// look for the leaf. `None` when the path has no leaf (the answer is then
    /// "no"); otherwise the `ls` arguments and the leaf name. A failing listing
    /// also reads as "no".
    pub fn exists_probe(&self, image: &str, path: &str) -> (r: Option<(Vec<String>, String)>)
        ensures
            match (r, parent_leaf(path@)) {
                (Some((a, leaf)), Some((p, l))) => argv(a@) == seq!["ls"@, "-q"@, image@, p] && leaf@ == l,
                (None, None) => true,
                _ => false,
            },
    {
        let cs = chars_of(path);
        let mut end = cs.len();
        assert(cs@.take(cs@.len() as int) =~= cs@);
        while end > 0 && cs[end - 1] == '/'
            invariant
                end <= cs@.len(),
                cs@ == path@,
                trim_slashes_end(path@) == trim_slashes_end(cs@.take(end as int)),
            decreases end,
        {
            assert(cs@.take(end as int).drop_last() =~= cs@.take(end - 1));
            end = end - 1;
        }
        assert(cs@.take(cs@.len() as int) =~= cs@);
        let ghost t = cs@.take(end as int);
        let mut k = end;
        while k > 0 && cs[k - 1] != '/'
            invariant
                k <= end <= cs@.len(),
                t == cs@.take(end as int),
                last_slash(t, end as int) == last_slash(t, k as int),
            decreases k,
        {
            k = k - 1;
        }
        if k == 0 {
            return None;
        }
        let slash = k - 1;
        if slash + 1 == end {
            return None;
        }
        let mut parent: Vec<char> = Vec::new();
        let mut i: usize = 0;
        while i < slash
            invariant
                i <= slash < end <= cs@.len(),
                parent@ == cs@.subrange(0, i as int),
            decreases slash - i,
        {
            parent.push(cs[i]);
            i = i + 1;
            assert(parent@ =~= cs@.subrange(0, i as int));
        }
        let mut leaf: Vec<char> = Vec::new();
        let mut j: usize = slash + 1;
        while j < end
            invariant
                slash + 1 <= j <= end <= cs@.len(),
                leaf@ == cs@.subrange(slash + 1, j as int),
            decreases end - j,
        {
            leaf.push(cs[j]);
            j = j + 1;
            assert(leaf@ =~= cs@.subrange(slash + 1, j as int));
        }
        assert(t.subrange(0, slash as int) =~= parent@);
        assert(t.subrange(slash + 1, t.len() as int) =~= leaf@);
        let p = if parent.len() == 0 { s("/") } else { string_from(parent.as_slice()) };
        let a = vec![s("ls"), s("-q"), s(image), p];
        assert(argv(a@) =~= seq!["ls"@, "-q"@, image@, a@[3]@]);
        Some((a, string_from(leaf.as_slice())))
    }
}

/// `s` without trailing `/`s.
pub open spec fn trim_slashes_end(s: Seq<char>) -> Seq<char>
    decreases s.len(),
{
    if s.len() > 0 && s.last() == '/' { trim_slashes_end(s.drop_last()) } else { s }
}

/// Index of the last `/` in `s[..k]`, or -1.
pub open spec fn last_slash(s: Seq<char>, k: int) -> int
    decreases k,
{
    if k <= 0 { -1 } else if s[k - 1] == '/' { k - 1 } else { last_slash(s, k - 1) }
}

/// The parent directory and leaf name of a path (trailing `/`s ignored): the
/// text before and after its last `/`, the parent `/` when that is empty;
/// `None` when there is no `/` or the leaf is empty.
pub open spec fn parent_leaf(path: Seq<char>) -> Option<(Seq<char>, Seq<char>)> {
    let t = trim_slashes_end(path);
    let i = last_slash(t, t.len() as int);
    if i < 0 || i + 1 == t.len() {
        None
    } else {
        let p = t.subrange(0, i);
        Some((if p.len() == 0 { "/"@ } else { p }, t.subrange(i + 1, t.len() as int)))
    }
}

/// Whether `path` exists inside an image, given the listing of its parent
/// (`None` when listing it failed): the path (trailing `/`s ignored) must
/// have a leaf, and the parent's listing an entry of that name. A failed
/// listing, or a path with no leaf, reads as "does not exist".
pub fn exists_in(listing: Option<&Vec<Entry>>, path: &str) -> (r: bool)
    ensures
        r == match parent_leaf(path@) {
            Some((_p, l)) => match listing {
                Some(es) => exists|k: int| 0 <= k < es@.len() && (#[trigger] es@[k]).name@ == l,
                None => false,
            },
            None => false,
        },
{
    let rb = RbCli { bin: String::new() };
    match rb.exists_probe("", path) {
        Some((_args, leaf)) => match listing {
            Some(es) => listing_has(es, leaf.as_str()),
            None => false,
        },
        None => false,
    }
}

/// Whether a listing holds an entry named `leaf`.
pub fn listing_has(entries: &Vec<Entry>, leaf: &str) -> (r: bool)
    ensures
        r == exists|k: int| 0 <= k < entries@.len() && (#[trigger] entries@[k]).name@ == leaf@,
{
    let mut k: usize = 0;
    while k < entries.len()
        invariant
            k <= entries@.len(),
            forall|j: int| 0 <= j < k ==> (#[trigger] entries@[j]).name@ != leaf@,
        decreases entries@.len() - k,
    {
        if same_str(entries[k].name.as_str(), leaf) {
            return true;
        }
        k = k + 1;
    }
    false
}

/// The `/`-prefixes of the non-empty components of `path`: for `a/b//c`,
/// `/a`, `/a/b`, `/a/b/c`.
pub open spec fn path_prefixes(path: Seq<char>) -> Seq<Seq<char>> {
    let comps = crate::text::components(path, '/');
    Seq::new(comps.len(), |k: int| joined_prefix(comps, k + 1))
}

/// `"/" + c0 + "/" + c1 + ... ` over the first `k` components.
pub open spec fn joined_prefix(comps: Seq<Seq<char>>, k: int) -> Seq<char>
    decreases k,
{
    if k <= 0 { Seq::empty() } else { joined_prefix(comps, k - 1) + seq!['/'] + comps[k - 1] }
}

fn prefixes_of(path: &str) -> (v: Vec<String>)
    ensures
        v@.len() == path_prefixes(path@).len(),
        forall|j: int| 0 <= j < v@.len() ==> (#[trigger] v@[j])@ == path_prefixes(path@)[j],
{
    let comps = crate::text::split_components(path, '/');
    let mut acc: Vec<char> = Vec::new();
    let mut v: Vec<String> = Vec::new();
    let mut k: usize = 0;
    while k < comps.len()
        invariant
            k <= comps@.len(),
            comps@.len() == crate::text::components(path@, '/').len(),
            forall|j: int| 0 <= j < comps@.len() ==> (#[trigger] comps@[j])@ == crate::text::components(path@, '/')[j],
            acc@ == joined_prefix(crate::text::components(path@, '/'), k as int),
            v@.len() == k,
            forall|j: int| 0 <= j < k ==> (#[trigger] v@[j])@ == path_prefixes(path@)[j],
        decreases comps@.len() - k,
    {
        acc.push('/');
        let c = chars_of(comps[k].as_str());
        let mut i: usize = 0;
        let ghost base = acc@;
        while i < c.len()
            invariant
                i <= c@.len(),
                acc@ == base + c@.take(i as int),
            decreases c@.len() - i,
        {
            acc.push(c[i]);
            i = i + 1;
            assert(acc@ =~= base + c@.take(i as int));
        }
        assert(c@.take(c@.len() as int) =~= c@);
        v.push(string_from(acc.as_slice()));
        k = k + 1;
    }
    v
}

/// Whether a path is absolute: on the Unix hosts the tool runs on, one that
/// starts with `/`.
pub open spec fn is_absolute_path(p: Seq<char>) -> bool {
    p.len() > 0 && p[0] == '/'
}

fn absolute(p: &str) -> (r: bool)
    ensures
        r == is_absolute_path(p@),
{
    let c = chars_of(p);
    c.len() > 0 && c[0] == '/'
}

/// Which `rb-cli` binary a build runs: the per-build choice, except that an
/// absolute machine-local path beats a bare per-build name (a bare name is
/// resolved against `$PATH`, which can shadow the configured binary).
pub fn resolve_bin(cfg_rb_cli: &str, settings_rb_cli: Option<&str>) -> (r: String)
    ensures
        r@ == match settings_rb_cli {
            Some(st) => if !is_absolute_path(cfg_rb_cli@) && is_absolute_path(st@) { st@ } else { cfg_rb_cli@ },
            None => cfg_rb_cli@,
        },
{
    let cfg_abs = absolute(cfg_rb_cli);
    match settings_rb_cli {
        Some(st) => if !cfg_abs && absolute(st) { st.to_owned() } else { cfg_rb_cli.to_owned() },
        None => cfg_rb_cli.to_owned(),
    }
}

// ---- the `ls` listing ------------------------------------------------------

/// The text of the bytes `b[lo..hi]`, when that range lies in `b` and is
/// well-formed UTF-8 (for a UTF-8 line: when both ends are character
/// boundaries, as `str::get` requires).
pub open spec fn field(b: Seq<u8>, lo: int, hi: int) -> Option<Seq<char>> {
    if 0 <= lo <= hi <= b.len() { utf8_text(b.subrange(lo, hi)) } else { None }
}

/// `s` without trailing `\r` and `\n`.
pub open spec fn trim_crlf_end(s: Seq<char>) -> Seq<char>
    decreases s.len(),
{
    if s.len() > 0 && (s.last() == '\r' || s.last() == '\n') { trim_crlf_end(s.drop_last()) } else { s }
}

/// What a listing line says, given its UTF-8 bytes: `(is_dir, type, name,
/// creator, size)`; `None` for header, blank and partition lines and for a
/// line with no name.
pub open spec fn ls_line(b: Seq<u8>) -> Option<(bool, Seq<char>, Seq<char>, Seq<char>, int)> {
    let is_file = b.len() >= 4 && b.subrange(0, 4) == seq![0x46u8, 0x49, 0x4C, 0x45];
    let is_dir = b.len() >= 3 && b.subrange(0, 3) == seq![0x44u8, 0x49, 0x52];
    if !is_file && !is_dir {
        None
    } else {
        match field(b, 29, b.len() as int) {
            None => None,
            Some(n) => {
                let name = trim_crlf_end(n);
                if name.len() == 0 {
                    None
                } else {
                    let ostype = match field(b, 18, 22) { Some(t) => trim_seq(t), None => Seq::empty() };
                    let creator = match field(b, 23, 27) { Some(t) => trim_seq(t), None => Seq::empty() };
                    let size = match field(b, 4, 16) {
                        Some(t) => match parse_u64_spec(trim_seq(t)) { Some(v) => v, None => 0 },
                        None => 0,
                    };
                    Some((!is_file, ostype, name, creator, size))
                }
            },
        }
    }
}

fn field_exec(b: &[u8], lo: usize, hi: usize) -> (r: Option<String>)
    ensures
        match r {
            Some(t) => field(b@, lo as int, hi as int) == Some(t@),
            None => field(b@, lo as int, hi as int) is None,
        },
{
    if lo <= hi && hi <= b.len() {
        utf8_string(vstd::slice::slice_subrange(b, lo, hi))
    } else {
        None
    }
}

fn trimmed_field(b: &[u8], lo: usize, hi: usize) -> (r: Vec<char>)
    ensures
        r@ == match field(b@, lo as int, hi as int) { Some(t) => trim_seq(t), None => Seq::empty() },
{
    match field_exec(b, lo, hi) {
        Some(t) => {
            let c = chars_of(t.as_str());
            trim_chars(c.as_slice())
        },
        None => Vec::new(),
    }
}

/// Parse one line of an `rb-cli ls -q` listing.
pub fn parse_ls_line(line: &str) -> (r: Option<Entry>)
    ensures
        match (r, ls_line(line.spec_bytes())) {
            (Some(e), Some(v)) => e.is_dir == v.0 && e.ostype@ == v.1 && e.name@ == v.2 && e.creator@ == v.3
                && e.size == v.4,
            (None, None) => true,
            _ => false,
        },
{
    let b = line.as_bytes();
    let n = b.len();
    let is_file = n >= 4 && b[0] == 0x46 && b[1] == 0x49 && b[2] == 0x4C && b[3] == 0x45;
    let is_dir = n >= 3 && b[0] == 0x44 && b[1] == 0x49 && b[2] == 0x52;
    proof {
        if n >= 4 {
            let p = b@.subrange(0, 4);
            if is_file {
                assert(p =~= seq![0x46u8, 0x49, 0x4C, 0x45]);
            } else if p == seq![0x46u8, 0x49, 0x4C, 0x45] {
                assert(p[0] == 0x46 && p[1] == 0x49 && p[2] == 0x4C && p[3] == 0x45);
            }
        }
        if n >= 3 {
            let p = b@.subrange(0, 3);
            if is_dir {
                assert(p =~= seq![0x44u8, 0x49, 0x52]);
            } else if p == seq![0x44u8, 0x49, 0x52] {
                assert(p[0] == 0x44 && p[1] == 0x49 && p[2] == 0x52);
            }
        }
    }
    if !is_file && !is_dir {
        return None;
    }
    let raw = match field_exec(b, 29, n) {
        Some(t) => t,
        None => return None,
    };
    let rc = chars_of(raw.as_str());
    let mut end = rc.len();
    assert(rc@.take(rc@.len() as int) =~= rc@);
    while end > 0 && (rc[end - 1] == '\r' || rc[end - 1] == '\n')
        invariant
            end <= rc@.len(),
            trim_crlf_end(rc@) == trim_crlf_end(rc@.take(end as int)),
        decreases end,
    {
        assert(rc@.take(end as int).drop_last() =~= rc@.take(end - 1));
        end = end - 1;
    }
    assert(rc@.take(rc@.len() as int) =~= rc@);
    if end == 0 {
        return None;
    }
    let name = string_from(vstd::slice::slice_subrange(rc.as_slice(), 0, end));
    assert(rc@.subrange(0, end as int) =~= rc@.take(end as int));
    let ostype = string_from(trimmed_field(b, 18, 22).as_slice());
    let creator = string_from(trimmed_field(b, 23, 27).as_slice());
    let sz = trimmed_field(b, 4, 16);
    let size = match field_exec(b, 4, 16) {
        Some(_) => match parse_u64(sz.as_slice()) {
            Some(v) => v,
            None => 0,
        },
        None => 0,
    };
    Some(Entry { is_dir: !is_file, ostype, name, creator, size })
}

/// What a listing line says, as a value.
pub open spec fn entry_view(e: Entry) -> (bool, Seq<char>, Seq<char>, Seq<char>, int) {
    (e.is_dir, e.ostype@, e.name@, e.creator@, e.size as int)
}

/// The entries of the first `k` lines (given by their UTF-8 bytes).
pub open spec fn listing_upto(lines: Seq<Seq<u8>>, k: int) -> Seq<(bool, Seq<char>, Seq<char>, Seq<char>, int)>
    decreases k,
{
    if k <= 0 {
        Seq::empty()
    } else {
        let p = listing_upto(lines, k - 1);
        match ls_line(lines[k - 1]) {
            Some(e) => p.push(e),
            None => p,
        }
    }
}

/// The UTF-8 bytes of each line of `out`.
pub open spec fn line_bytes(out: Seq<char>) -> Seq<Seq<u8>> {
    crate::text::lines_seq(out).map_values(|l: Seq<char>| vstd::utf8::encode_utf8(l))
}

/// The entries of an `rb-cli ls -q` output, one per entry line, in order.
pub fn parse_listing(out: &str) -> (v: Vec<Entry>)
    ensures
        v@.map_values(|e: Entry| entry_view(e)) == listing_upto(line_bytes(out@), line_bytes(out@).len() as int),
{
    let lines = crate::text::lines_of(out);
    let ghost lb = line_bytes(out@);
    let mut v: Vec<Entry> = Vec::new();
    let mut k: usize = 0;
    while k < lines.len()
        invariant
            k <= lines@.len(),
            lines@.len() == crate::text::lines_seq(out@).len(),
            forall|j: int| 0 <= j < lines@.len() ==> (#[trigger] lines@[j])@ == crate::text::lines_seq(out@)[j],
            lb == line_bytes(out@),
            v@.map_values(|e: Entry| entry_view(e)) == listing_upto(lb, k as int),
        decreases lines@.len() - k,
    {
        let ghost before = v@;
        match parse_ls_line(lines[k].as_str()) {
            Some(e) => v.push(e),
            None => {},
        }
        assert(v@.map_values(|e: Entry| entry_view(e)) =~= listing_upto(lb, k + 1));
        k = k + 1;
    }
    v
}

} // verus!
