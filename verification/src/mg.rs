//! Enrichment from a Macintosh Garden archive: the HTML of its descriptions
//! flattened to text, box art told apart from screenshots, image file
//! extensions, 68k records, where a record's images live and how well a
//! record matches.

use crate::text::{
    chars_of, contains_seq, contains_str, lower_chars, lower_seq, occurs_at, replace_all, replaced,
    same_str, string_from,
};
use vstd::prelude::*;

verus! {

/// A Macintosh Garden record.
pub struct MgRec {
    pub nid: i64,
    /// `games` or `apps`.
    pub kind: String,
    pub title: String,
    pub year: Option<i64>,
    pub vendor: Option<String>,
    pub genres: Vec<String>,
    pub desc_html: String,
    /// Screenshot file names, as the record references them.
    pub screenshots: Vec<String>,
}

/// `b` joined under the directory `a` (for a relative `b`).
pub open spec fn path_join(a: Seq<char>, b: Seq<char>) -> Seq<char> {
    if a.len() == 0 { b } else if a.last() == '/' { a + b } else { a + seq!['/'] + b }
}

/// Join a relative component onto a directory path.
pub fn join_path(a: &str, b: &str) -> (r: String)
    ensures
        r@ == path_join(a@, b@),
{
    let ac = chars_of(a);
    let mut r = a.to_owned();
    if ac.len() == 0 {
        return b.to_owned();
    }
    if ac[ac.len() - 1] != '/' {
        crate::text::push_char(&mut r, '/');
    }
    crate::text::append(&mut r, b);
    r
}

impl MgRec {
    /// The directory holding this title's scraped images:
    /// `<archive>/<kind>/<nid>`.
    pub fn dir(&self, archive: &str) -> (r: String)
        ensures
            r@ == path_join(path_join(archive@, self.kind@), crate::text::decimal(self.nid as int)),
    {
        let k = join_path(archive, self.kind.as_str());
        join_path(k.as_str(), crate::text::decimal_i64(self.nid).as_str())
    }

    /// Match-quality score: one point each for a year, a vendor, and (given
    /// by the caller, who looks on disk) an image actually present.
    pub fn score(&self, has_img: bool) -> (r: u8)
        ensures
            r == (if self.year is Some { 1u8 } else { 0u8 }) + (if self.vendor is Some { 1u8 } else { 0u8 })
                + (if has_img { 1u8 } else { 0u8 }),
    {
        (if self.year.is_some() { 1u8 } else { 0u8 }) + (if self.vendor.is_some() { 1u8 } else { 0u8 })
            + (if has_img { 1u8 } else { 0u8 })
    }
}

/// Whether a record's architectures include 68k, ignoring ASCII case.
pub fn arch_has_68k(arch: &Vec<String>) -> (r: bool)
    ensures
        r == exists|k: int| 0 <= k < arch@.len() && lower_seq((#[trigger] arch@[k])@) == "68k"@,
{
    let mut k: usize = 0;
    while k < arch.len()
        invariant
            k <= arch@.len(),
            forall|j: int| 0 <= j < k ==> lower_seq((#[trigger] arch@[j])@) != "68k"@,
        decreases arch@.len() - k,
    {
        let l = lower_chars(arch[k].as_str());
        let t = chars_of("68k");
        if crate::text::seq_eq(l.as_slice(), t.as_slice()) {
            return true;
        }
        k = k + 1;
    }
    false
}

/// A screenshot name that is box or cover art rather than gameplay, ignoring
/// ASCII case.
pub open spec fn box_name(n: Seq<char>) -> bool {
    let l = lower_seq(n);
    contains_seq(l, "box"@) || contains_seq(l, "cover"@) || contains_seq(l, "_front"@) || contains_seq(l, "_back"@)
}

/// Whether a screenshot file name is box or cover art.
pub fn is_box(name: &str) -> (r: bool)
    ensures
        r == box_name(name@),
{
    let l = lower_chars(name);
    contains_str(l.as_slice(), "box") || contains_str(l.as_slice(), "cover") || contains_str(l.as_slice(), "_front")
        || contains_str(l.as_slice(), "_back")
}

/// `s` without its HTML comments (`<!--` up to the next `-->`, or to the end
/// when unclosed), from index `i` on.
pub open spec fn no_comments_from(s: Seq<char>, i: int) -> Seq<char>
    decreases s.len() + 1 - i,
{
    if i < 0 || i > s.len() {
        Seq::empty()
    } else {
        match crate::text::first_occ(s, "<!--"@, i) {
            None => s.subrange(i, s.len() as int),
            Some(k) => if i <= k && k + 4 <= s.len() {
                s.subrange(i, k) + match crate::text::first_occ(s, "-->"@, k) {
                    Some(j) => if k <= j && j + 3 <= s.len() { no_comments_from(s, j + 3) } else { Seq::empty() },
                    None => Seq::empty(),
                }
            } else {
                Seq::empty()
            },
        }
    }
}

/// Dropping tags up to the end of `s`: the text kept and the `<` nesting.
pub open spec fn tags_state(s: Seq<char>) -> (Seq<char>, nat)
    decreases s.len(),
{
    if s.len() == 0 {
        (Seq::empty(), 0)
    } else {
        let (o, d) = tags_state(s.drop_last());
        let c = s.last();
        if c == '<' {
            (o, d + 1)
        } else if c == '>' && d > 0 {
            (o, (d - 1) as nat)
        } else if d == 0 {
            (o.push(c), d)
        } else {
            (o, d)
        }
    }
}

/// The entity replacements applied to the flattened text, in order.
pub open spec fn entities(t: Seq<char>) -> Seq<char> {
    let t1 = replaced(t, "&amp;"@, "&"@);
    let t2 = replaced(t1, "&lt;"@, "<"@);
    let t3 = replaced(t2, "&gt;"@, ">"@);
    let t4 = replaced(t3, "&quot;"@, "\""@);
    let t5 = replaced(t4, "&#39;"@, "'"@);
    let t6 = replaced(t5, "&apos;"@, "'"@);
    let t7 = replaced(t6, "&nbsp;"@, " "@);
    let t8 = replaced(t7, "&ndash;"@, "-"@);
    let t9 = replaced(t8, "&mdash;"@, "-"@);
    replaced(t9, "&hellip;"@, "..."@)
}

/// An HTML description flattened to plain text: comments removed, then
/// everything inside `<...>` dropped, then the common entities decoded.
pub open spec fn html_text(s: Seq<char>) -> Seq<char> {
    entities(tags_state(no_comments_from(s, 0)).0)
}

/// Flatten an HTML description to plain text.
pub fn strip_html(s: &str) -> (r: String)
    ensures
        r@ == html_text(s@),
{
    let cs = chars_of(s);
    let open = chars_of("<!--");
    let close = chars_of("-->");
    proof {
        reveal_strlit("<!--");
        reveal_strlit("-->");
    }
    let mut out: Vec<char> = Vec::new();
    let mut i: usize = 0;
    let n = cs.len();
    while i <= n
        invariant_except_break
            i <= n == cs@.len(),
            cs@ == s@,
            open@ == "<!--"@,
            close@ == "-->"@,
            open@.len() == 4,
            close@.len() == 3,
            no_comments_from(s@, 0) == out@ + no_comments_from(s@, i as int),
        ensures
            out@ == no_comments_from(s@, 0),
        decreases n + 1 - i,
    {
        match crate::text::find_from(cs.as_slice(), open.as_slice(), i) {
            None => {
                let ghost before = out@;
                let mut q = i;
                while q < n
                    invariant
                        i <= q <= n == cs@.len(),
                        out@ == before + cs@.subrange(i as int, q as int),
                    decreases n - q,
                {
                    out.push(cs[q]);
                    q = q + 1;
                    assert(out@ =~= before + cs@.subrange(i as int, q as int));
                }
                break;
            },
            Some(k) => {
                proof {
                    crate::text::lemma_first_occ(cs@, open@, i as int);
                }
                let ghost before = out@;
                let mut q = i;
                while q < k
                    invariant
                        i <= q <= k <= n == cs@.len(),
                        out@ == before + cs@.subrange(i as int, q as int),
                    decreases k - q,
                {
                    out.push(cs[q]);
                    q = q + 1;
                    assert(out@ =~= before + cs@.subrange(i as int, q as int));
                }
                match crate::text::find_from(cs.as_slice(), close.as_slice(), k) {
                    Some(j) => {
                        proof {
                            crate::text::lemma_first_occ(cs@, close@, k as int);
                        }
                        i = j + 3;
                    },
                    None => {
                        break;
                    },
                }
            },
        }
    }
    let mut text: Vec<char> = Vec::new();
    let mut depth: u64 = 0;
    let mut q: usize = 0;
    while q < out.len()
        invariant
            q <= out@.len(),
            depth <= q,
            (text@, depth as nat) == tags_state(out@.take(q as int)),
        decreases out@.len() - q,
    {
        assert(out@.take(q as int + 1).drop_last() =~= out@.take(q as int));
        let c = out[q];
        if c == '<' {
            depth = depth + 1;
        } else if c == '>' && depth > 0 {
            depth = depth - 1;
        } else if depth == 0 {
            text.push(c);
        }
        q = q + 1;
    }
    assert(out@.take(out@.len() as int) =~= out@);
    proof {
        reveal_strlit("&amp;");
        reveal_strlit("&lt;");
        reveal_strlit("&gt;");
        reveal_strlit("&quot;");
        reveal_strlit("&#39;");
        reveal_strlit("&apos;");
        reveal_strlit("&nbsp;");
        reveal_strlit("&ndash;");
        reveal_strlit("&mdash;");
        reveal_strlit("&hellip;");
    }
    let t1 = replace_all(text.as_slice(), "&amp;", "&");
    let t2 = replace_all(t1.as_slice(), "&lt;", "<");
    let t3 = replace_all(t2.as_slice(), "&gt;", ">");
    let t4 = replace_all(t3.as_slice(), "&quot;", "\"");
    let t5 = replace_all(t4.as_slice(), "&#39;", "'");
    let t6 = replace_all(t5.as_slice(), "&apos;", "'");
    let t7 = replace_all(t6.as_slice(), "&nbsp;", " ");
    let t8 = replace_all(t7.as_slice(), "&ndash;", "-");
    let t9 = replace_all(t8.as_slice(), "&mdash;", "-");
    let t10 = replace_all(t9.as_slice(), "&hellip;", "...");
    string_from(t10.as_slice())
}

/// Whether a (trimmed) dataset line is blank or a comment.
pub fn is_blank_or_comment(t: &str) -> (r: bool)
    ensures
        r == crate::enrich::blank_or_comment(t@),
{
    crate::enrich::is_blank_or_comment(t)
}

/// The extension of an image file name: the text after the last `.` when
/// it is 1 to 5 bytes long, else `img`.
pub open spec fn ext_text(name: Seq<char>) -> Seq<char> {
    let e = crate::fetch::extension(name);
    if e.len() > 0 && vstd::utf8::encode_utf8(e).len() <= 5 { e } else { "img"@ }
}

/// The extension to store an image under.
pub fn ext_of(name: &str) -> (r: String)
    ensures
        r@ == ext_text(name@),
{
    let c = chars_of(name);
    let n = c.len();
    let mut k = n;
    while k > 0 && c[k - 1] != '.'
        invariant
            k <= n == c@.len(),
            crate::enrich::last_index_of(c@, '.', n as int) == crate::enrich::last_index_of(c@, '.', k as int),
        decreases k,
    {
        k = k - 1;
    }
    let e = string_from(vstd::slice::slice_subrange(c.as_slice(), k, n));
    if k < n && e.as_str().as_bytes().len() <= 5 {
        e
    } else {
        "img".to_owned()
    }
}

} // verus!
