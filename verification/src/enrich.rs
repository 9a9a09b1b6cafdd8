//! Reading a metadata catalog's XML into its games and images, matching
//! dataset titles to it, and tidying what is taken from it: title normalisation and the match keys of a title, description
//! clamping, release years, the catalog's field names, and colour detection
//! from a screenshot's pixels.

use crate::harvest::{fold_accent, folded};
use crate::text::{
    alnum, chars_of, is_ascii_alnum, is_ascii_digit, is_ws, lower_ascii, lower_char, parse_i64,
    parse_i64_spec, seq_eq, string_from, trim_chars, trim_seq, utf8_string, utf8_text, whitespace,
};
use quick_xml::events::Event;
use vstd::prelude::*;
use vstd::string::StringSliceAdditionalSpecFns;

verus! {

/// Fold a common Latin accented letter to its base letter.
pub fn fold(c: char) -> (r: char)
    ensures
        r == folded(c),
{
    fold_accent(c)
}

/// Normalising a title up to its end: the output so far and whether a
/// separator is pending.
pub open spec fn norm_state(s: Seq<char>) -> (Seq<char>, bool)
    decreases s.len(),
{
    if s.len() == 0 {
        (Seq::empty(), false)
    } else {
        let (o, sp) = norm_state(s.drop_last());
        let c = lower_ascii(folded(s.last()));
        if is_ascii_alnum(c) {
            ((if sp && o.len() > 0 { o.push(' ') } else { o }).push(c), false)
        } else {
            (o, true)
        }
    }
}

/// A title normalised for matching: accents folded, ASCII-lowercased, only
/// ASCII letters and digits kept, each run of anything else between kept
/// characters a single space.
pub open spec fn normalized(s: Seq<char>) -> Seq<char> {
    norm_state(s).0
}

/// Normalise a title for matching.
pub fn normalize(s: &str) -> (r: String)
    ensures
        r@ == normalized(s@),
{
    let cs = chars_of(s);
    let mut out: Vec<char> = Vec::new();
    let mut sp = false;
    let mut i: usize = 0;
    while i < cs.len()
        invariant
            i <= cs@.len(),
            cs@ == s@,
            (out@, sp) == norm_state(cs@.take(i as int)),
        decreases cs@.len() - i,
    {
        assert(cs@.take(i as int + 1).drop_last() =~= cs@.take(i as int));
        let c = lower_char(fold(cs[i]));
        if alnum(c) {
            if sp && out.len() > 0 {
                out.push(' ');
            }
            out.push(c);
            sp = false;
        } else {
            sp = true;
        }
        i = i + 1;
    }
    assert(cs@.take(cs@.len() as int) =~= cs@);
    string_from(out.as_slice())
}

/// Dropping `(...)` / `[...]` groups up to the end of `s`: the output so far
/// and the nesting depth.
pub open spec fn groups_state(s: Seq<char>) -> (Seq<char>, nat)
    decreases s.len(),
{
    if s.len() == 0 {
        (Seq::empty(), 0)
    } else {
        let (o, d) = groups_state(s.drop_last());
        let c = s.last();
        if c == '(' || c == '[' {
            (o, d + 1)
        } else if c == ')' || c == ']' {
            (o, if d > 0 { (d - 1) as nat } else { 0 })
        } else if d == 0 {
            (o.push(c), d)
        } else {
            (o, d)
        }
    }
}

/// `s` without its `(...)` / `[...]` qualifier groups (an unmatched closing
/// bracket is dropped; nesting is counted).
pub open spec fn without_groups(s: Seq<char>) -> Seq<char> {
    groups_state(s).0
}

/// Drop `(...)` / `[...]` qualifier groups.
pub fn strip_groups(s: &str) -> (r: String)
    ensures
        r@ == without_groups(s@),
{
    let cs = chars_of(s);
    let mut out: Vec<char> = Vec::new();
    let mut depth: u64 = 0;
    let mut i: usize = 0;
    while i < cs.len()
        invariant
            i <= cs@.len(),
            cs@ == s@,
            depth <= i,
            (out@, depth as nat) == groups_state(cs@.take(i as int)),
        decreases cs@.len() - i,
    {
        assert(cs@.take(i as int + 1).drop_last() =~= cs@.take(i as int));
        let c = cs[i];
        if c == '(' || c == '[' {
            depth = depth + 1;
        } else if c == ')' || c == ']' {
            depth = if depth > 0 { depth - 1 } else { 0 };
        } else if depth == 0 {
            out.push(c);
        }
        i = i + 1;
    }
    assert(cs@.take(cs@.len() as int) =~= cs@);
    string_from(out.as_slice())
}

/// Index of the last `c` in `s[..k]`, or -1.
pub open spec fn last_index_of(s: Seq<char>, c: char, k: int) -> int
    decreases k,
{
    if k <= 0 { -1 } else if s[k - 1] == c { k - 1 } else { last_index_of(s, c, k - 1) }
}

/// `s` without trailing whitespace.
pub open spec fn trim_end_seq(s: Seq<char>) -> Seq<char> {
    s.subrange(0, crate::text::back_ws(s, 0, s.len() as int))
}

/// A dotted version token: holds a `.` and a digit, and only digits and `.`.
pub open spec fn version_token(t: Seq<char>) -> bool {
    (exists|i: int| 0 <= i < t.len() && t[i] == '.') && (exists|i: int| 0 <= i < t.len() && is_ascii_digit(t[i]))
        && (forall|i: int| 0 <= i < t.len() ==> is_ascii_digit(#[trigger] t[i]) || t[i] == '.')
}

/// A title without a trailing dotted version token (`Glider 4.0` → `Glider`);
/// a bare sequel number is kept.
pub open spec fn without_version(s: Seq<char>) -> Seq<char> {
    let t = trim_end_seq(s);
    let p = last_index_of(t, ' ', t.len() as int);
    if p >= 0 && version_token(t.subrange(p + 1, t.len() as int)) { t.subrange(0, p) } else { s }
}

proof fn lemma_last_index(s: Seq<char>, c: char, k: int)
    requires
        0 <= k <= s.len(),
    ensures
        -1 <= last_index_of(s, c, k) < k,
        last_index_of(s, c, k) >= 0 ==> s[last_index_of(s, c, k)] == c,
    decreases k,
{
    if k > 0 && s[k - 1] != c {
        lemma_last_index(s, c, k - 1);
    }
}

/// Drop a trailing dotted version token.
pub fn strip_version(s: &str) -> (r: String)
    ensures
        r@ == without_version(s@),
{
    let cs = chars_of(s);
    let n = cs.len();
    let mut hi: usize = n;
    while hi > 0 && whitespace(cs[hi - 1])
        invariant
            hi <= n == cs@.len(),
            crate::text::back_ws(cs@, 0, n as int) == crate::text::back_ws(cs@, 0, hi as int),
        decreases hi,
    {
        hi = hi - 1;
    }
    let ghost t = cs@.subrange(0, hi as int);
    let mut p = hi;
    while p > 0 && cs[p - 1] != ' '
        invariant
            p <= hi <= n == cs@.len(),
            t == cs@.subrange(0, hi as int),
            last_index_of(t, ' ', hi as int) == last_index_of(t, ' ', p as int),
        decreases p,
    {
        p = p - 1;
    }
    if p == 0 {
        return s.to_owned();
    }
    let pos = p - 1;
    let mut has_dot = false;
    let mut has_digit = false;
    let mut all_ok = true;
    let mut j = pos + 1;
    while j < hi
        invariant
            pos + 1 <= j <= hi <= n == cs@.len(),
            has_dot == exists|i: int| pos + 1 <= i < j && cs@[i] == '.',
            has_digit == exists|i: int| pos + 1 <= i < j && is_ascii_digit(cs@[i]),
            all_ok == forall|i: int| pos + 1 <= i < j ==> is_ascii_digit(#[trigger] cs@[i]) || cs@[i] == '.',
        decreases hi - j,
    {
        let c = cs[j];
        if c == '.' {
            has_dot = true;
        }
        if '0' <= c && c <= '9' {
            has_digit = true;
        }
        if !(('0' <= c && c <= '9') || c == '.') {
            all_ok = false;
        }
        j = j + 1;
    }
    let ghost last = t.subrange(pos + 1, t.len() as int);
    proof {
        assert(has_dot == exists|i: int| 0 <= i < last.len() && last[i] == '.') by {
            if has_dot {
                let i = choose|i: int| pos + 1 <= i < hi && cs@[i] == '.';
                assert(last[i - pos - 1] == '.');
            }
            if exists|i: int| 0 <= i < last.len() && last[i] == '.' {
                let i = choose|i: int| 0 <= i < last.len() && last[i] == '.';
                assert(cs@[pos + 1 + i] == '.');
            }
        }
        assert(has_digit == exists|i: int| 0 <= i < last.len() && is_ascii_digit(last[i])) by {
            if has_digit {
                let i = choose|i: int| pos + 1 <= i < hi && is_ascii_digit(cs@[i]);
                assert(is_ascii_digit(last[i - pos - 1]));
            }
            if exists|i: int| 0 <= i < last.len() && is_ascii_digit(last[i]) {
                let i = choose|i: int| 0 <= i < last.len() && is_ascii_digit(last[i]);
                assert(is_ascii_digit(cs@[pos + 1 + i]));
            }
        }
        assert(all_ok == forall|i: int| 0 <= i < last.len() ==> is_ascii_digit(#[trigger] last[i]) || last[i] == '.') by {
            if !all_ok {
                let i = choose|i: int| pos + 1 <= i < hi && !(is_ascii_digit(#[trigger] cs@[i]) || cs@[i] == '.');
                assert(last[i - pos - 1] == cs@[i]);
            } else {
                assert forall|i: int| 0 <= i < last.len() implies is_ascii_digit(#[trigger] last[i]) || last[i] == '.' by {
                    assert(last[i] == cs@[pos + 1 + i]);
                }
            }
        }
    }
    if has_dot && has_digit && all_ok {
        assert(t.subrange(0, pos as int) =~= cs@.subrange(0, pos as int));
        string_from(vstd::slice::slice_subrange(cs.as_slice(), 0, pos))
    } else {
        s.to_owned()
    }
}


/// `k` without one leading article (`the `, `a `, `an `, the first that
/// matches) and then one trailing one (` the`, ` a`, ` an`).
pub open spec fn without_articles(k: Seq<char>) -> Seq<char> {
    let s1 = if k.len() >= 4 && k.subrange(0, 4) == "the "@ {
        k.subrange(4, k.len() as int)
    } else if k.len() >= 2 && k.subrange(0, 2) == "a "@ {
        k.subrange(2, k.len() as int)
    } else if k.len() >= 3 && k.subrange(0, 3) == "an "@ {
        k.subrange(3, k.len() as int)
    } else {
        k
    };
    let n = s1.len() as int;
    if n >= 4 && s1.subrange(n - 4, n) == " the"@ {
        s1.subrange(0, n - 4)
    } else if n >= 2 && s1.subrange(n - 2, n) == " a"@ {
        s1.subrange(0, n - 2)
    } else if n >= 3 && s1.subrange(n - 3, n) == " an"@ {
        s1.subrange(0, n - 3)
    } else {
        s1
    }
}

fn has_prefix(k: &[char], lo: usize, p: &str) -> (r: bool)
    requires
        lo <= k@.len(),
    ensures
        r == (k@.len() - lo >= p@.len() && k@.subrange(lo as int, lo + p@.len()) == p@),
{
    let pc = chars_of(p);
    if k.len() - lo < pc.len() {
        return false;
    }
    let t = vstd::slice::slice_subrange(k, lo, lo + pc.len());
    seq_eq(t, pc.as_slice())
}

fn has_suffix(k: &[char], lo: usize, hi: usize, p: &str) -> (r: bool)
    requires
        lo <= hi <= k@.len(),
    ensures
        r == (hi - lo >= p@.len() && k@.subrange(hi - p@.len(), hi as int) == p@),
{
    let pc = chars_of(p);
    if hi - lo < pc.len() {
        return false;
    }
    let t = vstd::slice::slice_subrange(k, hi - pc.len(), hi);
    seq_eq(t, pc.as_slice())
}

/// Drop a leading or trailing article from a normalised key.
pub fn strip_articles(k: &str) -> (r: String)
    ensures
        r@ == without_articles(k@),
{
    let c = chars_of(k);
    let n = c.len();
    proof {
        reveal_strlit("the ");
        reveal_strlit("a ");
        reveal_strlit("an ");
        reveal_strlit(" the");
        reveal_strlit(" a");
        reveal_strlit(" an");
    }
    let lo: usize = if has_prefix(c.as_slice(), 0, "the ") {
        4
    } else if has_prefix(c.as_slice(), 0, "a ") {
        2
    } else if has_prefix(c.as_slice(), 0, "an ") {
        3
    } else {
        0
    };
    proof {
        reveal_strlit("the ");
        reveal_strlit("a ");
        reveal_strlit("an ");
    }
    let ghost s1 = c@.subrange(lo as int, n as int);
    assert(lo == 0 ==> s1 =~= c@);
    let hi: usize = if has_suffix(c.as_slice(), lo, n, " the") {
        n - 4
    } else if has_suffix(c.as_slice(), lo, n, " a") {
        n - 2
    } else if has_suffix(c.as_slice(), lo, n, " an") {
        n - 3
    } else {
        n
    };
    proof {
        reveal_strlit(" the");
        reveal_strlit(" a");
        reveal_strlit(" an");
        let m = s1.len() as int;
        assert(m >= 4 ==> s1.subrange(m - 4, m) =~= c@.subrange(n - 4, n as int));
        assert(m >= 2 ==> s1.subrange(m - 2, m) =~= c@.subrange(n - 2, n as int));
        assert(m >= 3 ==> s1.subrange(m - 3, m) =~= c@.subrange(n - 3, n as int));
    }
    assert(c@.subrange(lo as int, hi as int) =~= without_articles(k@));
    string_from(vstd::slice::slice_subrange(c.as_slice(), lo, hi))
}

/// The text before the first `:` or `/` (all of it when there is none).
pub open spec fn head_segment(s: Seq<char>) -> Seq<char> {
    s.subrange(0, first_sep(s, 0))
}

pub open spec fn first_sep(s: Seq<char>, i: int) -> int
    decreases s.len() - i,
{
    if i >= s.len() || i < 0 || s[i] == ':' || s[i] == '/' { i } else { first_sep(s, i + 1) }
}

proof fn lemma_first_sep(s: Seq<char>, i: int)
    requires
        0 <= i <= s.len(),
    ensures
        i <= first_sep(s, i) <= s.len(),
    decreases s.len() - i,
{
    if i < s.len() && s[i] != ':' && s[i] != '/' {
        lemma_first_sep(s, i + 1);
    }
}

fn head_of(s: &str) -> (r: String)
    ensures
        r@ == head_segment(s@),
{
    let c = chars_of(s);
    let mut i: usize = 0;
    while i < c.len() && c[i] != ':' && c[i] != '/'
        invariant
            i <= c@.len(),
            c@ == s@,
            first_sep(s@, 0) == first_sep(s@, i as int),
        decreases c@.len() - i,
    {
        i = i + 1;
    }
    string_from(vstd::slice::slice_subrange(c.as_slice(), 0, i))
}

/// The candidate keys of a title before de-duplication: for each of the
/// full name, the name without qualifier groups, and the head segments (before
/// `:` or `/`) of those two, the key of the text and of the text without a
/// version, each followed by the same key without articles.
pub open spec fn raw_keys(name: Seq<char>) -> Seq<Seq<char>> {
    let st = without_groups(name);
    let raw = seq![name, st, head_segment(name), head_segment(st)];
    Seq::new(16, |i: int| {
        let r = raw[i / 4];
        let cand = if (i / 2) % 2 == 0 { r } else { without_version(r) };
        let k = normalized(cand);
        if i % 2 == 0 { k } else { without_articles(k) }
    })
}

/// The non-empty members of `s` in order, each kept only the first time.
pub open spec fn dedup_nonempty(s: Seq<Seq<char>>) -> Seq<Seq<char>>
    decreases s.len(),
{
    if s.len() == 0 {
        Seq::empty()
    } else {
        let p = dedup_nonempty(s.drop_last());
        if s.last().len() > 0 && !p.contains(s.last()) { p.push(s.last()) } else { p }
    }
}

fn push_key(v: &mut Vec<String>, k: String)
    ensures
        final(v)@.map_values(|x: String| x@) == if k@.len() > 0 && !old(v)@.map_values(|x: String| x@).contains(k@) {
            old(v)@.map_values(|x: String| x@).push(k@)
        } else {
            old(v)@.map_values(|x: String| x@)
        },
{
    let kc = chars_of(k.as_str());
    if kc.len() == 0 {
        return;
    }
    let mut j: usize = 0;
    while j < v.len()
        invariant
            j <= v@.len(),
            kc@ == k@,
            v@ == old(v)@,
            forall|q: int| 0 <= q < j ==> (#[trigger] v@[q])@ != k@,
        decreases v@.len() - j,
    {
        let vc = chars_of(v[j].as_str());
        if seq_eq(vc.as_slice(), kc.as_slice()) {
            assert(old(v)@.map_values(|x: String| x@)[j as int] == k@);
            return;
        }
        j = j + 1;
    }
    proof {
        let m = old(v)@.map_values(|x: String| x@);
        if m.contains(k@) {
            let q = choose|q: int| 0 <= q < m.len() && m[q] == k@;
            assert(v@[q]@ == k@);
        }
    }
    v.push(k);
    assert(v@.map_values(|x: String| x@) =~= old(v)@.map_values(|x: String| x@).push(k@));
}

/// The normalised match keys of a title, de-duplicated, in order.
pub fn candidate_keys(name: &str) -> (v: Vec<String>)
    ensures
        v@.map_values(|x: String| x@) == dedup_nonempty(raw_keys(name@)),
{
    let stripped = strip_groups(name);
    let before = head_of(name);
    let stripped_before = head_of(stripped.as_str());
    let raw: Vec<String> = vec![name.to_owned(), stripped.clone(), before, stripped_before];
    let ghost rk = raw_keys(name@);
    let mut v: Vec<String> = Vec::new();
    let mut i: usize = 0;
    while i < 16
        invariant
            i <= 16,
            rk == raw_keys(name@),
            raw@.len() == 4,
            raw@[0]@ == name@,
            raw@[1]@ == without_groups(name@),
            raw@[2]@ == head_segment(name@),
            raw@[3]@ == head_segment(without_groups(name@)),
            v@.map_values(|x: String| x@) == dedup_nonempty(rk.take(i as int)),
        decreases 16 - i,
    {
        assert(rk.take(i as int + 1).drop_last() =~= rk.take(i as int));
        let r = raw[i / 4].as_str();
        let cand = if (i / 2) % 2 == 0 { r.to_owned() } else { strip_version(r) };
        let k = normalize(cand.as_str());
        let kk = if i % 2 == 0 { k } else { strip_articles(k.as_str()) };
        assert(kk@ == rk[i as int]);
        push_key(&mut v, kk);
        i = i + 1;
    }
    assert(rk.take(16) =~= rk);
    v
}

/// The whitespace-separated words of `s`.
pub open spec fn words(s: Seq<char>) -> Seq<Seq<char>> {
    let (done, cur) = ws_state(s);
    if cur.len() > 0 { done.push(cur) } else { done }
}

pub open spec fn ws_state(s: Seq<char>) -> (Seq<Seq<char>>, Seq<char>)
    decreases s.len(),
{
    if s.len() == 0 {
        (Seq::empty(), Seq::empty())
    } else {
        let (done, cur) = ws_state(s.drop_last());
        if is_ws(s.last()) {
            (if cur.len() > 0 { done.push(cur) } else { done }, Seq::empty())
        } else {
            (done, cur.push(s.last()))
        }
    }
}

/// Words joined by single spaces.
pub open spec fn joined_words(w: Seq<Seq<char>>) -> Seq<char>
    decreases w.len(),
{
    if w.len() == 0 {
        Seq::empty()
    } else if w.len() == 1 {
        w[0]
    } else {
        joined_words(w.drop_last()) + seq![' '] + w.last()
    }
}

fn flatten_ws(s: &str) -> (r: Vec<char>)
    ensures
        r@ == joined_words(words(s@)),
{
    let cs = chars_of(s);
    let mut out: Vec<char> = Vec::new();
    let mut cur: Vec<char> = Vec::new();
    let ghost mut done: Seq<Seq<char>> = Seq::empty();
    let mut any = false;
    let mut i: usize = 0;
    while i < cs.len()
        invariant
            i <= cs@.len(),
            cs@ == s@,
            any == (done.len() > 0),
            (done, cur@) == ws_state(cs@.take(i as int)),
            out@ == joined_words(done),
        decreases cs@.len() - i,
    {
        assert(cs@.take(i as int + 1).drop_last() =~= cs@.take(i as int));
        if whitespace(cs[i]) {
            if cur.len() > 0 {
                if any {
                    out.push(' ');
                }
                let mut q: usize = 0;
                let ghost base = out@;
                while q < cur.len()
                    invariant
                        q <= cur@.len(),
                        out@ == base + cur@.take(q as int),
                    decreases cur@.len() - q,
                {
                    out.push(cur[q]);
                    q = q + 1;
                    assert(out@ =~= base + cur@.take(q as int));
                }
                proof {
                    assert(cur@.take(cur@.len() as int) =~= cur@);
                    lemma_joined_push(done, cur@);
                    done = done.push(cur@);
                }
                any = true;
            }
            cur = Vec::new();
        } else {
            cur.push(cs[i]);
        }
        i = i + 1;
    }
    assert(cs@.take(cs@.len() as int) =~= cs@);
    if cur.len() > 0 {
        if any {
            out.push(' ');
        }
        let mut q: usize = 0;
        let ghost base = out@;
        while q < cur.len()
            invariant
                q <= cur@.len(),
                out@ == base + cur@.take(q as int),
            decreases cur@.len() - q,
        {
            out.push(cur[q]);
            q = q + 1;
            assert(out@ =~= base + cur@.take(q as int));
        }
        proof {
            assert(cur@.take(cur@.len() as int) =~= cur@);
            lemma_joined_push(done, cur@);
        }
    }
    out
}

proof fn lemma_joined_push(w: Seq<Seq<char>>, x: Seq<char>)
    ensures
        joined_words(w.push(x)) == if w.len() == 0 { x } else { joined_words(w) + seq![' '] + x },
{
    assert(w.push(x).drop_last() =~= w);
    if w.len() == 0 {
        assert(w.push(x)[0] == x);
    }
}


/// Index of the last `.`, `!` or `?` in `s[..k]`, or -1.
pub open spec fn last_stop(s: Seq<char>, k: int) -> int
    decreases k,
{
    if k <= 0 { -1 } else if s[k - 1] == '.' || s[k - 1] == '!' || s[k - 1] == '?' { k - 1 } else { last_stop(s, k - 1) }
}

/// A description tidied to one paragraph: whitespace runs collapsed to
/// single spaces, and when longer than 240 characters, cut to the first 240
/// and then back to the last sentence end if that lies more than 120 bytes in,
/// else to the last space with `...` appended.
pub open spec fn clamped_desc(s: Seq<char>) -> Seq<char> {
    let flat = joined_words(words(s));
    if flat.len() <= 240 {
        flat
    } else {
        let t = flat.take(240);
        let p = last_stop(t, 240);
        if p >= 0 && vstd::utf8::encode_utf8(t.take(p)).len() > 120 {
            t.take(p + 1)
        } else {
            let q = last_index_of(t, ' ', 240);
            (if q >= 0 { t.take(q) } else { t }) + "..."@
        }
    }
}

proof fn lemma_last_stop(s: Seq<char>, k: int)
    requires
        0 <= k <= s.len(),
    ensures
        -1 <= last_stop(s, k) < k,
    decreases k,
{
    if k > 0 && !(s[k - 1] == '.' || s[k - 1] == '!' || s[k - 1] == '?') {
        lemma_last_stop(s, k - 1);
    }
}

/// Tidy a long overview into a one-paragraph description that fits the
/// on-device buffer.
pub fn clamp_desc(s: &str) -> (r: String)
    ensures
        r@ == clamped_desc(s@),
{
    let flat = flatten_ws(s);
    if flat.len() <= 240 {
        return string_from(flat.as_slice());
    }
    let t = vstd::slice::slice_subrange(flat.as_slice(), 0, 240);
    assert(t@ =~= flat@.take(240));
    let mut p: usize = 240;
    while p > 0 && !(t[p - 1] == '.' || t[p - 1] == '!' || t[p - 1] == '?')
        invariant
            p <= 240,
            t@.len() == 240,
            last_stop(t@, 240) == last_stop(t@, p as int),
        decreases p,
    {
        p = p - 1;
    }
    if p > 0 {
        let pre = string_from(vstd::slice::slice_subrange(t, 0, p - 1));
        let bl = pre.as_str().as_bytes().len();
        assert(t@.subrange(0, p - 1) =~= t@.take(p - 1));
        if bl > 120 {
            assert(t@.subrange(0, p as int) =~= t@.take(p as int));
            return string_from(vstd::slice::slice_subrange(t, 0, p));
        }
    }
    let mut q: usize = 240;
    while q > 0 && t[q - 1] != ' '
        invariant
            q <= 240,
            t@.len() == 240,
            last_index_of(t@, ' ', 240) == last_index_of(t@, ' ', q as int),
        decreases q,
    {
        q = q - 1;
    }
    let keep: usize = if q > 0 { q - 1 } else { 240 };
    let mut out = string_from(vstd::slice::slice_subrange(t, 0, keep));
    crate::text::append(&mut out, "...");
    assert(t@.subrange(0, keep as int) =~= (if q > 0 { t@.take(q - 1) } else { t@ }));
    out
}

/// The release year of a catalog entry: its `ReleaseYear` when that parses
/// (after trimming), else the first four bytes of its ISO `ReleaseDate`.
pub open spec fn year_of_fields(release_year: Option<Seq<char>>, release_date: Option<Seq<char>>) -> Option<int> {
    let from_date = match release_date {
        Some(d) => match crate::rbcli::field(vstd::utf8::encode_utf8(d), 0, 4) {
            Some(t) => parse_i64_spec(t),
            None => None,
        },
        None => None,
    };
    match release_year {
        Some(y) => match parse_i64_spec(trim_seq(y)) {
            Some(v) => Some(v),
            None => from_date,
        },
        None => from_date,
    }
}

/// The release year of a catalog entry, from its `ReleaseYear` and
/// `ReleaseDate` fields.
pub fn year_of(release_year: Option<&str>, release_date: Option<&str>) -> (r: Option<i64>)
    ensures
        match r {
            Some(v) => year_of_fields(crate::text::opt_text(release_year), crate::text::opt_text(release_date)) == Some(v as int),
            None => year_of_fields(crate::text::opt_text(release_year), crate::text::opt_text(release_date)) is None,
        },
{
    match release_year {
        Some(y) => {
            let c = chars_of(y);
            let t = trim_chars(c.as_slice());
            match parse_i64(t.as_slice()) {
                Some(v) => return Some(v),
                None => {},
            }
        },
        None => {},
    }
    match release_date {
        Some(d) => {
            let b = d.as_bytes();
            if b.len() >= 4 {
                match utf8_string(vstd::slice::slice_subrange(b, 0, 4)) {
                    Some(t) => {
                        let c = chars_of(t.as_str());
                        parse_i64(c.as_slice())
                    },
                    None => None,
                }
            } else {
                None
            }
        },
        None => None,
    }
}

fn bytes_are(n: &[u8], t: &str) -> (r: bool)
    ensures
        r == (n@ == t.spec_bytes()),
{
    let b = t.as_bytes();
    if n.len() != b.len() {
        return false;
    }
    let mut i: usize = 0;
    while i < n.len()
        invariant
            i <= n@.len(),
            n@.len() == b@.len(),
            b@ == t.spec_bytes(),
            forall|k: int| 0 <= k < i ==> n@[k] == b@[k],
        decreases n@.len() - i,
    {
        if n[i] != b[i] {
            assert(n@[i as int] != b@[i as int]);
            return false;
        }
        i = i + 1;
    }
    assert(n@ =~= b@);
    true
}

/// The catalog element names whose text is kept.
pub open spec fn tag_named(n: Seq<u8>) -> Option<Seq<char>> {
    if n == "Name".spec_bytes() {
        Some("Name"@)
    } else if n == "Platform".spec_bytes() {
        Some("Platform"@)
    } else if n == "ReleaseYear".spec_bytes() {
        Some("ReleaseYear"@)
    } else if n == "ReleaseDate".spec_bytes() {
        Some("ReleaseDate"@)
    } else if n == "Publisher".spec_bytes() {
        Some("Publisher"@)
    } else if n == "Genres".spec_bytes() {
        Some("Genres"@)
    } else if n == "Overview".spec_bytes() {
        Some("Overview"@)
    } else if n == "DatabaseID".spec_bytes() {
        Some("DatabaseID"@)
    } else {
        None
    }
}

/// The field an XML element name of the catalog stands for, if it is one
/// that is kept.
pub fn field_tag(n: &[u8]) -> (r: Option<&'static str>)
    ensures
        match (r, tag_named(n@)) {
            (Some(t), Some(u)) => t@ == u,
            (None, None) => true,
            _ => false,
        },
{
    if bytes_are(n, "Name") {
        Some("Name")
    } else if bytes_are(n, "Platform") {
        Some("Platform")
    } else if bytes_are(n, "ReleaseYear") {
        Some("ReleaseYear")
    } else if bytes_are(n, "ReleaseDate") {
        Some("ReleaseDate")
    } else if bytes_are(n, "Publisher") {
        Some("Publisher")
    } else if bytes_are(n, "Genres") {
        Some("Genres")
    } else if bytes_are(n, "Overview") {
        Some("Overview")
    } else if bytes_are(n, "DatabaseID") {
        Some("DatabaseID")
    } else {
        None
    }
}

/// The images kept per game.
#[derive(Default, Clone, Debug)]
pub struct ImageSet {
    /// File name of the "Box - Front" image.
    pub box_front: Option<String>,
    /// File name of a gameplay screenshot.
    pub screenshot: Option<String>,
}

/// The spread between the strongest and weakest channel of pixel `i` of an
/// RGB buffer.
pub open spec fn saturation(rgb: Seq<u8>, i: int) -> int {
    let (r, g, b) = (rgb[3 * i] as int, rgb[3 * i + 1] as int, rgb[3 * i + 2] as int);
    let hi = if r >= g && r >= b { r } else if g >= b { g } else { b };
    let lo = if r <= g && r <= b { r } else if g <= b { g } else { b };
    hi - lo
}

/// How many of the first `k` sampled pixels (every `step`-th) are clearly
/// saturated (spread above 40).
pub open spec fn saturated_count(rgb: Seq<u8>, step: int, k: int) -> int
    decreases k,
{
    if k <= 0 { 0 } else { saturated_count(rgb, step, k - 1) + if saturation(rgb, (k - 1) * step) > 40 { 1int } else { 0int } }
}

/// The sampling stride for `n` pixels: one in `max(n / 5000, 1)`.
pub open spec fn color_step(n: int) -> int {
    if n / 5000 > 1 { n / 5000 } else { 1 }
}

/// A screenshot is in colour when at least 3% of its sampled pixels are
/// clearly saturated (robust to JPEG chroma noise on grey images).
pub open spec fn color_image(rgb: Seq<u8>, n: int) -> bool {
    let st = color_step(n);
    let total = (n + st - 1) / st;
    n > 0 && total > 0 && saturated_count(rgb, st, total) * 100 >= 3 * total
}

/// Classify `w`×`h` RGB pixels as colour (true) or black and white.
pub fn is_color_image(rgb: &[u8], w: u32, h: u32) -> (r: bool)
    requires
        (w as int) * (h as int) * 3 <= rgb@.len(),
    ensures
        r == color_image(rgb@, (w as int) * (h as int)),
{
    let rl = rgb.len();
    let n64 = (w as u64) * (h as u64);
    assert(n64 * 3 <= rl);
    let n = n64 as usize;
    if n == 0 {
        return false;
    }
    let step: usize = if n / 5000 > 1 { n / 5000 } else { 1 };
    let ghost total: int = (n as int + step as int - 1) / step as int;
    let mut colored: u64 = 0;
    let mut count: u64 = 0;
    let mut i: usize = 0;
    while i < n
        invariant
            rl == rgb@.len(),
            n * 3 <= rl,
            step as int == color_step(n as int),
            step >= 1,
            step <= n || step == 1,
            i as int == count * step,
            i <= n + step - 1,
            count <= n,
            total == (n as int + step as int - 1) / step as int,
            colored as int == saturated_count(rgb@, step as int, count as int),
            colored <= count,
        decreases n + step - i,
    {
        let o = i * 3;
        let (r, g, b) = (rgb[o] as i32, rgb[o + 1] as i32, rgb[o + 2] as i32);
        let hi = if r >= g && r >= b { r } else if g >= b { g } else { b };
        let lo = if r <= g && r <= b { r } else if g <= b { g } else { b };
        assert(hi - lo == saturation(rgb@, i as int));
        if hi - lo > 40 {
            colored = colored + 1;
        }
        assert(i + step == (count + 1) * step) by (nonlinear_arith) requires i as int == count * step;
        assert(count + 1 <= n) by (nonlinear_arith) requires i as int == count * step, i < n, step >= 1;
        count = count + 1;
        i = i + step;
    }
    assert(count == total) by (nonlinear_arith)
        requires
            i as int == count * step,
            i >= n,
            i <= n + step - 1,
            step >= 1,
            total == (n as int + step as int - 1) / step as int;
    count > 0 && (colored as u128) * 100 >= 3 * (count as u128)
}

/// A dataset line that is blank or a comment (`#` or `//`).
pub open spec fn blank_or_comment(t: Seq<char>) -> bool {
    t.len() == 0 || t[0] == '#' || (t.len() >= 2 && t[0] == '/' && t[1] == '/')
}

/// Whether a (trimmed) dataset line is blank or a comment.
pub fn is_blank_or_comment(t: &str) -> (r: bool)
    ensures
        r == blank_or_comment(t@),
{
    let c = chars_of(t);
    c.len() == 0 || c[0] == '#' || (c.len() >= 2 && c[0] == '/' && c[1] == '/')
}

} // verus!

verus! {

// ---- scanning the catalog's XML -----------------------------------------------

/// One event of the catalog's XML stream, as plain values: an element's
/// start or end with its name, a run of text (already unescaped), the end
/// of the document, or anything else.
#[derive(Clone, Debug)]
pub enum XmlEvent {
    Start(Vec<u8>),
    Text(String),
    End(Vec<u8>),
    Eof,
    Other,
}

/// A game of the catalog on the wanted platform.
#[derive(Clone, Debug)]
pub struct LbGame {
    pub name: String,
    pub year: Option<i64>,
    pub publisher: Option<String>,
    pub genres: Vec<String>,
    pub overview: Option<String>,
    pub database_id: String,
}

/// The slot a kept field's text collects in: Name, Platform, ReleaseYear,
/// ReleaseDate, Publisher, Genres, Overview, DatabaseID.
pub open spec fn slot_named(n: Seq<u8>) -> Option<int> {
    if n == "Name".spec_bytes() {
        Some(0)
    } else if n == "Platform".spec_bytes() {
        Some(1)
    } else if n == "ReleaseYear".spec_bytes() {
        Some(2)
    } else if n == "ReleaseDate".spec_bytes() {
        Some(3)
    } else if n == "Publisher".spec_bytes() {
        Some(4)
    } else if n == "Genres".spec_bytes() {
        Some(5)
    } else if n == "Overview".spec_bytes() {
        Some(6)
    } else if n == "DatabaseID".spec_bytes() {
        Some(7)
    } else {
        None
    }
}

fn field_slot(n: &[u8]) -> (r: Option<usize>)
    ensures
        match r {
            Some(i) => slot_named(n@) == Some(i as int) && i < 8,
            None => slot_named(n@) is None,
        },
{
    if bytes_are(n, "Name") {
        Some(0)
    } else if bytes_are(n, "Platform") {
        Some(1)
    } else if bytes_are(n, "ReleaseYear") {
        Some(2)
    } else if bytes_are(n, "ReleaseDate") {
        Some(3)
    } else if bytes_are(n, "Publisher") {
        Some(4)
    } else if bytes_are(n, "Genres") {
        Some(5)
    } else if bytes_are(n, "Overview") {
        Some(6)
    } else if bytes_are(n, "DatabaseID") {
        Some(7)
    } else {
        None
    }
}

/// The collected texts as plain values.
pub open spec fn texts(acc: Seq<Option<String>>) -> Seq<Option<Seq<char>>> {
    Seq::new(acc.len(), |i: int| match acc[i] {
        Some(s) => Some(s@),
        None => None,
    })
}

/// A game as plain values: name, year, publisher, genres, overview, id.
pub open spec fn game_view(g: LbGame) -> (Seq<char>, Option<int>, Option<Seq<char>>, Seq<Seq<char>>, Option<Seq<char>>, Seq<char>) {
    (
        g.name@,
        match g.year {
            Some(y) => Some(y as int),
            None => None,
        },
        match g.publisher {
            Some(p) => Some(p@),
            None => None,
        },
        views_of(g.genres@),
        match g.overview {
            Some(o) => Some(o@),
            None => None,
        },
        g.database_id@,
    )
}

/// The texts of strings.
pub open spec fn views_of(v: Seq<String>) -> Seq<Seq<char>> {
    Seq::new(v.len(), |i: int| v[i]@)
}

/// The games as plain values.
pub open spec fn games_view(v: Seq<LbGame>) -> Seq<(Seq<char>, Option<int>, Option<Seq<char>>, Seq<Seq<char>>, Option<Seq<char>>, Seq<char>)> {
    Seq::new(v.len(), |i: int| game_view(v[i]))
}

/// The trimmed, non-empty pieces of a list.
pub open spec fn trimmed_pieces(ps: Seq<Seq<char>>) -> Seq<Seq<char>>
    decreases ps.len(),
{
    if ps.len() == 0 {
        Seq::empty()
    } else {
        let before = trimmed_pieces(ps.drop_last());
        let t = trim_seq(ps.last());
        if t.len() > 0 { before.push(t) } else { before }
    }
}

/// A text trimmed, none when that leaves nothing.
pub open spec fn trimmed_nonempty(o: Option<Seq<char>>) -> Option<Seq<char>> {
    match o {
        Some(s) => if trim_seq(s).len() > 0 { Some(trim_seq(s)) } else { None },
        None => None,
    }
}

/// The game a finished `Game` element gives, from its collected fields:
/// the name as is, the release year (ReleaseYear, else the year leading
/// ReleaseDate), the publisher trimmed, the `;`-separated genres trimmed
/// and non-empty, the overview trimmed (none when blank), the id trimmed.
pub open spec fn game_of(acc: Seq<Option<Seq<char>>>) -> (Seq<char>, Option<int>, Option<Seq<char>>, Seq<Seq<char>>, Option<Seq<char>>, Seq<char>) {
    (
        acc[0].unwrap(),
        year_of_fields(acc[2], acc[3]),
        match acc[4] {
            Some(p) => Some(trim_seq(p)),
            None => None,
        },
        match acc[5] {
            Some(g) => trimmed_pieces(crate::text::pieces(g, ';')),
            None => Seq::empty(),
        },
        trimmed_nonempty(acc[6]),
        trim_seq(acc[7].unwrap()),
    )
}

/// The games a finished `Game` element adds: its game when it is on
/// `platform` and has a name and an id.
pub open spec fn finished_games(acc: Seq<Option<Seq<char>>>, platform: Seq<char>) -> Seq<(Seq<char>, Option<int>, Option<Seq<char>>, Seq<Seq<char>>, Option<Seq<char>>, Seq<char>)> {
    if acc[1] == Some(platform) && acc[0] is Some && acc[7] is Some { seq![game_of(acc)] } else { Seq::empty() }
}

/// The scan of the games: inside a `Game` element, the field whose text is
/// being collected, the texts collected, and the games kept so far.
#[derive(Clone, Debug)]
pub struct GameScan {
    pub in_game: bool,
    pub cur: Option<usize>,
    pub acc: Vec<Option<String>>,
    pub games: Vec<LbGame>,
}

/// Nothing collected.
pub open spec fn cleared(acc: Seq<Option<Seq<char>>>) -> bool {
    acc.len() == 8 && forall|i: int| 0 <= i < 8 ==> #[trigger] acc[i] is None
}

/// The text of `o`, empty when none.
pub open spec fn or_empty(o: Option<Seq<char>>) -> Seq<char> {
    match o {
        Some(s) => s,
        None => Seq::empty(),
    }
}

/// `n` is `o` after one event: a `Game` start clears the fields; inside a
/// game, the start of a kept field begins collecting it (another element,
/// nothing); text adds to the field being collected; a `Game` end adds its
/// game, another end stops collecting.
pub open spec fn game_stepped(o: GameScan, ev: XmlEvent, platform: Seq<char>, n: GameScan) -> bool {
    let same_games = games_view(n.games@) == games_view(o.games@);
    let same_acc = texts(n.acc@) == texts(o.acc@);
    match ev {
        XmlEvent::Start(name) => if name@ == "Game".spec_bytes() {
            n.in_game && n.cur is None && cleared(texts(n.acc@)) && same_games
        } else if o.in_game {
            n.in_game && (match n.cur {
                Some(i) => Some(i as int),
                None => None,
            }) == slot_named(name@) && same_acc && same_games
        } else {
            n.in_game == o.in_game && n.cur == o.cur && same_acc && same_games
        },
        XmlEvent::Text(t) => if o.in_game && o.cur is Some {
            let i = o.cur.unwrap() as int;
            n.in_game == o.in_game && n.cur == o.cur && texts(n.acc@) == texts(o.acc@).update(
                i,
                Some(or_empty(texts(o.acc@)[i]) + t@),
            ) && same_games
        } else {
            n.in_game == o.in_game && n.cur == o.cur && same_acc && same_games
        },
        XmlEvent::End(name) => if name@ == "Game".spec_bytes() {
            !n.in_game && n.cur is None && same_acc && games_view(n.games@) == games_view(o.games@) + finished_games(
                texts(o.acc@),
                platform,
            )
        } else {
            n.in_game == o.in_game && n.cur is None && same_acc && same_games
        },
        _ => n.in_game == o.in_game && n.cur == o.cur && same_acc && same_games,
    }
}

fn copy_text(o: &Option<String>) -> (r: Option<String>)
    ensures
        r == *o,
{
    match o {
        Some(s) => Some(s.clone()),
        None => None,
    }
}

fn trimmed(s: &String) -> (r: String)
    ensures
        r@ == trim_seq(s@),
{
    crate::text::trim_str(s.as_str())
}

/// The `;`-separated genres of a text, trimmed and non-empty.
fn genre_list(g: &String) -> (r: Vec<String>)
    ensures
        views_of(r@) == trimmed_pieces(crate::text::pieces(g@, ';')),
{
    let ps = crate::text::split_pieces(g.as_str(), ';');
    let ghost pv = crate::text::pieces(g@, ';');
    let mut r: Vec<String> = Vec::new();
    let mut i: usize = 0;
    while i < ps.len()
        invariant
            i <= ps@.len(),
            ps@.len() == pv.len(),
            forall|k: int| 0 <= k < ps@.len() ==> (#[trigger] ps@[k])@ == pv[k],
            views_of(r@) == trimmed_pieces(pv.take(i as int)),
        decreases ps@.len() - i,
    {
        proof {
            assert(pv.take(i + 1).drop_last() =~= pv.take(i as int));
            assert(pv.take(i + 1).last() == ps@[i as int]@);
        }
        let t = trim_chars(ps[i].as_slice());
        if t.len() > 0 {
            let ghost before = r@;
            r.push(string_from(t.as_slice()));
            assert(views_of(r@) =~= views_of(before).push(t@));
        }
        i = i + 1;
    }
    assert(pv.take(i as int) =~= pv);
    r
}

/// The game of a finished element's fields (a name and an id are there).
fn game_from(acc: &Vec<Option<String>>) -> (g: LbGame)
    requires
        acc@.len() == 8,
        acc@[0] is Some,
        acc@[7] is Some,
    ensures
        game_view(g) == game_of(texts(acc@)),
{
    let ghost t = texts(acc@);
    let name = match &acc[0] {
        Some(n) => n.clone(),
        None => String::new(),
    };
    let ry = match &acc[2] {
        Some(s) => Some(s.as_str()),
        None => None,
    };
    let rd = match &acc[3] {
        Some(s) => Some(s.as_str()),
        None => None,
    };
    assert(crate::text::opt_text(ry) == t[2]);
    assert(crate::text::opt_text(rd) == t[3]);
    let year = year_of(ry, rd);
    let publisher = match &acc[4] {
        Some(p) => Some(trimmed(p)),
        None => None,
    };
    let genres = match &acc[5] {
        Some(g) => genre_list(g),
        None => {
            let v: Vec<String> = Vec::new();
            assert(views_of(v@) =~= Seq::<Seq<char>>::empty());
            v
        },
    };
    let overview = match &acc[6] {
        Some(o) => {
            let t = trimmed(o);
            if chars_of(t.as_str()).len() > 0 {
                Some(t)
            } else {
                None
            }
        },
        None => None,
    };
    let database_id = match &acc[7] {
        Some(d) => trimmed(d),
        None => String::new(),
    };
    let g = LbGame { name, year, publisher, genres, overview, database_id };
    assert(game_view(g) == game_of(t));
    g
}

fn same_text(o: &Option<String>, p: &str) -> (r: bool)
    ensures
        r == (match o {
            Some(s) => Some(s@),
            None => None,
        } == Some(p@)),
{
    match o {
        Some(s) => crate::text::same_str(s.as_str(), p),
        None => false,
    }
}

/// Eight empty slots.
fn empty_slots() -> (acc: Vec<Option<String>>)
    ensures
        acc@.len() == 8,
        cleared(texts(acc@)),
{
    let mut acc: Vec<Option<String>> = Vec::new();
    let mut i: usize = 0;
    while i < 8
        invariant
            i <= 8,
            acc@.len() == i,
            forall|k: int| 0 <= k < i ==> #[trigger] acc@[k] is None,
        decreases 8 - i,
    {
        acc.push(None);
        i = i + 1;
    }
    assert(cleared(texts(acc@)));
    acc
}

impl GameScan {
    /// The collected texts are eight slots; the field being collected is one.
    pub open spec fn wf(&self) -> bool {
        &&& self.acc@.len() == 8
        &&& self.cur matches Some(i) ==> i < 8
    }

    /// A scan before the first event.
    pub fn new() -> (r: Self)
        ensures
            r.wf(),
            !r.in_game,
            r.cur is None,
            cleared(texts(r.acc@)),
            r.games@.len() == 0,
    {
        GameScan { in_game: false, cur: None, acc: empty_slots(), games: Vec::new() }
    }

    /// Take one event of the catalog's XML, keeping the games on `platform`.
    pub fn step(self, ev: &XmlEvent, platform: &str) -> (n: Self)
        requires
            self.wf(),
        ensures
            n.wf(),
            game_stepped(self, *ev, platform@, n),
    {
        let ghost o = self;
        let mut n = self;
        match ev {
            XmlEvent::Start(name) => {
                if bytes_are(name.as_slice(), "Game") {
                    n.in_game = true;
                    n.cur = None;
                    n.acc = empty_slots();
                    assert(cleared(texts(n.acc@)));
                    assert(name@ == "Game".spec_bytes());
                    assert(game_stepped(o, *ev, platform@, n));
                } else if n.in_game {
                    n.cur = field_slot(name.as_slice());
                    assert(texts(n.acc@) == texts(o.acc@));
                    assert(game_stepped(o, *ev, platform@, n));
                } else {
                    assert(game_stepped(o, *ev, platform@, n));
                }
            },
            XmlEvent::Text(t) => {
                if n.in_game {
                    match n.cur {
                        Some(i) => {
                            let mut s = match &n.acc[i] {
                                Some(x) => x.clone(),
                                None => String::new(),
                            };
                            crate::text::append(&mut s, t.as_str());
                            let ghost sv = s@;
                            n.acc.set(i, Some(s));
                            assert(texts(n.acc@) =~= texts(o.acc@).update(i as int, Some(sv)));
                        },
                        None => {},
                    }
                }
                assert(game_stepped(o, *ev, platform@, n));
            },
            XmlEvent::End(name) => {
                if bytes_are(name.as_slice(), "Game") {
                    n.in_game = false;
                    n.cur = None;
                    let keep = same_text(&n.acc[1], platform) && n.acc[0].is_some() && n.acc[7].is_some();
                    proof {
                        let tx = texts(o.acc@);
                        assert(tx[0] == match o.acc@[0] {
                            Some(s) => Some(s@),
                            None => None::<Seq<char>>,
                        });
                        assert(tx[1] == match o.acc@[1] {
                            Some(s) => Some(s@),
                            None => None::<Seq<char>>,
                        });
                        assert(tx[7] == match o.acc@[7] {
                            Some(s) => Some(s@),
                            None => None::<Seq<char>>,
                        });
                        assert(keep == (tx[1] == Some(platform@) && tx[0] is Some && tx[7] is Some));
                    }
                    if keep {
                        let g = game_from(&n.acc);
                        let ghost before = n.games@;
                        n.games.push(g);
                        assert(games_view(n.games@) =~= games_view(before).push(game_view(g)));
                        assert(finished_games(texts(o.acc@), platform@) == seq![game_of(texts(o.acc@))]);
                        assert(games_view(n.games@) =~= games_view(o.games@) + finished_games(texts(o.acc@), platform@));
                    } else {
                        assert(finished_games(texts(o.acc@), platform@) == Seq::<(Seq<char>, Option<int>, Option<Seq<char>>, Seq<Seq<char>>, Option<Seq<char>>, Seq<char>)>::empty());
                        assert(games_view(n.games@) =~= games_view(o.games@) + finished_games(texts(o.acc@), platform@));
                    }
                    assert(n.acc == o.acc);
                    assert(name@ == "Game".spec_bytes());
                } else {
                    n.cur = None;
                }
                assert(game_stepped(o, *ev, platform@, n));
            },
            _ => {
                assert(game_stepped(o, *ev, platform@, n));
            },
        }
        n
    }
}

} // verus!

verus! {

/// The kept images of a game as plain values: box front, screenshot.
pub open spec fn set_view(s: ImageSet) -> (Option<Seq<char>>, Option<Seq<char>>) {
    (
        match s.box_front {
            Some(f) => Some(f@),
            None => None,
        },
        match s.screenshot {
            Some(f) => Some(f@),
            None => None,
        },
    )
}

/// The images kept for `id` so far; none of either before its first image.
pub open spec fn images_for(e: Seq<(String, ImageSet)>, id: Seq<char>) -> (Option<Seq<char>>, Option<Seq<char>>) {
    match crate::keyed::lookup(e, id) {
        Some(s) => set_view(s),
        None => (None, None),
    }
}

/// An image of type `ty` and file `file` taken into a game's images, with
/// whether its current screenshot is a gameplay one: a box front replaces
/// the box front; a screenshot is taken when there is none yet, or when it
/// is a gameplay screenshot and the current one is not. Also gives the new
/// gameplay flag when the screenshot changed.
pub open spec fn take_image(cur: (Option<Seq<char>>, Option<Seq<char>>), ty: Seq<char>, file: Seq<char>, had_gameplay: bool) -> (
    (Option<Seq<char>>, Option<Seq<char>>),
    Option<bool>,
) {
    if ty == "Box - Front"@ {
        ((Some(file), cur.1), None)
    } else if "Screenshot"@.is_prefix_of(ty) {
        let gameplay = ty == "Screenshot - Gameplay"@;
        if cur.1 is None || (gameplay && !had_gameplay) {
            ((cur.0, Some(file)), Some(gameplay))
        } else {
            (cur, None)
        }
    } else {
        (cur, None)
    }
}

/// The slot an image field's text collects in: DatabaseID, FileName, Type.
pub open spec fn image_slot(n: Seq<u8>) -> Option<int> {
    if n == "DatabaseID".spec_bytes() {
        Some(0)
    } else if n == "FileName".spec_bytes() {
        Some(1)
    } else if n == "Type".spec_bytes() {
        Some(2)
    } else {
        None
    }
}

/// The scan of the images: inside a `GameImage` element, the field being
/// collected, the texts collected, the images kept per wanted id, and
/// whether each kept screenshot is a gameplay one.
#[derive(Clone, Debug)]
pub struct ImageScan {
    pub in_img: bool,
    pub cur: Option<usize>,
    pub acc: Vec<Option<String>>,
    pub images: crate::keyed::Keyed<ImageSet>,
    pub gameplay: crate::keyed::Keyed<bool>,
}

/// `n` is `o` apart from the images and flags.
pub open spec fn same_kept(o: ImageScan, n: ImageScan) -> bool {
    &&& n.images.entries@ == o.images.entries@
    &&& n.gameplay.entries@ == o.gameplay.entries@
}

/// What a finished `GameImage` element does to the images kept: with an id
/// and a file, for a wanted id, the image is taken into that id's images
/// (an entry is made for the id in any case) and its gameplay flag updated;
/// everything else is kept.
pub open spec fn image_finished(o: ImageScan, wanted: Seq<Seq<char>>, n: ImageScan) -> bool {
    let t = texts(o.acc@);
    match (t[0], t[1]) {
        (Some(id0), Some(f0)) => {
            let id = trim_seq(id0);
            if wanted.contains(id) {
                let had = crate::keyed::lookup(o.gameplay.entries@, id) == Some(true);
                let (ns, flag) = take_image(images_for(o.images.entries@, id), or_empty(t[2]), trim_seq(f0), had);
                &&& n.images.wf()
                &&& n.gameplay.wf()
                &&& crate::keyed::lookup(n.images.entries@, id) matches Some(s) && set_view(s) == ns
                &&& forall|k: Seq<char>|
                    k != id ==> crate::keyed::lookup(n.images.entries@, k) == crate::keyed::lookup(o.images.entries@, k)
                &&& crate::keyed::lookup(n.gameplay.entries@, id) == match flag {
                    Some(b) => Some(b),
                    None => crate::keyed::lookup(o.gameplay.entries@, id),
                }
                &&& forall|k: Seq<char>|
                    k != id ==> crate::keyed::lookup(n.gameplay.entries@, k) == crate::keyed::lookup(o.gameplay.entries@, k)
            } else {
                same_kept(o, n)
            }
        },
        _ => same_kept(o, n),
    }
}

/// `n` is `o` after one event: a `GameImage` start clears the fields;
/// inside one, the start of DatabaseID, FileName or Type begins collecting
/// it; text adds to the field being collected; a `GameImage` end takes the
/// image in, another end stops collecting.
pub open spec fn image_stepped(o: ImageScan, ev: XmlEvent, wanted: Seq<Seq<char>>, n: ImageScan) -> bool {
    let same_acc = texts(n.acc@) == texts(o.acc@);
    match ev {
        XmlEvent::Start(name) => if name@ == "GameImage".spec_bytes() {
            n.in_img && n.cur is None && texts(n.acc@).len() == 3 && (forall|i: int|
                0 <= i < 3 ==> #[trigger] texts(n.acc@)[i] is None) && same_kept(o, n)
        } else if o.in_img && image_slot(name@) is Some {
            n.in_img && (match n.cur {
                Some(i) => Some(i as int),
                None => None,
            }) == image_slot(name@) && same_acc && same_kept(o, n)
        } else {
            n.in_img == o.in_img && n.cur == o.cur && same_acc && same_kept(o, n)
        },
        XmlEvent::Text(t) => if o.in_img && o.cur is Some {
            let i = o.cur.unwrap() as int;
            n.in_img == o.in_img && n.cur == o.cur && texts(n.acc@) == texts(o.acc@).update(
                i,
                Some(or_empty(texts(o.acc@)[i]) + t@),
            ) && same_kept(o, n)
        } else {
            n.in_img == o.in_img && n.cur == o.cur && same_acc && same_kept(o, n)
        },
        XmlEvent::End(name) => if name@ == "GameImage".spec_bytes() {
            !n.in_img && n.cur is None && same_acc && image_finished(o, wanted, n)
        } else {
            n.in_img == o.in_img && n.cur is None && same_acc && same_kept(o, n)
        },
        _ => n.in_img == o.in_img && n.cur == o.cur && same_acc && same_kept(o, n),
    }
}

fn starts_screenshot(ty: &str) -> (r: bool)
    ensures
        r == "Screenshot"@.is_prefix_of(ty@),
{
    let h = chars_of(ty);
    let n = chars_of("Screenshot");
    let r = crate::text::starts_with_chars(h.as_slice(), n.as_slice());
    proof {
        if r {
            assert(n@ =~= h@.subrange(0, n@.len() as int));
        } else {
            if "Screenshot"@.is_prefix_of(ty@) {
                assert(h@.subrange(0, n@.len() as int) =~= n@);
            }
        }
    }
    r
}

/// The image taken into the current images of a game.
fn take_image_exec(cur: (Option<String>, Option<String>), ty: &str, file: String, had: bool) -> (r: (ImageSet, Option<bool>))
    ensures
        (set_view(r.0), r.1) == take_image(
            (
                match cur.0 {
                    Some(f) => Some(f@),
                    None => None,
                },
                match cur.1 {
                    Some(f) => Some(f@),
                    None => None,
                },
            ),
            ty@,
            file@,
            had,
        ),
{
    if crate::text::same_str(ty, "Box - Front") {
        (ImageSet { box_front: Some(file), screenshot: cur.1 }, None)
    } else if starts_screenshot(ty) {
        let gameplay = crate::text::same_str(ty, "Screenshot - Gameplay");
        if cur.1.is_none() || (gameplay && !had) {
            (ImageSet { box_front: cur.0, screenshot: Some(file) }, Some(gameplay))
        } else {
            (ImageSet { box_front: cur.0, screenshot: cur.1 }, None)
        }
    } else {
        (ImageSet { box_front: cur.0, screenshot: cur.1 }, None)
    }
}

fn contains_text(v: &Vec<String>, s: &str) -> (r: bool)
    ensures
        r == views_of(v@).contains(s@),
{
    let mut i: usize = 0;
    while i < v.len()
        invariant
            i <= v@.len(),
            forall|j: int| 0 <= j < i ==> v@[j]@ != s@,
        decreases v@.len() - i,
    {
        if crate::text::same_str(v[i].as_str(), s) {
            assert(views_of(v@)[i as int] == s@);
            return true;
        }
        i = i + 1;
    }
    proof {
        if views_of(v@).contains(s@) {
            let j = choose|j: int| 0 <= j < views_of(v@).len() && views_of(v@)[j] == s@;
            assert(v@[j]@ == s@);
        }
    }
    false
}

fn image_field_slot(n: &[u8]) -> (r: Option<usize>)
    ensures
        match r {
            Some(i) => image_slot(n@) == Some(i as int) && i < 3,
            None => image_slot(n@) is None,
        },
{
    if bytes_are(n, "DatabaseID") {
        Some(0)
    } else if bytes_are(n, "FileName") {
        Some(1)
    } else if bytes_are(n, "Type") {
        Some(2)
    } else {
        None
    }
}

/// Three empty slots.
fn image_slots() -> (acc: Vec<Option<String>>)
    ensures
        acc@.len() == 3,
        forall|i: int| 0 <= i < 3 ==> #[trigger] texts(acc@)[i] is None,
{
    let mut acc: Vec<Option<String>> = Vec::new();
    acc.push(None);
    acc.push(None);
    acc.push(None);
    acc
}

impl ImageScan {
    /// Three text slots, the field being collected one of them, the kept
    /// images and flags keyed in order.
    pub open spec fn wf(&self) -> bool {
        &&& self.acc@.len() == 3
        &&& self.cur matches Some(i) ==> i < 3
        &&& self.images.wf()
        &&& self.gameplay.wf()
    }

    /// A scan before the first event.
    pub fn new() -> (r: Self)
        ensures
            r.wf(),
            !r.in_img,
            r.cur is None,
            r.images.entries@.len() == 0,
            r.gameplay.entries@.len() == 0,
    {
        ImageScan {
            in_img: false,
            cur: None,
            acc: image_slots(),
            images: crate::keyed::Keyed::new(),
            gameplay: crate::keyed::Keyed::new(),
        }
    }

    /// Take one event of the catalog's XML, keeping the images of the
    /// `wanted` ids.
    pub fn step(self, ev: &XmlEvent, wanted: &Vec<String>) -> (n: Self)
        requires
            self.wf(),
        ensures
            n.wf(),
            image_stepped(self, *ev, views_of(wanted@), n),
    {
        let ghost o = self;
        let mut n = self;
        match ev {
            XmlEvent::Start(name) => {
                if bytes_are(name.as_slice(), "GameImage") {
                    n.in_img = true;
                    n.cur = None;
                    n.acc = image_slots();
                } else if n.in_img {
                    match image_field_slot(name.as_slice()) {
                        Some(i) => {
                            n.cur = Some(i);
                        },
                        None => {},
                    }
                }
            },
            XmlEvent::Text(t) => {
                if n.in_img {
                    match n.cur {
                        Some(i) => {
                            let mut s = match &n.acc[i] {
                                Some(x) => x.clone(),
                                None => String::new(),
                            };
                            crate::text::append(&mut s, t.as_str());
                            let ghost sv = s@;
                            n.acc.set(i, Some(s));
                            assert(texts(n.acc@) =~= texts(o.acc@).update(i as int, Some(sv)));
                        },
                        None => {},
                    }
                }
            },
            XmlEvent::End(name) => {
                if bytes_are(name.as_slice(), "GameImage") {
                    n.in_img = false;
                    n.cur = None;
                    n = finish_image(n, wanted);
                    assert(name@ == "GameImage".spec_bytes());
                } else {
                    n.cur = None;
                }
            },
            _ => {},
        }
        n
    }
}

/// Take the finished image element's image in.
fn finish_image(s: ImageScan, wanted: &Vec<String>) -> (n: ImageScan)
    requires
        s.wf(),
    ensures
        n.wf(),
        n.in_img == s.in_img,
        n.cur == s.cur,
        n.acc == s.acc,
        image_finished(s, views_of(wanted@), n),
{
    let ghost o = s;
    let ghost t = texts(s.acc@);
    let mut n = s;
    proof {
        assert(t[0] == match o.acc@[0] {
            Some(x) => Some(x@),
            None => None::<Seq<char>>,
        });
        assert(t[1] == match o.acc@[1] {
            Some(x) => Some(x@),
            None => None::<Seq<char>>,
        });
        assert(t[2] == match o.acc@[2] {
            Some(x) => Some(x@),
            None => None::<Seq<char>>,
        });
    }
    let (id, file) = match (&n.acc[0], &n.acc[1]) {
        (Some(id0), Some(f0)) => (crate::text::trim_str(id0.as_str()), crate::text::trim_str(f0.as_str())),
        _ => {
            return n;
        },
    };
    if !contains_text(wanted, id.as_str()) {
        return n;
    }
    let ty: &str = match &n.acc[2] {
        Some(x) => x.as_str(),
        None => "",
    };
    proof {
        reveal_strlit("");
    }
    assert(ty@ == or_empty(t[2]));
    let cur: (Option<String>, Option<String>) = match n.images.get(id.as_str()) {
        Some(x) => (copy_text(&x.box_front), copy_text(&x.screenshot)),
        None => (None, None),
    };
    let had = match n.gameplay.get(id.as_str()) {
        Some(b) => *b,
        None => false,
    };
    let (set, flag) = take_image_exec(cur, ty, file, had);
    n.images.insert(id.clone(), set);
    match flag {
        Some(b) => n.gameplay.insert(id, b),
        None => {},
    }
    n
}


// ---- reading the catalog's XML ---------------------------------------------

/// Reading the catalog's XML failed: its bytes are not well-formed XML or
/// not UTF-8.
#[derive(Clone, Copy, Debug, PartialEq, Eq, Structural)]
pub struct XmlError;

#[verifier::external_type_specification]
#[verifier::external_body]
pub struct ExQuickXmlError(quick_xml::Error);

/// The events quick-xml reads from `xml` (text trimmed), up to the end of
/// the document; none when it reports an error first.
pub uninterp spec fn xml_tokens(xml: Seq<u8>) -> Option<Seq<XmlEvent>>;

/// The events of `xml`, read with quick-xml's `Reader` (text trimmed) up to
/// `Eof`: element starts and ends by name, text with its line ends
/// normalised, everything else (references among it) as `Other`.
///
/// Trusted: the reader is a function of the bytes alone; the result or the
/// failure is named by `xml_tokens`.
#[verifier::external_body]
fn xml_events(xml: &[u8]) -> (r: Result<Vec<XmlEvent>, quick_xml::Error>)
    ensures
        match r {
            Ok(v) => xml_tokens(xml@) == Some(v@),
            Err(_) => xml_tokens(xml@) is None,
        },
{
    let mut reader = quick_xml::Reader::from_reader(xml);
    reader.config_mut().trim_text(true);
    let (mut buf, mut out) = (Vec::new(), Vec::new());
    loop {
        out.push(match reader.read_event_into(&mut buf)? {
            Event::Start(e) => XmlEvent::Start(e.name().as_ref().as_bytes().to_vec()),
            Event::End(e) => XmlEvent::End(e.name().as_ref().as_bytes().to_vec()),
            Event::Text(e) => XmlEvent::Text(e.xml10_content().into_owned()),
            Event::Eof => return Ok(out),
            _ => XmlEvent::Other,
        });
        buf.clear();
    }
}

/// A fresh game scan.
pub open spec fn fresh_game_scan(s: GameScan) -> bool {
    !s.in_game && s.cur is None && cleared(texts(s.acc@)) && s.games@.len() == 0
}

/// `ss` is the game scan run over `evs`: fresh at first, then each state is
/// the one before after the next event.
pub open spec fn game_run(ss: Seq<GameScan>, evs: Seq<XmlEvent>, platform: Seq<char>) -> bool {
    &&& ss.len() == evs.len() + 1
    &&& fresh_game_scan(ss[0])
    &&& forall|k: int| 0 <= k < evs.len() ==> #[trigger] game_stepped(ss[k], evs[k], platform, ss[k + 1])
}

/// `g` are the games the game scan keeps when run over `evs`.
pub open spec fn games_read(evs: Seq<XmlEvent>, platform: Seq<char>, g: Seq<LbGame>) -> bool {
    exists|ss: Seq<GameScan>| #[trigger] game_run(ss, evs, platform) && games_view(g) == games_view(ss.last().games@)
}

/// `m` are the images the image scan keeps when run over `evs`.
pub open spec fn images_read(evs: Seq<XmlEvent>, wanted: Seq<Seq<char>>, m: Seq<(String, ImageSet)>) -> bool {
    exists|ss: Seq<ImageScan>| #[trigger] image_run(ss, evs, wanted) && m == ss.last().images.entries@
}

/// The games on `platform` of the catalog's XML: the game scan run over
/// its events; an error when the XML cannot be read.
pub fn parse_games(xml: &[u8], platform: &str) -> (r: Result<Vec<LbGame>, XmlError>)
    ensures
        r is Err <==> xml_tokens(xml@) is None,
        r matches Ok(g) ==> games_read(xml_tokens(xml@)->0, platform@, g@),
{
    let v = match xml_events(xml) {
        Ok(v) => v,
        Err(_) => {
            return Err(XmlError);
        },
    };
    let mut scan = GameScan::new();
    let ghost mut ss: Seq<GameScan> = seq![scan];
    let mut k: usize = 0;
    while k < v.len()
        invariant
            k <= v@.len(),
            scan.wf(),
            ss.len() == k + 1,
            ss[k as int] == scan,
            fresh_game_scan(ss[0]),
            forall|j: int| 0 <= j < k ==> #[trigger] game_stepped(ss[j], v@[j], platform@, ss[j + 1]),
        decreases v@.len() - k,
    {
        scan = scan.step(&v[k], platform);
        proof {
            let old_ss = ss;
            ss = ss.push(scan);
            assert forall|j: int| 0 <= j < k + 1 implies #[trigger] game_stepped(ss[j], v@[j], platform@, ss[j + 1]) by {
                assert(ss[j] == old_ss[j]);
                if j < k {
                    assert(ss[j + 1] == old_ss[j + 1]);
                }
            }
        }
        k = k + 1;
    }
    proof {
        assert(game_run(ss, v@, platform@));
        assert(ss.last() == scan);
        assert(xml_tokens(xml@) == Some(v@));
    }
    let games = scan.games;
    assert(games_read(v@, platform@, games@));
    Ok(games)
}

/// A fresh image scan.
pub open spec fn fresh_image_scan(s: ImageScan) -> bool {
    &&& !s.in_img
    &&& s.cur is None
    &&& s.images.entries@.len() == 0
    &&& s.gameplay.entries@.len() == 0
}

/// `ss` is the image scan run over `evs`.
pub open spec fn image_run(ss: Seq<ImageScan>, evs: Seq<XmlEvent>, wanted: Seq<Seq<char>>) -> bool {
    &&& ss.len() == evs.len() + 1
    &&& fresh_image_scan(ss[0])
    &&& forall|k: int| 0 <= k < evs.len() ==> #[trigger] image_stepped(ss[k], evs[k], wanted, ss[k + 1])
}

/// The images of the `wanted` ids in the catalog's XML: the image scan run
/// over its events; an error when the XML cannot be read.
pub fn parse_images(xml: &[u8], wanted: &Vec<String>) -> (r: Result<crate::keyed::Keyed<ImageSet>, XmlError>)
    ensures
        r is Err <==> xml_tokens(xml@) is None,
        r matches Ok(m) ==> m.wf() && images_read(xml_tokens(xml@)->0, views_of(wanted@), m.entries@),
{
    let v = match xml_events(xml) {
        Ok(v) => v,
        Err(_) => {
            return Err(XmlError);
        },
    };
    let mut scan = ImageScan::new();
    let ghost mut ss: Seq<ImageScan> = seq![scan];
    let mut k: usize = 0;
    while k < v.len()
        invariant
            k <= v@.len(),
            scan.wf(),
            ss.len() == k + 1,
            ss[k as int] == scan,
            fresh_image_scan(ss[0]),
            forall|j: int| 0 <= j < k ==> #[trigger] image_stepped(ss[j], v@[j], views_of(wanted@), ss[j + 1]),
        decreases v@.len() - k,
    {
        scan = scan.step(&v[k], wanted);
        proof {
            let old_ss = ss;
            ss = ss.push(scan);
            assert forall|j: int| 0 <= j < k + 1 implies #[trigger] image_stepped(ss[j], v@[j], views_of(wanted@), ss[j + 1]) by {
                assert(ss[j] == old_ss[j]);
                if j < k {
                    assert(ss[j + 1] == old_ss[j + 1]);
                }
            }
        }
        k = k + 1;
    }
    proof {
        assert(image_run(ss, v@, views_of(wanted@)));
        assert(ss.last() == scan);
        assert(xml_tokens(xml@) == Some(v@));
    }
    let images = scan.images;
    assert(images_read(v@, views_of(wanted@), images.entries@));
    Ok(images)
}

} // verus!
