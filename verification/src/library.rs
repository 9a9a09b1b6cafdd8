//! Scanning donor disks into the library: the title folders of a root's
//! listing, the year a `Games/<year>` folder names, which of a title's
//! applications launches it, the titles (first id wins) and their
//! `library.jsonl` lines; seeding and filing the category database. Listing
//! the disks is the caller's part.

use crate::harvest::{common_prefix, common_prefix_len, slug, slugify};
use crate::keyed::Keyed;
use crate::text::{
    all_digits, append, chars_of, contains_seq, digits_value, is_ascii_digit, occurs_at, parse_i64, pieces,
    same_str, split_pieces, starts_with_chars, string_from,
};
use vstd::prelude::*;
use vstd::string::StringSliceAdditionalSpecFns;
use vstd::utf8::encode_utf8;

verus! {

/// What a scan found.
#[derive(Clone, Debug, Default)]
pub struct ScanReport {
    pub titles: usize,
    /// The same id seen again (the first wins).
    pub dupes: usize,
    /// A root not present on a disk.
    pub roots_missing: usize,
}

/// What moving the facet fields to the compatibility companion did.
#[derive(Clone, Debug, Default)]
pub struct SplitReport {
    pub moved: usize,
    pub compat_entries: usize,
}

/// What seeding the category database did.
#[derive(Clone, Debug)]
pub struct CategorizeReport {
    pub titles: usize,
    pub assigned: usize,
    pub preserved: usize,
    pub uncategorized: usize,
    /// Category → title count.
    pub per_category: Keyed<usize>,
}

/// The leading run of ASCII digits of `s`.
pub open spec fn lead_digits(s: Seq<char>) -> Seq<char>
    decreases s.len(),
{
    if s.len() == 0 || !is_ascii_digit(s[0]) {
        Seq::empty()
    } else {
        seq![s[0]] + lead_digits(s.drop_first())
    }
}

/// The year a `Games` folder name leads with: exactly four leading digits.
pub open spec fn year_of_dir(seg: Seq<char>) -> Option<int> {
    let d = lead_digits(seg);
    if d.len() == 4 { Some(digits_value(d)) } else { None }
}

proof fn lemma_lead_digits(s: Seq<char>, i: int)
    requires
        0 <= i <= s.len(),
        forall|k: int| 0 <= k < i ==> is_ascii_digit(#[trigger] s[k]),
        i == s.len() || !is_ascii_digit(s[i]),
    ensures
        lead_digits(s) == s.take(i),
    decreases i,
{
    if i > 0 {
        assert forall|k: int| 0 <= k < i - 1 implies is_ascii_digit(#[trigger] s.drop_first()[k]) by {
            assert(s.drop_first()[k] == s[k + 1]);
        }
        if i < s.len() {
            assert(s.drop_first()[i - 1] == s[i]);
        }
        lemma_lead_digits(s.drop_first(), i - 1);
        assert(s.take(i) =~= seq![s[0]] + s.drop_first().take(i - 1));
    } else {
        assert(s.take(0) =~= Seq::<char>::empty());
    }
}

/// The year a `Games` folder name leads with: "1990" → 1990, "1996+" → 1996,
/// "Infocom+" → none.
pub fn parse_year(seg: &str) -> (r: Option<i64>)
    ensures
        match year_of_dir(seg@) {
            Some(y) => r matches Some(v) && v == y,
            None => r is None,
        },
{
    let cs = chars_of(seg);
    let mut i: usize = 0;
    while i < cs.len() && '0' <= cs[i] && cs[i] <= '9'
        invariant
            i <= cs@.len(),
            cs@ == seg@,
            forall|k: int| 0 <= k < i ==> is_ascii_digit(#[trigger] cs@[k]),
        decreases cs@.len() - i,
    {
        i = i + 1;
    }
    proof {
        lemma_lead_digits(cs@, i as int);
    }
    if i != 4 {
        return None;
    }
    let d = vstd::slice::slice_subrange(cs.as_slice(), 0, 4);
    proof {
        assert(d@ =~= cs@.take(4));
        assert forall|k: int| 0 <= k < d@.len() implies is_ascii_digit(#[trigger] d@[k]) by {
            assert(d@[k] == cs@[k]);
        }
        lemma_four_digits(d@);
    }
    parse_i64(d)
}

proof fn lemma_four_digits(d: Seq<char>)
    requires
        d.len() == 4,
        all_digits(d),
    ensures
        crate::text::parse_i64_spec(d) == Some(digits_value(d)),
        0 <= digits_value(d) <= 9999,
{
    assert(d.drop_last().drop_last().drop_last().drop_last() =~= Seq::<char>::empty());
    assert(d.subrange(0, d.len() as int) =~= d);
    reveal_with_fuel(digits_value, 5);
}

/// The last `/`-separated component of a path.
pub open spec fn leaf_of(path: Seq<char>) -> Seq<char> {
    pieces(path, '/').last()
}

/// An application a launch may pick: not a bundled Finder or System
/// (creator `MACS`, or named `Finder`).
pub open spec fn usable(a: (String, String)) -> bool {
    a.1@ != "MACS"@ && leaf_of(a.0@) != "Finder"@
}

/// Some application is usable.
pub open spec fn any_usable(appls: Seq<(String, String)>) -> bool {
    exists|j: int| 0 <= j < appls.len() && usable(#[trigger] appls[j])
}

/// The applications competing: the usable ones, or all where none is.
pub open spec fn in_pool(appls: Seq<(String, String)>, j: int) -> bool {
    0 <= j < appls.len() && (usable(appls[j]) || !any_usable(appls))
}

/// A path's part below `prefix` (the whole path where it does not start so).
pub open spec fn below_prefix(path: Seq<char>, prefix: Seq<char>) -> Seq<char> {
    if occurs_at(path, prefix, 0) { path.skip(prefix.len() as int) } else { path }
}

/// The launch preference of an application path: directly in the title
/// folder, then the longer slug match of its name to the title's, then the
/// shorter path (in bytes).
pub open spec fn launch_rank(path: Seq<char>, bytes: int, title_path: Seq<char>, base: Seq<char>) -> (int, int, int) {
    (
        if contains_seq(below_prefix(path, title_path + "/"@), "/"@) { 0 } else { 1 },
        common_prefix(encode_utf8(slug(leaf_of(path))), encode_utf8(slug(base))),
        -bytes,
    )
}

/// `a` is below `b` lexicographically.
pub open spec fn rank_below(a: (int, int, int), b: (int, int, int)) -> bool {
    a.0 < b.0 || (a.0 == b.0 && (a.1 < b.1 || (a.1 == b.1 && a.2 < b.2)))
}

/// The rank of application `j` for the title.
pub open spec fn rank_at(appls: Seq<(String, String)>, j: int, title_path: Seq<char>, title_name: Seq<char>) -> (int, int, int) {
    launch_rank(appls[j].0@, encode_utf8(appls[j].0@).len() as int, title_path, title_name)
}

/// Index `i` is the launch pick: in the pool, ranked below by no other, the
/// last of equals.
pub open spec fn is_pick(appls: Seq<(String, String)>, i: int, title_path: Seq<char>, title_name: Seq<char>) -> bool {
    &&& in_pool(appls, i)
    &&& forall|j: int| #[trigger] in_pool(appls, j) ==> !rank_below(
        rank_at(appls, i, title_path, title_name),
        rank_at(appls, j, title_path, title_name),
    )
    &&& forall|j: int| i < j && #[trigger] in_pool(appls, j) ==> rank_below(
        rank_at(appls, j, title_path, title_name),
        rank_at(appls, i, title_path, title_name),
    )
}

fn leaf_exec(path: &str) -> (r: Vec<char>)
    ensures
        r@ == leaf_of(path@),
{
    let ps = split_pieces(path, '/');
    proof {
        crate::text::lemma_pieces_nonempty(path@, '/');
    }
    let n = ps.len();
    let mut r: Vec<char> = Vec::new();
    let mut k: usize = 0;
    while k < ps[n - 1].len()
        invariant
            n == ps@.len(),
            n >= 1,
            k <= ps@[n - 1]@.len(),
            r@ == ps@[n - 1]@.take(k as int),
        decreases ps@[n - 1]@.len() - k,
    {
        r.push(ps[n - 1][k]);
        k = k + 1;
        assert(r@ =~= ps@[n - 1]@.take(k as int));
    }
    assert(ps@[n - 1]@.take(k as int) =~= ps@[n - 1]@);
    r
}

fn usable_exec(a: &(String, String)) -> (r: bool)
    ensures
        r == usable(*a),
{
    proof {
        reveal_strlit("MACS");
        reveal_strlit("Finder");
    }
    let leaf = leaf_exec(a.0.as_str());
    let f = chars_of("Finder");
    !same_str(a.1.as_str(), "MACS") && !crate::text::seq_eq(leaf.as_slice(), f.as_slice())
}

fn rank_exec(path: &String, title_path: &str, base: &str, Ghost(title_name): Ghost<Seq<char>>) -> (r: (u8, usize, usize))
    requires
        base@ == slug(title_name),
    ensures
        r.0 == launch_rank(path@, encode_utf8(path@).len() as int, title_path@, title_name).0,
        r.1 == launch_rank(path@, encode_utf8(path@).len() as int, title_path@, title_name).1,
        -(r.2 as int) == launch_rank(path@, encode_utf8(path@).len() as int, title_path@, title_name).2,
{
    let mut prefix = title_path.to_owned();
    append(&mut prefix, "/");
    let pc = chars_of(path.as_str());
    let xc = chars_of(prefix.as_str());
    let rel: Vec<char> = if starts_with_chars(pc.as_slice(), xc.as_slice()) {
        let mut v: Vec<char> = Vec::new();
        let mut k: usize = xc.len();
        while k < pc.len()
            invariant
                xc@.len() <= k <= pc@.len(),
                v@ == pc@.subrange(xc@.len() as int, k as int),
            decreases pc@.len() - k,
        {
            v.push(pc[k]);
            k = k + 1;
            assert(v@ =~= pc@.subrange(xc@.len() as int, k as int));
        }
        assert(pc@.skip(xc@.len() as int) =~= pc@.subrange(xc@.len() as int, pc@.len() as int));
        v
    } else {
        pc
    };
    let nested = crate::text::contains_str(rel.as_slice(), "/");
    let leaf = leaf_exec(path.as_str());
    let ls = slugify(string_from(leaf.as_slice()).as_str());
    let m = common_prefix_len(ls.as_str(), base);
    let len = path.as_str().as_bytes().len();
    (if nested { 0 } else { 1 }, m, len)
}

/// Pick the launch application among a title's applications (full path,
/// creator): of those that are not a bundled Finder or System (all of them
/// where every one is), the one directly in the title folder, then with the
/// longest slug match of its name to the title's, then the shortest path,
/// the last of equals; the empty path where there are none.
pub fn pick_launch(appls: &Vec<(String, String)>, title_path: &str, title_name: &str) -> (r: String)
    ensures
        appls@.len() == 0 ==> r@.len() == 0,
        appls@.len() > 0 ==> exists|i: int| #[trigger] is_pick(appls@, i, title_path@, title_name@) && r@ == appls@[i].0@,
{
    let base = slugify(title_name);
    let mut some_usable = false;
    let mut u: usize = 0;
    while u < appls.len()
        invariant
            u <= appls@.len(),
            some_usable == exists|j: int| 0 <= j < u && usable(#[trigger] appls@[j]),
        decreases appls@.len() - u,
    {
        if usable_exec(&appls[u]) {
            some_usable = true;
        }
        u = u + 1;
    }
    let ghost tp = title_path@;
    let ghost tn = title_name@;
    let mut best: Option<usize> = None;
    let mut best_rank: (u8, usize, usize) = (0, 0, 0);
    let mut i: usize = 0;
    while i < appls.len()
        invariant
            i <= appls@.len(),
            base@ == slug(tn),
            tp == title_path@,
            tn == title_name@,
            some_usable == any_usable(appls@),
            match best {
                Some(b) => {
                    &&& b < i
                    &&& in_pool(appls@, b as int)
                    &&& rank_at(appls@, b as int, tp, tn) == (best_rank.0 as int, best_rank.1 as int, -(best_rank.2 as int))
                    &&& forall|j: int| j < i && #[trigger] in_pool(appls@, j) ==> !rank_below(rank_at(appls@, b as int, tp, tn), rank_at(appls@, j, tp, tn))
                    &&& forall|j: int| b < j < i && #[trigger] in_pool(appls@, j) ==> rank_below(rank_at(appls@, j, tp, tn), rank_at(appls@, b as int, tp, tn))
                },
                None => forall|j: int| j < i ==> !#[trigger] in_pool(appls@, j),
            },
        decreases appls@.len() - i,
    {
        let pooled = !some_usable || usable_exec(&appls[i]);
        if pooled {
            let k = rank_exec(&appls[i].0, title_path, base.as_str(), Ghost(tn));
            let below = match best {
                Some(_) => k.0 < best_rank.0 || (k.0 == best_rank.0 && (k.1 < best_rank.1 || (k.1 == best_rank.1 && k.2 > best_rank.2))),
                None => false,
            };
            if !below {
                best = Some(i);
                best_rank = k;
            }
        }
        i = i + 1;
    }
    match best {
        Some(b) => {
            proof {
                assert(is_pick(appls@, b as int, tp, tn));
            }
            appls[b].0.clone()
        },
        None => {
            proof {
                if appls@.len() > 0 {
                    assert(in_pool(appls@, 0) || any_usable(appls@));
                    if any_usable(appls@) {
                        let j = choose|j: int| 0 <= j < appls@.len() && usable(#[trigger] appls@[j]);
                        assert(in_pool(appls@, j));
                    }
                }
            }
            String::new()
        },
    }
}

} // verus!

verus! {

// ---- seeding the category database --------------------------------------------

/// The facts about one library title its categories are seeded from: its id,
/// kind, genres, and the colour and mouse facets of the compatibility data.
#[derive(Clone, Debug, Default)]
pub struct TitleFacets {
    pub id: String,
    /// The title's kind; a game when absent.
    pub kind: Option<String>,
    pub genre: Vec<String>,
    pub color: Option<bool>,
    pub mouse: Option<bool>,
}

/// `c` added unless it is empty or already there.
pub open spec fn push_new(cats: Seq<Seq<char>>, c: Seq<char>) -> Seq<Seq<char>> {
    if c.len() > 0 && !cats.contains(c) { cats.push(c) } else { cats }
}

/// Each of `cands` offered in turn with `push_new`.
pub open spec fn push_all_new(cats: Seq<Seq<char>>, cands: Seq<Seq<char>>) -> Seq<Seq<char>>
    decreases cands.len(),
{
    if cands.len() == 0 { cats } else { push_new(push_all_new(cats, cands.drop_last()), cands.last()) }
}

/// The category buckets the genres map to, in genre order; genres the map
/// does not know give none.
pub open spec fn genre_buckets(map: Seq<(String, String)>, genres: Seq<String>) -> Seq<Seq<char>>
    decreases genres.len(),
{
    if genres.len() == 0 {
        Seq::empty()
    } else {
        let before = genre_buckets(map, genres.drop_last());
        match crate::keyed::lookup(map, genres.last()@) {
            Some(b) => before.push(b@),
            None => before,
        }
    }
}

/// The kind of a title: "game" when absent.
pub open spec fn kind_text(t: TitleFacets) -> Seq<char> {
    match t.kind {
        Some(k) => k@,
        None => "game"@,
    }
}

/// Recommended when the taxonomy recommends the title, then the taxonomy's
/// extra seeds for its id.
pub open spec fn seed_head(tax: crate::catalog::Taxonomy, t: TitleFacets) -> Seq<Seq<char>> {
    (if crate::text::views(tax.recommended@).contains(t.id@) { seq!["Recommended"@] } else { Seq::empty() })
        + match crate::keyed::lookup(tax.adds.entries@, t.id@) {
        Some(v) => crate::text::views(v@),
        None => Seq::empty(),
    }
}

/// The category of the title's kind, if the taxonomy maps it.
pub open spec fn seed_kind(tax: crate::catalog::Taxonomy, t: TitleFacets) -> Seq<Seq<char>> {
    match crate::keyed::lookup(tax.kind_map.entries@, kind_text(t)) {
        Some(k) => seq![k@],
        None => Seq::empty(),
    }
}

/// Black & White and No Mouse Required from the facets, then the catch-all
/// for a game (a kind the taxonomy does not map) that no genre placed.
pub open spec fn seed_tail(tax: crate::catalog::Taxonomy, t: TitleFacets) -> Seq<Seq<char>> {
    (if t.color == Some(false) { seq!["Black & White"@] } else { Seq::empty() }) + (if t.mouse == Some(false) {
        seq!["No Mouse Required"@]
    } else {
        Seq::empty()
    }) + (if crate::keyed::lookup(tax.kind_map.entries@, kind_text(t)) is None && genre_buckets(
        tax.genre_map.entries@,
        t.genre@,
    ).len() == 0 && tax.catch_all_game@.len() > 0 {
        seq![tax.catch_all_game@]
    } else {
        Seq::empty()
    })
}

/// The candidate categories of a new title, in order.
pub open spec fn seed_candidates(tax: crate::catalog::Taxonomy, t: TitleFacets) -> Seq<Seq<char>> {
    seed_head(tax, t) + seed_kind(tax, t) + genre_buckets(tax.genre_map.entries@, t.genre@) + seed_tail(tax, t)
}

/// The categories a new title is seeded with: its candidates, empty names
/// and repeats dropped, in candidate order.
pub open spec fn seeded(tax: crate::catalog::Taxonomy, t: TitleFacets) -> Seq<Seq<char>> {
    push_all_new(Seq::empty(), seed_candidates(tax, t))
}

fn contains_string(v: &Vec<String>, s: &str) -> (r: bool)
    ensures
        r == crate::text::views(v@).contains(s@),
{
    let mut i: usize = 0;
    while i < v.len()
        invariant
            i <= v@.len(),
            forall|j: int| 0 <= j < i ==> v@[j]@ != s@,
        decreases v@.len() - i,
    {
        if same_str(v[i].as_str(), s) {
            assert(crate::text::views(v@)[i as int] == s@);
            return true;
        }
        i = i + 1;
    }
    proof {
        if crate::text::views(v@).contains(s@) {
            let j = choose|j: int| 0 <= j < crate::text::views(v@).len() && crate::text::views(v@)[j] == s@;
            assert(v@[j]@ == s@);
        }
    }
    false
}

fn offer_new(cats: &mut Vec<String>, c: &str)
    ensures
        crate::text::views(final(cats)@) == push_new(crate::text::views(old(cats)@), c@),
{
    if chars_of(c).len() > 0 && !contains_string(cats, c) {
        let ghost before = cats@;
        cats.push(c.to_owned());
        assert(crate::text::views(cats@) =~= crate::text::views(before).push(c@));
    }
}

fn push_seed_head(v: &mut Vec<String>, tax: &crate::catalog::Taxonomy, t: &TitleFacets)
    ensures
        crate::text::views(final(v)@) == crate::text::views(old(v)@) + seed_head(*tax, *t),
{
    let ghost c0 = crate::text::views(v@);
    if contains_string(&tax.recommended, t.id.as_str()) {
        let ghost before = v@;
        v.push("Recommended".to_owned());
        assert(crate::text::views(v@) =~= crate::text::views(before).push("Recommended"@));
    }
    let ghost c1 = crate::text::views(v@);
    assert(c1 =~= c0 + (if crate::text::views(tax.recommended@).contains(t.id@) {
        seq!["Recommended"@]
    } else {
        Seq::<Seq<char>>::empty()
    }));
    match tax.adds.get(t.id.as_str()) {
        Some(a) => {
            let mut i: usize = 0;
            while i < a.len()
                invariant
                    i <= a@.len(),
                    crate::text::views(v@) == c1 + crate::text::views(a@.take(i as int)),
                decreases a@.len() - i,
            {
                let ghost before = v@;
                let ghost x = a@[i as int]@;
                v.push(a[i].clone());
                assert(crate::text::views(v@) =~= crate::text::views(before).push(x));
                i = i + 1;
                proof {
                    assert(crate::text::views(a@.take(i as int)) =~= crate::text::views(a@.take(i - 1)).push(x));
                }
            }
            assert(a@.take(i as int) =~= a@);
        },
        None => {
            assert(crate::text::views(v@) =~= c1 + Seq::<Seq<char>>::empty());
        },
    }
    assert(crate::text::views(v@) =~= c0 + seed_head(*tax, *t));
}

fn push_seed_kind(v: &mut Vec<String>, tax: &crate::catalog::Taxonomy, t: &TitleFacets) -> (found: bool)
    ensures
        crate::text::views(final(v)@) == crate::text::views(old(v)@) + seed_kind(*tax, *t),
        found == crate::keyed::lookup(tax.kind_map.entries@, kind_text(*t)) is Some,
{
    let kind: &str = match &t.kind {
        Some(k) => k.as_str(),
        None => "game",
    };
    assert(kind@ == kind_text(*t));
    let ghost before = v@;
    match tax.kind_map.get(kind) {
        Some(k) => {
            v.push(k.clone());
            assert(crate::text::views(v@) =~= crate::text::views(before) + seed_kind(*tax, *t));
            true
        },
        None => {
            assert(crate::text::views(v@) =~= crate::text::views(before) + seed_kind(*tax, *t));
            false
        },
    }
}

fn push_buckets(v: &mut Vec<String>, tax: &crate::catalog::Taxonomy, t: &TitleFacets) -> (n: usize)
    ensures
        crate::text::views(final(v)@) == crate::text::views(old(v)@) + genre_buckets(tax.genre_map.entries@, t.genre@),
        n as int == genre_buckets(tax.genre_map.entries@, t.genre@).len(),
{
    let ghost c0 = crate::text::views(v@);
    let mut n: usize = 0;
    let mut g: usize = 0;
    while g < t.genre.len()
        invariant
            g <= t.genre@.len(),
            crate::text::views(v@) == c0 + genre_buckets(tax.genre_map.entries@, t.genre@.take(g as int)),
            n as int == genre_buckets(tax.genre_map.entries@, t.genre@.take(g as int)).len(),
            n <= g,
        decreases t.genre@.len() - g,
    {
        proof {
            assert(t.genre@.take(g + 1).drop_last() =~= t.genre@.take(g as int));
        }
        match tax.genre_map.get(t.genre[g].as_str()) {
            Some(b) => {
                let ghost before = v@;
                v.push(b.clone());
                n = n + 1;
                assert(crate::text::views(v@) =~= crate::text::views(before).push(b@));
            },
            None => {},
        }
        g = g + 1;
        proof {
            assert(crate::text::views(v@) =~= c0 + genre_buckets(tax.genre_map.entries@, t.genre@.take(g as int)));
        }
    }
    assert(t.genre@.take(g as int) =~= t.genre@);
    n
}

fn push_seed_tail(v: &mut Vec<String>, tax: &crate::catalog::Taxonomy, t: &TitleFacets, kind_found: bool, buckets: usize)
    requires
        kind_found == crate::keyed::lookup(tax.kind_map.entries@, kind_text(*t)) is Some,
        buckets as int == genre_buckets(tax.genre_map.entries@, t.genre@).len(),
    ensures
        crate::text::views(final(v)@) == crate::text::views(old(v)@) + seed_tail(*tax, *t),
{
    let ghost c0 = crate::text::views(v@);
    if t.color == Some(false) {
        let ghost before = v@;
        v.push("Black & White".to_owned());
        assert(crate::text::views(v@) =~= crate::text::views(before).push("Black & White"@));
    }
    let ghost c1 = crate::text::views(v@);
    assert(c1 =~= c0 + (if t.color == Some(false) { seq!["Black & White"@] } else { Seq::<Seq<char>>::empty() }));
    if t.mouse == Some(false) {
        let ghost before = v@;
        v.push("No Mouse Required".to_owned());
        assert(crate::text::views(v@) =~= crate::text::views(before).push("No Mouse Required"@));
    }
    let ghost c2 = crate::text::views(v@);
    assert(c2 =~= c1 + (if t.mouse == Some(false) { seq!["No Mouse Required"@] } else { Seq::<Seq<char>>::empty() }));
    if !kind_found && buckets == 0 && chars_of(tax.catch_all_game.as_str()).len() > 0 {
        let ghost before = v@;
        v.push(tax.catch_all_game.clone());
        assert(crate::text::views(v@) =~= crate::text::views(before).push(tax.catch_all_game@));
    }
    assert(crate::text::views(v@) =~= c0 + seed_tail(*tax, *t));
}

fn dedup_new(cands: &Vec<String>) -> (cats: Vec<String>)
    ensures
        crate::text::views(cats@) == push_all_new(Seq::empty(), crate::text::views(cands@)),
{
    let ghost all = crate::text::views(cands@);
    let mut cats: Vec<String> = Vec::new();
    let mut k: usize = 0;
    while k < cands.len()
        invariant
            k <= cands@.len(),
            all == crate::text::views(cands@),
            crate::text::views(cats@) == push_all_new(Seq::empty(), all.take(k as int)),
        decreases cands@.len() - k,
    {
        proof {
            assert(all.take(k + 1).drop_last() =~= all.take(k as int));
            assert(all.take(k + 1).last() == cands@[k as int]@);
        }
        offer_new(&mut cats, cands[k].as_str());
        k = k + 1;
    }
    assert(all.take(k as int) =~= all);
    cats
}

/// The categories a new title is seeded with from the taxonomy: Recommended
/// when recommended, the extra seeds for its id, its kind's category, its
/// genres' buckets, Black & White for a title known not to be in colour, No
/// Mouse Required for one known to need no mouse, and the catch-all bucket
/// for a game that no genre placed; empty names and repeats dropped.
pub fn seed_categories(tax: &crate::catalog::Taxonomy, t: &TitleFacets) -> (r: Vec<String>)
    ensures
        crate::text::views(r@) == seeded(*tax, *t),
{
    let mut v: Vec<String> = Vec::new();
    push_seed_head(&mut v, tax, t);
    let ghost c1 = crate::text::views(v@);
    let kf = push_seed_kind(&mut v, tax, t);
    let ghost c2 = crate::text::views(v@);
    let nb = push_buckets(&mut v, tax, t);
    let ghost c3 = crate::text::views(v@);
    push_seed_tail(&mut v, tax, t, kf, nb);
    proof {
        assert(crate::text::views(Seq::<String>::empty()) =~= Seq::<Seq<char>>::empty());
        assert(c1 =~= seed_head(*tax, *t));
        assert(c2 =~= seed_head(*tax, *t) + seed_kind(*tax, *t));
        assert(c3 =~= seed_head(*tax, *t) + seed_kind(*tax, *t) + genre_buckets(tax.genre_map.entries@, t.genre@));
        assert(crate::text::views(v@) =~= seed_candidates(*tax, *t));
    }
    dedup_new(&v)
}

} // verus!

verus! {

/// The categories a title is filed under: the ones already curated for it
/// when there are any, else the seeded ones.
pub open spec fn chosen_cats(tax: crate::catalog::Taxonomy, e: (TitleFacets, Option<Vec<String>>)) -> Seq<Seq<char>> {
    match e.1 {
        Some(v) => crate::text::views(v@),
        None => seeded(tax, e.0),
    }
}

/// How many of the first `k` titles are filed under `c`.
pub open spec fn filed_count(tax: crate::catalog::Taxonomy, ts: Seq<(TitleFacets, Option<Vec<String>>)>, k: int, c: Seq<char>) -> int
    decreases k,
{
    if k <= 0 {
        0
    } else {
        filed_count(tax, ts, k - 1, c) + if chosen_cats(tax, ts[k - 1]).contains(c) { 1int } else { 0 }
    }
}

/// How many of the first `k` titles keep curated categories.
pub open spec fn preserved_count(ts: Seq<(TitleFacets, Option<Vec<String>>)>, k: int) -> int
    decreases k,
{
    if k <= 0 { 0 } else { preserved_count(ts, k - 1) + if ts[k - 1].1 is Some { 1int } else { 0 } }
}

/// How many of the first `k` titles are filed under some category.
pub open spec fn assigned_count(tax: crate::catalog::Taxonomy, ts: Seq<(TitleFacets, Option<Vec<String>>)>, k: int) -> int
    decreases k,
{
    if k <= 0 {
        0
    } else {
        assigned_count(tax, ts, k - 1) + if chosen_cats(tax, ts[k - 1]).len() > 0 { 1int } else { 0 }
    }
}

proof fn lemma_counts_le(tax: crate::catalog::Taxonomy, ts: Seq<(TitleFacets, Option<Vec<String>>)>, k: int, c: Seq<char>)
    requires
        0 <= k,
    ensures
        0 <= filed_count(tax, ts, k, c) <= k,
        0 <= preserved_count(ts, k) <= k,
        0 <= assigned_count(tax, ts, k) <= k,
    decreases k,
{
    if k > 0 {
        lemma_counts_le(tax, ts, k - 1, c);
    }
}

/// File each title under its categories, in display order: a title with
/// curated categories keeps them (preserved), a new one is seeded from the
/// taxonomy. The report counts the titles, the preserved ones, those filed
/// under some category (assigned) and the rest (uncategorized), and the
/// titles under each category.
pub fn categorize_titles(tax: &crate::catalog::Taxonomy, titles: &Vec<(TitleFacets, Option<Vec<String>>)>) -> (r: (
    Vec<(String, Vec<String>)>,
    CategorizeReport,
))
    ensures
        r.0@.len() == titles@.len(),
        forall|k: int|
            0 <= k < titles@.len() ==> {
                &&& (#[trigger] r.0@[k]).0 == titles@[k].0.id
                &&& crate::catalog::displayed(tax.order@, crate::text::views(r.0@[k].1@))
                &&& forall|c: Seq<char>|
                    crate::text::views(r.0@[k].1@).contains(c) <==> #[trigger] chosen_cats(*tax, titles@[k]).contains(c)
            },
        r.1.titles == titles@.len(),
        r.1.preserved == preserved_count(titles@, titles@.len() as int),
        r.1.assigned == assigned_count(*tax, titles@, titles@.len() as int),
        r.1.uncategorized == titles@.len() - assigned_count(*tax, titles@, titles@.len() as int),
        r.1.per_category.wf(),
        forall|c: Seq<char>|
            crate::keyed::lookup(r.1.per_category.entries@, c) == crate::catalog::count_entry(
                #[trigger] filed_count(*tax, titles@, titles@.len() as int, c),
            ),
{
    let n = titles.len();
    let mut rows: Vec<(String, Vec<String>)> = Vec::new();
    let mut per: Keyed<usize> = Keyed::new();
    let mut preserved: usize = 0;
    let mut assigned: usize = 0;
    let mut k: usize = 0;
    while k < n
        invariant
            k <= n,
            n == titles@.len(),
            rows@.len() == k,
            forall|j: int|
                0 <= j < k ==> {
                    &&& (#[trigger] rows@[j]).0 == titles@[j].0.id
                    &&& crate::catalog::displayed(tax.order@, crate::text::views(rows@[j].1@))
                    &&& forall|c: Seq<char>|
                        crate::text::views(rows@[j].1@).contains(c) <==> #[trigger] chosen_cats(*tax, titles@[j]).contains(c)
                },
            preserved == preserved_count(titles@, k as int),
            assigned == assigned_count(*tax, titles@, k as int),
            assigned <= k,
            preserved <= k,
            per.wf(),
            forall|c: Seq<char>|
                crate::keyed::lookup(per.entries@, c) == crate::catalog::count_entry(
                    #[trigger] filed_count(*tax, titles@, k as int, c),
                ),
        decreases n - k,
    {
        proof {
            lemma_counts_le(*tax, titles@, k as int, Seq::empty());
        }
        let mut cats: Vec<String> = match &titles[k].1 {
            Some(v) => {
                preserved = preserved + 1;
                crate::config::copy_strings(v)
            },
            None => seed_categories(tax, &titles[k].0),
        };
        let ghost chosen = crate::text::views(cats@);
        assert(chosen == chosen_cats(*tax, titles@[k as int]));
        tax.order_cats(&mut cats);
        let ghost ordered = crate::text::views(cats@);
        proof {
            if chosen.len() > 0 {
                assert(chosen.contains(chosen[0]));
                assert(ordered.contains(chosen[0]));
            }
            if ordered.len() > 0 {
                assert(ordered.contains(ordered[0]));
                assert(chosen.contains(ordered[0]));
            }
            assert((ordered.len() > 0) == (chosen.len() > 0));
            assert(assigned_count(*tax, titles@, k + 1) == assigned_count(*tax, titles@, k as int) + if chosen.len() > 0 {
                1int
            } else {
                0
            });
            assert forall|i: int, j: int| 0 <= i < j < ordered.len() implies ordered[i] != ordered[j] by {
                crate::catalog::lemma_display_order(tax.order@, ordered[i], ordered[j], ordered[j]);
            }
        }
        if cats.len() > 0 {
            assigned = assigned + 1;
        }
        let ghost before = |c: Seq<char>| filed_count(*tax, titles@, k as int, c);
        proof {
            assert forall|c: Seq<char>| 0 <= #[trigger] before(c) < n by {
                lemma_counts_le(*tax, titles@, k as int, c);
            }
            assert forall|c: Seq<char>| crate::keyed::lookup(per.entries@, c) == crate::catalog::count_entry(#[trigger] before(c)) by {
                assert(before(c) == filed_count(*tax, titles@, k as int, c));
            }
        }
        tally(&mut per, &cats, Ghost(before), n);
        proof {
            assert forall|c: Seq<char>|
                crate::keyed::lookup(per.entries@, c) == crate::catalog::count_entry(
                    #[trigger] filed_count(*tax, titles@, k + 1, c),
                ) by {
                assert(ordered.contains(c) <==> chosen.contains(c));
                assert(before(c) == filed_count(*tax, titles@, k as int, c));
                assert(filed_count(*tax, titles@, k + 1, c) == filed_count(*tax, titles@, k as int, c) + if chosen_cats(
                    *tax,
                    titles@[k as int],
                ).contains(c) {
                    1int
                } else {
                    0
                });
                assert(crate::keyed::lookup(per.entries@, c) == crate::catalog::count_entry(
                    before(c) + if ordered.contains(c) { 1int } else { 0 },
                ));
            }
        }
        rows.push((titles[k].0.id.clone(), cats));
        k = k + 1;
    }
    let report = CategorizeReport {
        titles: n,
        assigned,
        preserved,
        uncategorized: n - assigned,
        per_category: per,
    };
    (rows, report)
}

/// Count each of `cats` (distinct names) once more, where `before` gives the
/// counts so far (each below `bound`).
fn tally(counts: &mut Keyed<usize>, cats: &Vec<String>, Ghost(before): Ghost<spec_fn(Seq<char>) -> int>, bound: usize)
    requires
        old(counts).wf(),
        crate::text::views(cats@).no_duplicates(),
        forall|c: Seq<char>| 0 <= #[trigger] before(c) < bound,
        forall|c: Seq<char>| crate::keyed::lookup(old(counts).entries@, c) == crate::catalog::count_entry(#[trigger] before(c)),
    ensures
        final(counts).wf(),
        forall|c: Seq<char>|
            crate::keyed::lookup(final(counts).entries@, c) == crate::catalog::count_entry(
                #[trigger] before(c) + if crate::text::views(cats@).contains(c) { 1int } else { 0 },
            ),
{
    let ghost kc = crate::text::views(cats@);
    let mut q: usize = 0;
    while q < cats.len()
        invariant
            q <= cats@.len(),
            counts.wf(),
            kc == crate::text::views(cats@),
            kc.no_duplicates(),
            forall|c: Seq<char>| 0 <= #[trigger] before(c) < bound,
            forall|c: Seq<char>|
                crate::keyed::lookup(counts.entries@, c) == crate::catalog::count_entry(
                    #[trigger] before(c) + if kc.take(q as int).contains(c) { 1int } else { 0 },
                ),
        decreases cats@.len() - q,
    {
        let ghost cq = cats@[q as int]@;
        proof {
            assert(kc[q as int] == cq);
            let t0 = kc.take(q as int);
            if t0.contains(cq) {
                let j = choose|j: int| 0 <= j < t0.len() && t0[j] == cq;
                assert(kc[j] == kc[q as int]);
            }
            assert(crate::keyed::lookup(counts.entries@, cq) == crate::catalog::count_entry(before(cq)));
        }
        let cur: usize = match counts.get(cats[q].as_str()) {
            Some(v) => *v,
            None => 0,
        };
        assert(cur as int == before(cq));
        counts.insert(cats[q].clone(), cur + 1);
        proof {
            assert forall|c: Seq<char>|
                crate::keyed::lookup(counts.entries@, c) == crate::catalog::count_entry(
                    #[trigger] before(c) + if kc.take(q + 1).contains(c) { 1int } else { 0 },
                ) by {
                let t1 = kc.take(q + 1);
                let t0 = kc.take(q as int);
                assert(t1 =~= t0.push(cq));
                if c == cq {
                    assert(t1[q as int] == cq);
                } else {
                    if t1.contains(c) {
                        let j = choose|j: int| 0 <= j < t1.len() && t1[j] == c;
                        assert(t0[j] == c);
                    }
                    if t0.contains(c) {
                        let j = choose|j: int| 0 <= j < t0.len() && t0[j] == c;
                        assert(t1[j] == c);
                    }
                }
            }
        }
        q = q + 1;
    }
    proof {
        assert(kc.take(q as int) =~= kc);
    }
}

/// The rows that file their title under at least one category, in order.
pub open spec fn filed(rows: Seq<(String, Vec<String>)>) -> Seq<(String, Vec<String>)>
    decreases rows.len(),
{
    if rows.len() == 0 {
        rows
    } else {
        let f = filed(rows.drop_last());
        if rows.last().1@.len() > 0 { f.push(rows.last()) } else { f }
    }
}

/// The rows of the category DB to write: those with categories, in order
/// (a title with none gets no row).
pub fn filed_rows(rows: Vec<(String, Vec<String>)>) -> (r: Vec<(String, Vec<String>)>)
    ensures
        r@ == filed(rows@),
{
    let ghost all = rows@;
    let mut out: Vec<(String, Vec<String>)> = Vec::new();
    let mut rest = rows;
    let ghost mut k: int = 0;
    while rest.len() > 0
        invariant
            0 <= k <= all.len(),
            rest@ == all.skip(k),
            out@ == filed(all.take(k)),
        decreases rest@.len(),
    {
        let row = rest.remove(0);
        proof {
            assert(row == all[k]);
            assert(all.take(k + 1).drop_last() =~= all.take(k));
            assert(all.take(k + 1).last() == row);
        }
        if row.1.len() > 0 {
            out.push(row);
        }
        proof {
            k = k + 1;
            assert(rest@ =~= all.skip(k));
        }
    }
    proof {
        assert(all.skip(k).len() == 0);
        assert(all.take(k) =~= all);
    }
    out
}

// ---- scanning the donor disks ----------------------------------------------

/// The tree roots a disk is scanned under: `Games` (by year), `Applications`
/// and `Utilities` (by category).
pub open spec fn root_name(r: int) -> Seq<char> {
    if r == 0 { "Games"@ } else if r == 1 { "Applications"@ } else { "Utilities"@ }
}

/// The kind of the titles under a root.
pub open spec fn root_kind(r: int) -> Seq<char> {
    if r == 0 { "game"@ } else if r == 1 { "app"@ } else { "utility"@ }
}

fn root_name_exec(r: usize) -> (s: &'static str)
    ensures
        s@ == root_name(r as int),
{
    proof {
        reveal_strlit("Games");
        reveal_strlit("Applications");
        reveal_strlit("Utilities");
    }
    if r == 0 {
        "Games"
    } else if r == 1 {
        "Applications"
    } else {
        "Utilities"
    }
}

/// `s` without its leading `/`s.
pub open spec fn lstrip_slashes(s: Seq<char>) -> Seq<char>
    decreases s.len(),
{
    if s.len() > 0 && s[0] == '/' { lstrip_slashes(s.drop_first()) } else { s }
}

/// The non-empty path components of an entry's name below the root
/// (none when the name is not under it).
pub open spec fn rel_parts(root: Seq<char>, name: Seq<char>) -> Seq<Seq<char>> {
    let t = lstrip_slashes(name);
    crate::text::components(if occurs_at(t, root, 0) { t.skip(root.len() as int) } else { Seq::empty() }, '/')
}

/// The title folder an application entry belongs to, `/<root>/<a>/<b>`,
/// with `a` and `b`; none for a folder, a file that is not an application,
/// or one not two levels down.
pub open spec fn title_slot(root: Seq<char>, e: crate::rbcli::Entry) -> Option<(Seq<char>, Seq<char>, Seq<char>)> {
    if e.is_dir || e.ostype@ != "APPL"@ {
        None
    } else {
        let r = rel_parts(root, e.name@);
        if r.len() < 2 {
            None
        } else {
            Some(("/"@ + root + "/"@ + r[0] + "/"@ + r[1], r[0], r[1]))
        }
    }
}

fn lstrip_exec(s: &Vec<char>) -> (r: Vec<char>)
    ensures
        r@ == lstrip_slashes(s@),
{
    let mut i: usize = 0;
    assert(s@.skip(0) =~= s@);
    while i < s.len() && s[i] == '/'
        invariant
            i <= s@.len(),
            lstrip_slashes(s@) == lstrip_slashes(s@.skip(i as int)),
        decreases s@.len() - i,
    {
        proof {
            assert(s@.skip(i as int).drop_first() =~= s@.skip(i + 1));
        }
        i = i + 1;
    }
    let mut r: Vec<char> = Vec::new();
    let mut k = i;
    while k < s.len()
        invariant
            i <= k <= s@.len(),
            r@ == s@.subrange(i as int, k as int),
        decreases s@.len() - k,
    {
        r.push(s[k]);
        k = k + 1;
        proof {
            assert(r@ =~= s@.subrange(i as int, k as int));
        }
    }
    proof {
        assert(s@.skip(i as int) =~= s@.subrange(i as int, s@.len() as int));
        if i < s@.len() {
            assert(s@.skip(i as int)[0] != '/');
        }
    }
    r
}

/// The title folder of an application entry under root `r`.
pub fn title_slot_of(r: usize, e: &crate::rbcli::Entry) -> (t: Option<(String, String, String)>)
    ensures
        match title_slot(root_name(r as int), *e) {
            Some((p, a, b)) => t matches Some(x) && x.0@ == p && x.1@ == a && x.2@ == b,
            None => t is None,
        },
{
    proof {
        reveal_strlit("APPL");
        reveal_strlit("/");
    }
    if e.is_dir || !same_str(e.ostype.as_str(), "APPL") {
        return None;
    }
    let root = root_name_exec(r);
    let name = chars_of(e.name.as_str());
    let t = lstrip_exec(&name);
    let rc = chars_of(root);
    let below = if starts_with_chars(t.as_slice(), rc.as_slice()) {
        let mut v: Vec<char> = Vec::new();
        let mut k = rc.len();
        while k < t.len()
            invariant
                rc@.len() <= k <= t@.len(),
                v@ == t@.subrange(rc@.len() as int, k as int),
            decreases t@.len() - k,
        {
            v.push(t[k]);
            k = k + 1;
            proof {
                assert(v@ =~= t@.subrange(rc@.len() as int, k as int));
            }
        }
        proof {
            assert(v@ =~= t@.skip(rc@.len() as int));
        }
        v
    } else {
        Vec::new()
    };
    let bs = string_from(below.as_slice());
    let parts = crate::text::split_components(bs.as_str(), '/');
    if parts.len() < 2 {
        return None;
    }
    let mut path = String::new();
    append(&mut path, "/");
    append(&mut path, root);
    append(&mut path, "/");
    append(&mut path, parts[0].as_str());
    append(&mut path, "/");
    append(&mut path, parts[1].as_str());
    Some((path, parts[0].clone(), parts[1].clone()))
}

/// A title folder: its path, and the two names it is made of.
pub type Slot = (Seq<char>, Seq<char>, Seq<char>);

/// Where path `p` sorts into the slots `s`, looking from `i` on: the first
/// slot whose path is not below `p`.
pub open spec fn sort_pos(s: Seq<Slot>, p: Seq<char>, i: int) -> int
    decreases s.len() - i,
{
    if i < 0 || i >= s.len() {
        s.len() as int
    } else if !crate::keyed::key_lt(s[i].0, p) {
        i
    } else {
        sort_pos(s, p, i + 1)
    }
}

/// The slots with `t` sorted in by path, unless its path is there already.
pub open spec fn slot_in(s: Seq<Slot>, t: Slot) -> Seq<Slot> {
    let i = sort_pos(s, t.0, 0);
    if i < s.len() && s[i].0 == t.0 { s } else { s.insert(i, t) }
}

/// The title folders of the first `k` entries of a listing, by path.
pub open spec fn slots_upto(slots: Seq<Option<Slot>>, k: int) -> Seq<Slot>
    decreases k,
{
    if k <= 0 {
        Seq::empty()
    } else {
        let s = slots_upto(slots, k - 1);
        match slots[k - 1] {
            Some(t) => slot_in(s, t),
            None => s,
        }
    }
}

/// The applications (path, creator) of the first `k` entries in folder `p`.
pub open spec fn appls_in(es: Seq<crate::rbcli::Entry>, slots: Seq<Option<Slot>>, p: Seq<char>, k: int) -> Seq<(String, String)>
    decreases k,
{
    if k <= 0 {
        Seq::empty()
    } else {
        let a = appls_in(es, slots, p, k - 1);
        match slots[k - 1] {
            Some(t) => if t.0 == p { a.push((es[k - 1].name, es[k - 1].creator)) } else { a },
            None => a,
        }
    }
}

/// The views of exec slots.
pub open spec fn slot_views(v: Seq<(String, String, String)>) -> Seq<Slot> {
    v.map_values(|x: (String, String, String)| (x.0@, x.1@, x.2@))
}

/// The views of exec optional slots.
pub open spec fn opt_slot_views(v: Seq<Option<(String, String, String)>>) -> Seq<Option<Slot>> {
    v.map_values(|o: Option<(String, String, String)>| match o {
        Some(x) => Some((x.0@, x.1@, x.2@)),
        None => None::<Slot>,
    })
}

/// Sort one title folder into the list, by path, unless it is there.
fn put_slot(v: &mut Vec<(String, String, String)>, t: (String, String, String))
    ensures
        slot_views(final(v)@) == slot_in(slot_views(old(v)@), (t.0@, t.1@, t.2@)),
{
    let ghost sv = slot_views(v@);
    let ghost tv = (t.0@, t.1@, t.2@);
    let mut i: usize = 0;
    assert(sv.len() == v@.len());
    while i < v.len()
        invariant
            i <= v@.len(),
            sv == slot_views(v@),
            sv.len() == v@.len(),
            tv == (t.0@, t.1@, t.2@),
            sort_pos(sv, tv.0, 0) == sort_pos(sv, tv.0, i as int),
        ensures
            i <= v@.len(),
            sort_pos(sv, tv.0, 0) == i,
        decreases v@.len() - i,
    {
        let lt = crate::keyed::string_lt(v[i].0.as_str(), t.0.as_str());
        assert(sv[i as int].0 == v@[i as int].0@);
        assert(lt == crate::keyed::key_lt(v@[i as int].0@, t.0@));
        assert(tv.0 == t.0@);
        assert(lt == crate::keyed::key_lt(sv[i as int].0, tv.0));
        if !lt {
            break;
        }
        assert(sort_pos(sv, tv.0, i as int) == sort_pos(sv, tv.0, i + 1));
        i = i + 1;
    }
    if i < v.len() {
        assert(sv[i as int].0 == v@[i as int].0@);
    }
    if i < v.len() && same_str(v[i].0.as_str(), t.0.as_str()) {
        return;
    }
    v.insert(i, t);
    proof {
        assert(slot_views(v@) =~= sv.insert(i as int, tv));
    }
}

/// The title folders of a listing's entries, sorted by path, each once.
fn slots_sorted(slots: &Vec<Option<(String, String, String)>>) -> (r: Vec<(String, String, String)>)
    ensures
        slot_views(r@) == slots_upto(opt_slot_views(slots@), slots@.len() as int),
{
    let ghost sv = slots@.map_values(|o: Option<(String, String, String)>| match o {
        Some(x) => Some((x.0@, x.1@, x.2@)),
        None => None::<Slot>,
    });
    let mut v: Vec<(String, String, String)> = Vec::new();
    let mut k: usize = 0;
    proof {
        assert(slot_views(v@) =~= Seq::<Slot>::empty());
    }
    while k < slots.len()
        invariant
            k <= slots@.len(),
            sv.len() == slots@.len(),
            sv == opt_slot_views(slots@),
            slot_views(v@) == slots_upto(sv, k as int),
        decreases slots@.len() - k,
    {
        match &slots[k] {
            Some(t) => {
                let c = (t.0.clone(), t.1.clone(), t.2.clone());
                put_slot(&mut v, c);
            },
            None => {},
        }
        k = k + 1;
    }
    v
}

/// The launch application's path among a title's applications (empty for
/// none): the one pick.
pub open spec fn launch_path(appls: Seq<(String, String)>, tp: Seq<char>, name: Seq<char>) -> Seq<char> {
    if appls.len() == 0 {
        Seq::empty()
    } else {
        appls[choose|i: int| is_pick(appls, i, tp, name)].0@
    }
}

/// There is one pick at most.
proof fn lemma_pick_unique(appls: Seq<(String, String)>, tp: Seq<char>, name: Seq<char>, i: int, j: int)
    requires
        is_pick(appls, i, tp, name),
        is_pick(appls, j, tp, name),
    ensures
        i == j,
{
    if i < j {
        assert(in_pool(appls, j));
        assert(rank_below(rank_at(appls, j, tp, name), rank_at(appls, i, tp, name)));
        assert(in_pool(appls, i));
    } else if j < i {
        assert(in_pool(appls, i));
        assert(rank_below(rank_at(appls, i, tp, name), rank_at(appls, j, tp, name)));
        assert(in_pool(appls, j));
    }
}

/// The launch application's path as the launcher sees it below `Apps/<name>/`:
/// below the title folder, or its leaf name.
pub open spec fn appl_rel(appl: Seq<char>, tp: Seq<char>) -> Seq<char> {
    if occurs_at(appl, tp + "/"@, 0) { appl.skip(tp.len() as int + 1) } else { leaf_of(appl) }
}

/// A scanned title: a library record.
#[derive(Clone, Debug)]
pub struct Title {
    pub id: String,
    pub name: String,
    pub kind: String,
    pub year: Option<i64>,
    /// Multi-valued, non-exclusive tags.
    pub genre: Vec<String>,
    /// The donor disk's original file name.
    pub donor: String,
    /// The title folder on the donor.
    pub src_path: String,
    /// The launch path in the built image: `Apps/<name>/<appl>`.
    pub app_path: String,
}

/// A title as plain values: id, name, kind, year, genres, donor, source
/// folder, launch path.
pub type TitleView = (Seq<char>, Seq<char>, Seq<char>, Option<int>, Seq<Seq<char>>, Seq<char>, Seq<char>, Seq<char>);

pub open spec fn title_view(t: Title) -> TitleView {
    (
        t.id@,
        t.name@,
        t.kind@,
        match t.year {
            Some(y) => Some(y as int),
            None => None,
        },
        crate::text::views(t.genre@),
        t.donor@,
        t.src_path@,
        t.app_path@,
    )
}

pub open spec fn title_views(v: Seq<Title>) -> Seq<TitleView> {
    v.map_values(|t: Title| title_view(t))
}

/// The title a folder of root `r` on `donor` makes, from its applications:
/// none when the folder's name slugs to nothing; under `Games` a year
/// folder gives the year, any other folder becomes the one genre tag.
pub open spec fn candidate(r: int, donor: Seq<char>, t: Slot, appls: Seq<(String, String)>) -> Option<TitleView> {
    let (p, a, b) = t;
    let id = slug(b);
    if id.len() == 0 {
        None
    } else {
        let (year, genre) = if r == 0 && year_of_dir(a) is Some {
            (year_of_dir(a), Seq::<Seq<char>>::empty())
        } else {
            (None::<int>, seq![a])
        };
        Some((id, b, root_kind(r), year, genre, donor, p, "Apps/"@ + b + "/"@ + appl_rel(launch_path(appls, p, b), p)))
    }
}

/// The applications of a listing in title folder `p`, in listing order.
fn appls_for(es: &Vec<crate::rbcli::Entry>, slots: &Vec<Option<(String, String, String)>>, p: &str) -> (r: Vec<(String, String)>)
    requires
        es@.len() == slots@.len(),
    ensures
        r@ == appls_in(es@, opt_slot_views(slots@), p@, es@.len() as int),
{
    let ghost sv = opt_slot_views(slots@);
    let mut r: Vec<(String, String)> = Vec::new();
    let mut k: usize = 0;
    while k < es.len()
        invariant
            k <= es@.len(),
            es@.len() == slots@.len(),
            sv == opt_slot_views(slots@),
            r@ == appls_in(es@, sv, p@, k as int),
        decreases es@.len() - k,
    {
        match &slots[k] {
            Some(t) => {
                if same_str(t.0.as_str(), p) {
                    r.push((es[k].name.clone(), es[k].creator.clone()));
                }
            },
            None => {},
        }
        k = k + 1;
    }
    r
}

/// The launch application's path among a title's applications.
fn launch_of(appls: &Vec<(String, String)>, tp: &str, name: &str) -> (r: String)
    ensures
        r@ == launch_path(appls@, tp@, name@),
{
    let r = pick_launch(appls, tp, name);
    proof {
        if appls@.len() > 0 {
            let i = choose|i: int| #[trigger] is_pick(appls@, i, tp@, name@) && r@ == appls@[i].0@;
            let k = choose|i: int| is_pick(appls@, i, tp@, name@);
            lemma_pick_unique(appls@, tp@, name@, i, k);
        } else {
            assert(r@ =~= Seq::<char>::empty());
        }
    }
    r
}

/// The launch path below the title folder, or its leaf name.
fn appl_rel_of(appl: &str, tp: &str) -> (r: Vec<char>)
    ensures
        r@ == appl_rel(appl@, tp@),
{
    let mut pre = String::new();
    append(&mut pre, tp);
    append(&mut pre, "/");
    proof {
        reveal_strlit("/");
    }
    let ac = chars_of(appl);
    let pc = chars_of(pre.as_str());
    if starts_with_chars(ac.as_slice(), pc.as_slice()) {
        let mut v: Vec<char> = Vec::new();
        let mut k = pc.len();
        while k < ac.len()
            invariant
                pc@.len() <= k <= ac@.len(),
                v@ == ac@.subrange(pc@.len() as int, k as int),
            decreases ac@.len() - k,
        {
            v.push(ac[k]);
            k = k + 1;
            proof {
                assert(v@ =~= ac@.subrange(pc@.len() as int, k as int));
            }
        }
        proof {
            assert(v@ =~= ac@.skip(pc@.len() as int));
            assert(pc@.len() == tp@.len() + 1);
        }
        v
    } else {
        leaf_exec(appl)
    }
}

/// The title a folder makes.
fn candidate_of(r: usize, donor: &String, t: &(String, String, String), appls: &Vec<(String, String)>) -> (c: Option<Title>)
    ensures
        match candidate(r as int, donor@, (t.0@, t.1@, t.2@), appls@) {
            Some(v) => c matches Some(x) && title_view(x) == v,
            None => c is None,
        },
{
    let id = slugify(t.2.as_str());
    if id.as_str().unicode_len() == 0 {
        return None;
    }
    let (year, genre) = match parse_year(t.1.as_str()) {
        Some(y) => {
            if r == 0 {
                (Some(y), Vec::new())
            } else {
                let mut g: Vec<String> = Vec::new();
                g.push(t.1.clone());
                (None, g)
            }
        },
        None => {
            let mut g: Vec<String> = Vec::new();
            g.push(t.1.clone());
            (None, g)
        },
    };
    let kind = if r == 0 {
        "game".to_string()
    } else if r == 1 {
        "app".to_string()
    } else {
        "utility".to_string()
    };
    let appl = launch_of(appls, t.0.as_str(), t.2.as_str());
    let rel = appl_rel_of(appl.as_str(), t.0.as_str());
    let mut app_path = String::new();
    append(&mut app_path, "Apps/");
    append(&mut app_path, t.2.as_str());
    append(&mut app_path, "/");
    let rs = string_from(rel.as_slice());
    append(&mut app_path, rs.as_str());
    proof {
        reveal_strlit("game");
        reveal_strlit("app");
        reveal_strlit("utility");
        reveal_strlit("Apps/");
        reveal_strlit("/");
        assert(crate::text::views(genre@) =~= if r == 0 && year_of_dir(t.1@) is Some {
            Seq::<Seq<char>>::empty()
        } else {
            seq![t.1@]
        });
    }
    Some(Title {
        id,
        name: t.2.clone(),
        kind,
        year,
        genre,
        donor: donor.clone(),
        src_path: t.0.clone(),
        app_path,
    })
}

/// Where a title with id `id` sorts into `ts`, looking from `i` on.
pub open spec fn id_pos(ts: Seq<TitleView>, id: Seq<char>, i: int) -> int
    decreases ts.len() - i,
{
    if i < 0 || i >= ts.len() {
        ts.len() as int
    } else if !crate::keyed::key_lt(ts[i].0, id) {
        i
    } else {
        id_pos(ts, id, i + 1)
    }
}

/// The titles (by id) and duplicates after one more folder's title: a title
/// whose id is taken counts as a duplicate (the first wins).
pub open spec fn title_put(st: (Seq<TitleView>, int), c: Option<TitleView>) -> (Seq<TitleView>, int) {
    match c {
        None => st,
        Some(t) => {
            let i = id_pos(st.0, t.0, 0);
            if i < st.0.len() && st.0[i].0 == t.0 { (st.0, st.1 + 1) } else { (st.0.insert(i, t), st.1) }
        },
    }
}

/// The title folders of a listing's entries under root `r`.
pub open spec fn entry_slots(r: int, es: Seq<crate::rbcli::Entry>) -> Seq<Option<Slot>> {
    Seq::new(es.len(), |k: int| title_slot(root_name(r), es[k]))
}

/// The state after the first `j` of a listing's sorted folders.
pub open spec fn listing_upto(
    st: (Seq<TitleView>, int),
    r: int,
    donor: Seq<char>,
    es: Seq<crate::rbcli::Entry>,
    sorted: Seq<Slot>,
    j: int,
) -> (Seq<TitleView>, int)
    decreases j,
{
    if j <= 0 {
        st
    } else {
        title_put(
            listing_upto(st, r, donor, es, sorted, j - 1),
            candidate(r, donor, sorted[j - 1], appls_in(es, entry_slots(r, es), sorted[j - 1].0, es.len() as int)),
        )
    }
}

/// One root of one donor disk as listed: the donor's file name, the root
/// (0 `Games`, 1 `Applications`, 2 `Utilities`), and its entries, none when
/// the root is not on the disk.
#[derive(Clone, Debug)]
pub struct RootListing {
    pub donor: String,
    pub root: usize,
    pub entries: Option<Vec<crate::rbcli::Entry>>,
}

/// The scan's titles, duplicates and missing roots after one more listing:
/// its title folders, in path order, each making a title.
pub open spec fn listing_step(st: (Seq<TitleView>, int, int), l: RootListing) -> (Seq<TitleView>, int, int) {
    match l.entries {
        None => (st.0, st.1, st.2 + 1),
        Some(es) => {
            let sorted = slots_upto(entry_slots(l.root as int, es@), es@.len() as int);
            let r = listing_upto((st.0, st.1), l.root as int, l.donor@, es@, sorted, sorted.len() as int);
            (r.0, r.1, st.2)
        },
    }
}

/// The scan after the first `k` listings.
pub open spec fn scan_upto(ls: Seq<RootListing>, k: int) -> (Seq<TitleView>, int, int)
    decreases k,
{
    if k <= 0 { (Seq::empty(), 0, 0) } else { listing_step(scan_upto(ls, k - 1), ls[k - 1]) }
}

/// The number of entries of the first `k` listings.
pub open spec fn entries_upto(ls: Seq<RootListing>, k: int) -> int
    decreases k,
{
    if k <= 0 {
        0
    } else {
        entries_upto(ls, k - 1) + match ls[k - 1].entries {
            Some(es) => es@.len() as int,
            None => 0,
        }
    }
}

proof fn lemma_sort_pos_range(s: Seq<Slot>, p: Seq<char>, i: int)
    requires
        0 <= i <= s.len(),
    ensures
        i <= sort_pos(s, p, i) <= s.len(),
    decreases s.len() - i,
{
    if i < s.len() && crate::keyed::key_lt(s[i].0, p) {
        lemma_sort_pos_range(s, p, i + 1);
    }
}

proof fn lemma_slots_len(sl: Seq<Option<Slot>>, k: int)
    requires
        0 <= k <= sl.len(),
    ensures
        slots_upto(sl, k).len() <= k,
    decreases k,
{
    if k > 0 {
        lemma_slots_len(sl, k - 1);
        let s = slots_upto(sl, k - 1);
        match sl[k - 1] {
            Some(t) => {
                lemma_sort_pos_range(s, t.0, 0);
                assert(slot_in(s, t).len() <= s.len() + 1);
            },
            None => {},
        }
    }
}

/// Sort a title in by id, unless its id is taken: then count a duplicate.
fn put_title(ts: &mut Vec<Title>, dupes: &mut usize, t: Title)
    requires
        *old(dupes) < usize::MAX,
    ensures
        (title_views(final(ts)@), *final(dupes) as int) == title_put((title_views(old(ts)@), *old(dupes) as int), Some(title_view(t))),
        final(ts)@.len() + *final(dupes) == old(ts)@.len() + *old(dupes) + 1,
{
    let ghost tv = title_views(ts@);
    let ghost t0 = title_view(t);
    let mut i: usize = 0;
    assert(tv.len() == ts@.len());
    while i < ts.len()
        invariant
            i <= ts@.len(),
            tv == title_views(ts@),
            tv.len() == ts@.len(),
            t0 == title_view(t),
            id_pos(tv, t0.0, 0) == id_pos(tv, t0.0, i as int),
        ensures
            i <= ts@.len(),
            id_pos(tv, t0.0, 0) == i,
        decreases ts@.len() - i,
    {
        let lt = crate::keyed::string_lt(ts[i].id.as_str(), t.id.as_str());
        assert(tv[i as int].0 == ts@[i as int].id@);
        if !lt {
            break;
        }
        assert(id_pos(tv, t0.0, i as int) == id_pos(tv, t0.0, i + 1));
        i = i + 1;
    }
    if i < ts.len() {
        assert(tv[i as int].0 == ts@[i as int].id@);
        if same_str(ts[i].id.as_str(), t.id.as_str()) {
            *dupes = *dupes + 1;
            return;
        }
    }
    ts.insert(i, t);
    proof {
        assert(title_views(ts@) =~= tv.insert(i as int, t0));
    }
}

/// Scan the donor disks' root listings (in order: each disk's `Games`,
/// `Applications` and `Utilities`) into the library's titles, sorted by id:
/// each title folder (`/<root>/<a>/<b>`) holding applications makes one
/// title, the first folder of an id winning, folders taken in path order
/// within a listing; with the number of titles, of duplicates, and of roots
/// missing from their disk.
pub fn scan_listings(listings: &Vec<RootListing>) -> (r: (Vec<Title>, ScanReport))
    requires
        entries_upto(listings@, listings@.len() as int) <= usize::MAX,
    ensures
        title_views(r.0@) == scan_upto(listings@, listings@.len() as int).0,
        r.1.dupes == scan_upto(listings@, listings@.len() as int).1,
        r.1.roots_missing == scan_upto(listings@, listings@.len() as int).2,
        r.1.titles == r.0@.len(),
{
    let mut ts: Vec<Title> = Vec::new();
    let mut dupes: usize = 0;
    let mut missing: usize = 0;
    let mut k: usize = 0;
    proof {
        assert(title_views(ts@) =~= Seq::<TitleView>::empty());
    }
    while k < listings.len()
        invariant
            k <= listings@.len(),
            entries_upto(listings@, listings@.len() as int) <= usize::MAX,
            (title_views(ts@), dupes as int, missing as int) == scan_upto(listings@, k as int),
            ts@.len() + dupes <= entries_upto(listings@, k as int),
            missing <= k,
        decreases listings@.len() - k,
    {
        proof {
            lemma_entries_mono(listings@, k + 1, listings@.len() as int);
        }
        let l = &listings[k];
        match &l.entries {
            None => {
                missing = missing + 1;
            },
            Some(es) => {
                let mut slots: Vec<Option<(String, String, String)>> = Vec::new();
                let mut e: usize = 0;
                while e < es.len()
                    invariant
                        e <= es@.len(),
                        slots@.len() == e,
                        forall|q: int| 0 <= q < e ==> #[trigger] opt_slot_views(slots@)[q] == title_slot(root_name(l.root as int), es@[q]),
                    decreases es@.len() - e,
                {
                    let sl = title_slot_of(l.root, &es[e]);
                    let ghost before = slots@;
                    slots.push(sl);
                    proof {
                        assert forall|q: int| 0 <= q < e + 1 implies #[trigger] opt_slot_views(slots@)[q] == title_slot(
                            root_name(l.root as int),
                            es@[q],
                        ) by {
                            if q < e {
                                assert(slots@[q] == before[q]);
                                assert(opt_slot_views(before)[q] == title_slot(root_name(l.root as int), es@[q]));
                            }
                        }
                    }
                    e = e + 1;
                }
                proof {
                    assert(opt_slot_views(slots@) =~= entry_slots(l.root as int, es@));
                }
                let sorted = slots_sorted(&slots);
                let ghost sv = slot_views(sorted@);
                let ghost st0 = (title_views(ts@), dupes as int);
                proof {
                    lemma_slots_len(entry_slots(l.root as int, es@), es@.len() as int);
                }
                let mut j: usize = 0;
                while j < sorted.len()
                    invariant
                        j <= sorted@.len(),
                        sv == slot_views(sorted@),
                        sv.len() == sorted@.len(),
                        sv == slots_upto(entry_slots(l.root as int, es@), es@.len() as int),
                        sorted@.len() <= es@.len(),
                        es@.len() == slots@.len(),
                        opt_slot_views(slots@) == entry_slots(l.root as int, es@),
                        (title_views(ts@), dupes as int) == listing_upto(st0, l.root as int, l.donor@, es@, sv, j as int),
                        ts@.len() + dupes <= st0.0.len() + st0.1 + j,
                        st0.0.len() + st0.1 + es@.len() <= usize::MAX,
                    decreases sorted@.len() - j,
                {
                    let t = &sorted[j];
                    assert(sv[j as int] == (t.0@, t.1@, t.2@));
                    let appls = appls_for(es, &slots, t.0.as_str());
                    let c = candidate_of(l.root, &l.donor, t, &appls);
                    match c {
                        Some(x) => {
                            put_title(&mut ts, &mut dupes, x);
                        },
                        None => {},
                    }
                    j = j + 1;
                }
            },
        }
        k = k + 1;
    }
    let n = ts.len();
    (ts, ScanReport { titles: n, dupes, roots_missing: missing })
}

proof fn lemma_entries_mono(ls: Seq<RootListing>, a: int, b: int)
    requires
        0 <= a <= b,
    ensures
        entries_upto(ls, a) <= entries_upto(ls, b),
    decreases b - a,
{
    if a < b {
        lemma_entries_mono(ls, a, b - 1);
    }
}

/// The first `k` texts as JSON strings joined by commas.
pub open spec fn quoted_join(v: Seq<Seq<char>>, k: int) -> Seq<char>
    decreases k,
{
    if k <= 0 {
        Seq::empty()
    } else if k == 1 {
        crate::json::json_quote(v[0])
    } else {
        quoted_join(v, k - 1) + seq![','] + crate::json::json_quote(v[k - 1])
    }
}

/// A title's `library.jsonl` line: its fields in key order (`app`,
/// `genre` when it has genres, `harvest_src` with the donor and source
/// folder, `id`, `kind`, `name`, `year` when known).
pub open spec fn title_text(t: Title) -> Seq<char> {
    let g = crate::text::views(t.genre@);
    "{\"app\":"@ + crate::json::json_quote(t.app_path@)
        + (if g.len() == 0 { Seq::empty() } else { ",\"genre\":["@ + quoted_join(g, g.len() as int) + "]"@ })
        + ",\"harvest_src\":{\"donor\":"@ + crate::json::json_quote(t.donor@) + ",\"path\":"@
        + crate::json::json_quote(t.src_path@) + "}"@ + ",\"id\":"@ + crate::json::json_quote(t.id@) + ",\"kind\":"@
        + crate::json::json_quote(t.kind@) + ",\"name\":"@ + crate::json::json_quote(t.name@)
        + crate::harvest::opt_num_field(",\"year\":"@, t.year) + "}"@
}

/// A title's `library.jsonl` line.
pub fn title_line(t: &Title) -> (r: String)
    ensures
        r@ == title_text(*t),
{
    let mut s = String::new();
    crate::harvest::push_quoted(&mut s, "{\"app\":", t.app_path.as_str());
    let ghost s1 = s@;
    let g = &t.genre;
    if g.len() > 0 {
        append(&mut s, ",\"genre\":[");
        let ghost s2 = s@;
        let mut k: usize = 0;
        while k < g.len()
            invariant
                k <= g@.len(),
                s@ == s2 + quoted_join(crate::text::views(g@), k as int),
            decreases g@.len() - k,
        {
            if k > 0 {
                crate::text::push_char(&mut s, ',');
            }
            let qs = crate::json::json_string(g[k].as_str());
            append(&mut s, qs.as_str());
            k = k + 1;
            proof {
                assert(crate::text::views(g@)[k - 1] == g@[k - 1]@);
                if k == 1 {
                    assert(s@ =~= s2 + quoted_join(crate::text::views(g@), k as int));
                } else {
                    assert(s@ =~= s2 + quoted_join(crate::text::views(g@), k as int));
                }
            }
        }
        append(&mut s, "]");
    }
    let ghost s3 = s@;
    crate::harvest::push_quoted(&mut s, ",\"harvest_src\":{\"donor\":", t.donor.as_str());
    crate::harvest::push_quoted(&mut s, ",\"path\":", t.src_path.as_str());
    append(&mut s, "}");
    crate::harvest::push_quoted(&mut s, ",\"id\":", t.id.as_str());
    crate::harvest::push_quoted(&mut s, ",\"kind\":", t.kind.as_str());
    crate::harvest::push_quoted(&mut s, ",\"name\":", t.name.as_str());
    crate::harvest::push_num_field(&mut s, ",\"year\":", t.year);
    append(&mut s, "}");
    proof {
        let g = crate::text::views(t.genre@);
        assert(g.len() == t.genre@.len());
        assert(s3 == s1 + (if g.len() == 0 { Seq::empty() } else { ",\"genre\":["@ + quoted_join(g, g.len() as int) + "]"@ }));
        assert(s@ =~= title_text(*t));
    }
    s
}

// ---- moving requirement fields to the compatibility data ---------------------

/// The requirement and facet fields that live in the compatibility data,
/// not in the library.
pub open spec fn req_key(i: int) -> Seq<char> {
    if i == 0 {
        "color"@
    } else if i == 1 {
        "mouse"@
    } else if i == 2 {
        "maxDepth"@
    } else if i == 3 {
        "minOS"@
    } else if i == 4 {
        "maxOS"@
    } else if i == 5 {
        "minMem"@
    } else if i == 6 {
        "minCPU"@
    } else {
        "arch"@
    }
}

pub open spec fn is_req(k: Seq<char>) -> bool {
    exists|i: int| 0 <= i < 8 && #[trigger] req_key(i) == k
}

proof fn lemma_req_keys()
    ensures
        forall|i: int, j: int| 0 <= i < j < 8 ==> #[trigger] req_key(i) != #[trigger] req_key(j),
        forall|i: int| 0 <= i < 8 ==> #[trigger] req_key(i) != "id"@,
{
    reveal_strlit("color");
    reveal_strlit("mouse");
    reveal_strlit("maxDepth");
    reveal_strlit("minOS");
    reveal_strlit("maxOS");
    reveal_strlit("minMem");
    reveal_strlit("minCPU");
    reveal_strlit("arch");
    reveal_strlit("id");
    assert("color"@.len() == 5 && "mouse"@.len() == 5 && "maxDepth"@.len() == 8 && "minOS"@.len() == 5);
    assert("maxOS"@.len() == 5 && "minMem"@.len() == 6 && "minCPU"@.len() == 6 && "arch"@.len() == 4 && "id"@.len() == 2);
    assert("color"@[0] != "mouse"@[0]);
    assert("color"@[0] != "minOS"@[0]);
    assert("color"@[0] != "maxOS"@[0]);
    assert("mouse"@[1] != "minOS"@[1]);
    assert("mouse"@[1] != "maxOS"@[1]);
    assert("minOS"@[1] != "maxOS"@[1]);
    assert("minMem"@[3] != "minCPU"@[3]);
    assert forall|i: int, j: int| 0 <= i < j < 8 implies #[trigger] req_key(i) != #[trigger] req_key(j) by {
        if i == 0 {
            if j == 1 { assert(req_key(i)[0] != req_key(j)[0]); }
            if j == 3 { assert(req_key(i)[0] != req_key(j)[0]); }
            if j == 4 { assert(req_key(i)[0] != req_key(j)[0]); }
        } else if i == 1 {
            if j == 3 { assert(req_key(i)[1] != req_key(j)[1]); }
            if j == 4 { assert(req_key(i)[1] != req_key(j)[1]); }
        } else if i == 3 {
            if j == 4 { assert(req_key(i)[1] != req_key(j)[1]); }
        } else if i == 5 {
            if j == 6 { assert(req_key(i)[3] != req_key(j)[3]); }
        }
    }
}

fn req_name(i: usize) -> (s: &'static str)
    requires
        i < 8,
    ensures
        s@ == req_key(i as int),
{
    proof {
        reveal_strlit("color");
        reveal_strlit("mouse");
        reveal_strlit("maxDepth");
        reveal_strlit("minOS");
        reveal_strlit("maxOS");
        reveal_strlit("minMem");
        reveal_strlit("minCPU");
        reveal_strlit("arch");
    }
    if i == 0 {
        "color"
    } else if i == 1 {
        "mouse"
    } else if i == 2 {
        "maxDepth"
    } else if i == 3 {
        "minOS"
    } else if i == 4 {
        "maxOS"
    } else if i == 5 {
        "minMem"
    } else if i == 6 {
        "minCPU"
    } else {
        "arch"
    }
}

fn is_req_exec(k: &str) -> (r: bool)
    ensures
        r == is_req(k@),
{
    let mut i: usize = 0;
    while i < 8
        invariant
            i <= 8,
            forall|j: int| 0 <= j < i ==> #[trigger] req_key(j) != k@,
        decreases 8 - i,
    {
        if same_str(req_name(i), k) {
            return true;
        }
        i = i + 1;
    }
    false
}

/// A record's fields without the requirement fields.
pub fn strip_requirements(f: &Keyed<String>) -> (r: Keyed<String>)
    requires
        f.wf(),
    ensures
        r.wf(),
        forall|k: Seq<char>| #[trigger] crate::merge::field_text(r.entries@, k) == if is_req(k) {
            None
        } else {
            crate::merge::field_text(f.entries@, k)
        },
{
    let mut r: Keyed<String> = Keyed::new();
    let mut i: usize = 0;
    while i < f.entries.len()
        invariant
            i <= f.entries@.len(),
            f.wf(),
            r.wf(),
            forall|k: Seq<char>| #[trigger] crate::keyed::lookup(r.entries@, k) == if is_req(k) {
                None
            } else {
                crate::keyed::lookup(f.entries@.take(i as int), k)
            },
        decreases f.entries@.len() - i,
    {
        let ghost before = r.entries@;
        let key = &f.entries[i].0;
        if !is_req_exec(key.as_str()) {
            r.insert(key.clone(), f.entries[i].1.clone());
        }
        proof {
            assert forall|k: Seq<char>| #[trigger] crate::keyed::lookup(r.entries@, k) == if is_req(k) {
                None
            } else {
                crate::keyed::lookup(f.entries@.take(i + 1), k)
            } by {
                crate::keyed::lemma_take_push_lookup(f.entries@, i as int, k);
                if k != f.entries@[i as int].0@ {
                    assert(crate::keyed::lookup(r.entries@, k) == crate::keyed::lookup(before, k));
                } else {
                    crate::merge::lemma_take_absent(f.entries@, i as int);
                }
            }
        }
        i = i + 1;
    }
    proof {
        assert(f.entries@.take(i as int) =~= f.entries@);
    }
    r
}

/// Some requirement field is present.
pub open spec fn has_req(e: Seq<(String, String)>) -> bool {
    exists|i: int| 0 <= i < 8 && (#[trigger] crate::merge::field_text(e, req_key(i))) is Some
}

/// Library line `l` moves requirement fields to compat entry `id`.
pub open spec fn moves_to(l: crate::merge::Line, id: Seq<char>) -> bool {
    l matches crate::merge::Line::Rec(r) && id.len() > 0 && crate::merge::id_text(r) == Some(id) && has_req(
        r.fields.entries@,
    )
}

/// Field `k` of compat entry `id` after the first `i` library lines moved
/// theirs: an existing value wins; the entry gets its `id` and every moved
/// requirement field it lacks.
pub open spec fn compat_field(c0: Seq<(String, Keyed<String>)>, lib: Seq<crate::merge::Line>, i: int, id: Seq<char>, k: Seq<char>) -> Option<Seq<char>>
    decreases i,
{
    if i <= 0 {
        match crate::keyed::lookup(c0, id) {
            Some(f) => crate::merge::field_text(f.entries@, k),
            None => None,
        }
    } else {
        let p = compat_field(c0, lib, i - 1, id, k);
        if moves_to(lib[i - 1], id) {
            match p {
                Some(v) => Some(v),
                None => if k == "id"@ {
                    Some(crate::json::json_quote(id))
                } else if is_req(k) {
                    crate::merge::field_text(lib[i - 1]->Rec_0.fields.entries@, k)
                } else {
                    None
                },
            }
        } else {
            p
        }
    }
}

/// Compat entry `id` exists after the first `i` library lines.
pub open spec fn compat_has(c0: Seq<(String, Keyed<String>)>, lib: Seq<crate::merge::Line>, i: int, id: Seq<char>) -> bool
    decreases i,
{
    if i <= 0 {
        crate::keyed::lookup(c0, id) is Some
    } else {
        compat_has(c0, lib, i - 1, id) || moves_to(lib[i - 1], id)
    }
}

/// Library records moving requirement fields among the first `i` lines.
pub open spec fn moved_upto(lib: Seq<crate::merge::Line>, i: int) -> int
    decreases i,
{
    if i <= 0 {
        0
    } else {
        moved_upto(lib, i - 1) + if exists|id: Seq<char>| #[trigger] moves_to(lib[i - 1], id) { 1int } else { 0 }
    }
}

/// A library line after the split: a record without its requirement fields;
/// any other line as it was.
pub open spec fn split_line(b: crate::merge::Line, o: crate::merge::Line) -> bool {
    match b {
        crate::merge::Line::Raw(t) => o matches crate::merge::Line::Raw(u) && u@ == t@,
        crate::merge::Line::Rec(r) => o matches crate::merge::Line::Rec(x) && x.id == r.id && x.fields.wf() && forall|k: Seq<char>|
            #[trigger] crate::merge::field_text(x.fields.entries@, k) == if is_req(k) {
                None
            } else {
                crate::merge::field_text(r.fields.entries@, k)
            },
    }
}

/// The compat data holds the fields `compat_field` gives, for the ids
/// `compat_has` gives.
pub open spec fn compat_is(c: Seq<(String, Keyed<String>)>, c0: Seq<(String, Keyed<String>)>, lib: Seq<crate::merge::Line>, i: int) -> bool {
    forall|id: Seq<char>| #![trigger crate::keyed::lookup(c, id)] {
        &&& (crate::keyed::lookup(c, id) is Some) == compat_has(c0, lib, i, id)
        &&& crate::keyed::lookup(c, id) matches Some(f) ==> f.wf() && forall|k: Seq<char>|
            #[trigger] crate::merge::field_text(f.entries@, k) == compat_field(c0, lib, i, id, k)
    }
}

proof fn lemma_lookup_member<T>(e: Seq<(String, T)>, k: Seq<char>)
    ensures
        crate::keyed::lookup(e, k) matches Some(v) ==> exists|j: int| 0 <= j < e.len() && (#[trigger] e[j]).1 == v,
    decreases e.len(),
{
    if e.len() > 0 {
        lemma_lookup_member(e.drop_first(), k);
        if e[0].0@ != k {
            if crate::keyed::lookup(e, k) is Some {
                let v = crate::keyed::lookup(e, k)->0;
                let j = choose|j: int| 0 <= j < e.drop_first().len() && (#[trigger] e.drop_first()[j]).1 == v;
                assert(e[j + 1] == e.drop_first()[j]);
            }
        }
    }
}

proof fn lemma_no_entry_no_field(c0: Seq<(String, Keyed<String>)>, lib: Seq<crate::merge::Line>, i: int, id: Seq<char>, k: Seq<char>)
    requires
        !compat_has(c0, lib, i, id),
    ensures
        compat_field(c0, lib, i, id, k) is None,
    decreases i,
{
    if i > 0 {
        lemma_no_entry_no_field(c0, lib, i - 1, id, k);
    }
}

/// A line moving fields to entry `id` leaves the new entry there, and every
/// other entry as it was.
proof fn lemma_compat_move(
    cb: Seq<(String, Keyed<String>)>,
    ca: Seq<(String, Keyed<String>)>,
    c0: Seq<(String, Keyed<String>)>,
    lib: Seq<crate::merge::Line>,
    i: int,
    id: Seq<char>,
    entry: Keyed<String>,
)
    requires
        0 <= i < lib.len(),
        compat_is(cb, c0, lib, i),
        moves_to(lib[i], id),
        crate::keyed::lookup(ca, id) == Some(entry),
        forall|q: Seq<char>| q != id ==> crate::keyed::lookup(ca, q) == crate::keyed::lookup(cb, q),
        entry.wf(),
        forall|k: Seq<char>| #[trigger] crate::merge::field_text(entry.entries@, k) == match compat_field(c0, lib, i, id, k) {
            Some(v) => Some(v),
            None => if k == "id"@ {
                Some(crate::json::json_quote(id))
            } else if is_req(k) {
                crate::merge::field_text(lib[i]->Rec_0.fields.entries@, k)
            } else {
                None
            },
        },
    ensures
        compat_is(ca, c0, lib, i + 1),
{
    assert forall|q: Seq<char>| #![trigger crate::keyed::lookup(ca, q)] {
        &&& (crate::keyed::lookup(ca, q) is Some) == compat_has(c0, lib, i + 1, q)
        &&& crate::keyed::lookup(ca, q) matches Some(f) ==> f.wf() && forall|k: Seq<char>|
            #[trigger] crate::merge::field_text(f.entries@, k) == compat_field(c0, lib, i + 1, q, k)
    } by {
        if q != id {
            assert(!moves_to(lib[i], q));
            assert(crate::keyed::lookup(ca, q) == crate::keyed::lookup(cb, q));
            assert forall|k: Seq<char>| compat_field(c0, lib, i + 1, q, k) == compat_field(c0, lib, i, q, k) by {}
        } else {
            assert forall|k: Seq<char>| #[trigger] crate::merge::field_text(entry.entries@, k) == compat_field(c0, lib, i + 1, q, k) by {}
        }
    }
}

fn take_absent(entry: &mut Keyed<String>, from: &Keyed<String>, key: &str)
    requires
        old(entry).wf(),
    ensures
        final(entry).wf(),
        forall|q: Seq<char>| #[trigger] crate::merge::field_text(final(entry).entries@, q) == if q == key@ {
            match crate::merge::field_text(old(entry).entries@, q) {
                Some(v) => Some(v),
                None => crate::merge::field_text(from.entries@, q),
            }
        } else {
            crate::merge::field_text(old(entry).entries@, q)
        },
{
    match from.get(key) {
        Some(v) => {
            entry.insert_absent(key.to_string(), v.clone());
        },
        None => {},
    }
}

/// Move the requirement and facet fields (`color`, `mouse`, `maxDepth`,
/// `minOS`, `maxOS`, `minMem`, `minCPU`, `arch`) out of the library's
/// records into the compatibility data: each record loses them; a record
/// with an id and at least one of them adds them to the compat entry of its
/// id (created with its `id` if new), where an existing value wins. Other
/// lines stay. Gives the library lines, the compat entries by id, and the
/// number of records that moved fields and of compat entries.
pub fn split_requirements(lib: &Vec<crate::merge::Line>, compat: Keyed<Keyed<String>>) -> (r: (
    Vec<crate::merge::Line>,
    Keyed<Keyed<String>>,
    SplitReport,
))
    requires
        compat.wf(),
        forall|i: int| 0 <= i < compat.entries@.len() ==> (#[trigger] compat.entries@[i]).1.wf(),
        forall|i: int| 0 <= i < lib@.len() ==> (#[trigger] lib@[i] matches crate::merge::Line::Rec(x) ==> x.fields.wf()),
    ensures
        r.0@.len() == lib@.len(),
        forall|i: int| 0 <= i < lib@.len() ==> split_line(#[trigger] lib@[i], r.0@[i]),
        r.1.wf(),
        compat_is(r.1.entries@, compat.entries@, lib@, lib@.len() as int),
        r.2.moved == moved_upto(lib@, lib@.len() as int),
        r.2.compat_entries == r.1.entries@.len(),
{
    proof {
        lemma_req_keys();
        reveal_strlit("id");
        assert forall|id: Seq<char>| #![trigger crate::keyed::lookup(compat.entries@, id)]
            crate::keyed::lookup(compat.entries@, id) matches Some(f) ==> f.wf() by {
            lemma_lookup_member(compat.entries@, id);
        }
    }
    let ghost c0 = compat.entries@;
    let mut c = compat;
    let mut out: Vec<crate::merge::Line> = Vec::new();
    let mut moved: usize = 0;
    let mut i: usize = 0;
    while i < lib.len()
        invariant
            i <= lib@.len(),
            out@.len() == i,
            c.wf(),
            forall|q: int| 0 <= q < lib@.len() ==> (#[trigger] lib@[q] matches crate::merge::Line::Rec(x) ==> x.fields.wf()),
            forall|q: int| 0 <= q < i ==> split_line(#[trigger] lib@[q], out@[q]),
            compat_is(c.entries@, c0, lib@, i as int),
            moved == moved_upto(lib@, i as int),
            moved <= i,
        decreases lib@.len() - i,
    {
        let ghost cb = c.entries@;
        let l = match &lib[i] {
            crate::merge::Line::Raw(t) => crate::merge::Line::Raw(t.clone()),
            crate::merge::Line::Rec(rec) => {
                let stripped = strip_requirements(&rec.fields);
                let mut any = false;
                let mut q: usize = 0;
                while q < 8
                    invariant
                        q <= 8,
                        any == exists|j: int| 0 <= j < q && (#[trigger] crate::merge::field_text(rec.fields.entries@, req_key(j))) is Some,
                    decreases 8 - q,
                {
                    let nm = req_name(q);
                    let got = rec.fields.get(nm).is_some();
                    if got {
                        any = true;
                    }
                    proof {
                        assert(got == (crate::merge::field_text(rec.fields.entries@, req_key(q as int)) is Some));
                        if got {
                            assert(crate::merge::field_text(rec.fields.entries@, req_key(q as int)) is Some);
                        }
                    }
                    q = q + 1;
                }
                let idn = match &rec.id {
                    Some(s) => if s.as_str().unicode_len() > 0 { Some(s) } else { None },
                    None => None,
                };
                match idn {
                    Some(id) => {
                        if any {
                            let mut entry = match c.get(id.as_str()) {
                                Some(f) => crate::merge::copy_fields(f),
                                None => Keyed::new(),
                            };
                            let ghost e0 = entry.entries@;
                            entry.insert_absent("id".to_string(), crate::json::json_string(id.as_str()));
                            let mut q: usize = 0;
                            while q < 8
                                invariant
                                    q <= 8,
                                    entry.wf(),
                                    forall|k: Seq<char>| #[trigger] crate::merge::field_text(entry.entries@, k) == match crate::merge::field_text(e0, k) {
                                        Some(v) => Some(v),
                                        None => if k == "id"@ {
                                            Some(crate::json::json_quote(id@))
                                        } else if exists|j: int| 0 <= j < q && #[trigger] req_key(j) == k {
                                            crate::merge::field_text(rec.fields.entries@, k)
                                        } else {
                                            None
                                        },
                                    },
                                decreases 8 - q,
                            {
                                take_absent(&mut entry, &rec.fields, req_name(q));
                                q = q + 1;
                            }
                            let ghost ev = entry;
                            proof {
                                assert(moves_to(lib@[i as int], id@));
                                assert forall|k: Seq<char>| #[trigger] crate::merge::field_text(e0, k) == compat_field(c0, lib@, i as int, id@, k) by {
                                    if !compat_has(c0, lib@, i as int, id@) {
                                        lemma_no_entry_no_field(c0, lib@, i as int, id@, k);
                                    }
                                }
                                assert forall|k: Seq<char>| #[trigger] is_req(k) == (exists|j: int| 0 <= j < 8 && #[trigger] req_key(j) == k) by {}
                            }
                            c.insert(id.clone(), entry);
                            moved = moved + 1;
                            proof {
                                lemma_compat_move(cb, c.entries@, c0, lib@, i as int, id@, ev);
                                assert(exists|x: Seq<char>| #[trigger] moves_to(lib@[i as int], x));
                            }
                        }
                    },
                    None => {},
                }
                let cid = match &rec.id {
                    Some(s) => Some(s.clone()),
                    None => None,
                };
                crate::merge::Line::Rec(crate::merge::Record { id: cid, fields: stripped })
            },
        };
        let ghost before = out@;
        out.push(l);
        proof {
            assert forall|q: int| 0 <= q < i + 1 implies split_line(#[trigger] lib@[q], out@[q]) by {
                if q < i {
                    assert(out@[q] == before[q]);
                }
            }
        }
        i = i + 1;
    }
    let n = c.entries.len();
    (out, c, SplitReport { moved, compat_entries: n })
}

} // verus!
