//! The on-Mac catalog: the categories a title is filed under (its kind, its
//! genres, a colour facet, its decade, its vendor, a mouse facet and manual
//! extras, in that priority order), the navigation taxonomy's display order,
//! and the file-safe slugs of category pages.

use crate::keyed::{key_lt, lemma_key_lt_total, lemma_key_lt_trans, lookup, Keyed};
use crate::text::{
    append, chars_of, decimal, decimal_i64, decimal_u64, is_ascii_alnum, lower_ascii, lower_chars, lower_seq, same_str,
    string_from, trim_seq, trim_str, views,
};
use vstd::prelude::*;

verus! {

/// One curated record of the source dataset. Only `id`, `name` and `app` are
/// required; the facet fields drive the categories.
#[derive(Clone, Debug, Default)]
pub struct SourceItem {
    pub id: String,
    pub name: String,
    pub app: String,
    /// "game" (default) | "app" | "utility".
    pub kind: Option<String>,
    pub year: Option<i64>,
    pub vendor: Option<String>,
    /// true → "Color", false → "B&W".
    pub color: Option<bool>,
    /// The deepest colour depth (bits per pixel) the title tolerates.
    pub max_depth: Option<i64>,
    /// true → "Mouse Required", false → "No Mouse".
    pub mouse: Option<bool>,
    pub genre: Vec<String>,
    /// Manual extra categories.
    pub categories: Vec<String>,
    pub desc: Option<String>,
    pub image: Option<String>,
    /// A second artwork (a gameplay screenshot) base path.
    pub shot: Option<String>,
    /// A small list-row icon base path.
    pub icon: Option<String>,
    pub type_: Option<String>,
    pub creator: Option<String>,
    /// Attribution of the metadata and art.
    pub source: Option<String>,
    /// A launch hotkey (one character).
    pub hotkey: Option<String>,
    /// The CD image file name of a CD title.
    pub cd_image: Option<String>,
    /// Whether the CD must mount before launching.
    pub cd_required: Option<bool>,
    /// The expected volume name of the mounted CD.
    pub cd_volume: Option<String>,
    /// The app path on the CD, relative to its root.
    pub cd_app: Option<String>,
}

/// The top-level category of a kind.
pub open spec fn kind_cat(kind: Option<Seq<char>>) -> Seq<char> {
    let k = match kind {
        Some(k) => k,
        None => "game"@,
    };
    if k == "app"@ || k == "application"@ {
        "Applications"@
    } else if k == "utility"@ || k == "util"@ {
        "Utilities"@
    } else {
        "Games"@
    }
}

/// Top-level category for a `kind` value (a game when absent).
pub fn kind_category(kind: Option<&str>) -> (r: &'static str)
    ensures
        r@ == kind_cat(match kind {
            Some(k) => Some(k@),
            None => None,
        }),
{
    proof {
        reveal_strlit("app");
        reveal_strlit("application");
        reveal_strlit("utility");
        reveal_strlit("util");
        reveal_strlit("game");
    }
    let k = match kind {
        Some(k) => k,
        None => "game",
    };
    if same_str(k, "app") || same_str(k, "application") {
        "Applications"
    } else if same_str(k, "utility") || same_str(k, "util") {
        "Utilities"
    } else {
        "Games"
    }
}

/// The year rounded toward zero to its decade.
pub open spec fn decade_of(year: int) -> int {
    if year >= 0 { (year / 10) * 10 } else { -(((-year) / 10) * 10) }
}

/// The decade bucket of a year: 1986 → "1980s", 1996 → "1990s".
pub fn decade_bucket(year: i64) -> (r: String)
    ensures
        r@ == decimal(decade_of(year as int)) + "s"@,
{
    let d: i64 = if year >= 0 {
        (year / 10) * 10
    } else {
        let a: i128 = -(year as i128);
        let m: i128 = (a / 10) * 10;
        (-m) as i64
    };
    let mut s = decimal_i64(d);
    append(&mut s, "s");
    s
}

/// `cats` already has `c`, ASCII case ignored.
pub open spec fn has_ci(cats: Seq<Seq<char>>, c: Seq<char>) -> bool {
    exists|i: int| 0 <= i < cats.len() && lower_seq(#[trigger] cats[i]) == lower_seq(c)
}

/// The categories after offering `cands` in turn: a non-empty one is kept
/// unless an earlier one has the same letters in another ASCII case.
pub open spec fn offer_all(cats: Seq<Seq<char>>, cands: Seq<Seq<char>>) -> Seq<Seq<char>>
    decreases cands.len(),
{
    if cands.len() == 0 {
        cats
    } else {
        let before = offer_all(cats, cands.drop_last());
        let c = cands.last();
        if c.len() > 0 && !has_ci(before, c) { before.push(c) } else { before }
    }
}

proof fn lemma_offer_first(cands: Seq<Seq<char>>)
    requires
        cands.len() >= 1,
        cands[0].len() > 0,
    ensures
        offer_all(Seq::empty(), cands).len() >= 1,
        offer_all(Seq::empty(), cands)[0] == cands[0],
    decreases cands.len(),
{
    if cands.len() == 1 {
        assert(cands.drop_last() =~= Seq::<Seq<char>>::empty());
        assert(!has_ci(Seq::<Seq<char>>::empty(), cands.last()));
    } else {
        let d = cands.drop_last();
        assert(d[0] == cands[0]);
        lemma_offer_first(d);
    }
}

/// The record's kind is `k`.
pub open spec fn kind_is(it: SourceItem, k: Seq<char>) -> bool {
    match it.kind {
        Some(x) => x@ == k,
        None => false,
    }
}

/// A record is filed first under the top-level category of its kind: an
/// `app` (or `application`) under `Applications`, a `utility` (or `util`)
/// under `Utilities`, a `game` or a record with no kind under `Games`.
pub proof fn lemma_kind_leads_categories(it: SourceItem)
    ensures
        offer_all(Seq::empty(), category_candidates(it)).len() >= 1,
        kind_is(it, "app"@) || kind_is(it, "application"@) ==> offer_all(Seq::empty(), category_candidates(it))[0]
            == "Applications"@,
        kind_is(it, "utility"@) || kind_is(it, "util"@) ==> offer_all(Seq::empty(), category_candidates(it))[0]
            == "Utilities"@,
        it.kind is None || kind_is(it, "game"@) ==> offer_all(Seq::empty(), category_candidates(it))[0] == "Games"@,
{
    reveal_strlit("app");
    reveal_strlit("application");
    reveal_strlit("utility");
    reveal_strlit("util");
    reveal_strlit("game");
    reveal_strlit("Applications");
    reveal_strlit("Utilities");
    reveal_strlit("Games");
    assert("app"@.len() == 3 && "application"@.len() == 11 && "utility"@.len() == 7);
    assert("util"@.len() == 4 && "game"@.len() == 4 && "game"@[0] == 'g' && "util"@[0] == 'u');
    assert("app"@ != "utility"@ && "application"@ != "utility"@ && "app"@ != "util"@ && "application"@ != "util"@);
    assert("app"@ != "game"@ && "application"@ != "game"@ && "utility"@ != "game"@ && "util"@ != "game"@);
    let c = category_candidates(it);
    let k = kind_cat(match it.kind {
        Some(x) => Some(x@),
        None => None,
    });
    assert(c[0] == k);
    assert(k.len() > 0);
    lemma_offer_first(c);
}

/// The texts of a list, trimmed.
pub open spec fn trimmed_all(v: Seq<String>) -> Seq<Seq<char>> {
    v.map_values(|s: String| trim_seq(s@))
}

/// A one-element list, or none.
pub open spec fn opt_one(o: Option<Seq<char>>) -> Seq<Seq<char>> {
    match o {
        Some(x) => seq![x],
        None => Seq::empty(),
    }
}

/// The colour facet: an explicit colour wins; else a title before 1987 is
/// B&W (the Mac was 1-bit until the Mac II).
pub open spec fn color_cat(f: SourceItem) -> Option<Seq<char>> {
    let color = match f.color {
        Some(c) => Some(c),
        None => match f.year {
            Some(y) => if y < 1987 { Some(false) } else { None },
            None => None,
        },
    };
    match color {
        Some(c) => Some(if c { "Color"@ } else { "B&W"@ }),
        None => None,
    }
}

/// The candidate categories of a record, in display priority order.
pub open spec fn category_candidates(f: SourceItem) -> Seq<Seq<char>> {
    seq![kind_cat(match f.kind {
        Some(k) => Some(k@),
        None => None,
    })] + trimmed_all(f.genre@) + opt_one(color_cat(f)) + opt_one(match f.year {
        Some(y) => Some(decimal(decade_of(y as int)) + "s"@),
        None => None,
    }) + opt_one(match f.vendor {
        Some(v) => Some(trim_seq(v@)),
        None => None,
    }) + opt_one(match f.mouse {
        Some(m) => Some(if m { "Mouse Required"@ } else { "No Mouse"@ }),
        None => None,
    }) + trimmed_all(f.categories@)
}

fn has_ci_exec(cats: &Vec<String>, c: &str) -> (r: bool)
    ensures
        r == has_ci(views(cats@), c@),
{
    let lc = lower_chars(c);
    let mut i: usize = 0;
    while i < cats.len()
        invariant
            i <= cats@.len(),
            lc@ == lower_seq(c@),
            forall|j: int| 0 <= j < i ==> lower_seq(#[trigger] views(cats@)[j]) != lower_seq(c@),
        decreases cats@.len() - i,
    {
        let le = lower_chars(cats[i].as_str());
        if crate::text::seq_eq(le.as_slice(), lc.as_slice()) {
            assert(views(cats@)[i as int] == cats@[i as int]@);
            return true;
        }
        i = i + 1;
    }
    false
}

fn offer(cats: &mut Vec<String>, c: String)
    ensures
        views(final(cats)@) == if c@.len() > 0 && !has_ci(views(old(cats)@), c@) {
            views(old(cats)@).push(c@)
        } else {
            views(old(cats)@)
        },
{
    let n = chars_of(c.as_str()).len();
    if n > 0 && !has_ci_exec(cats, c.as_str()) {
        cats.push(c);
        assert(views(cats@) =~= views(old(cats)@).push(c@));
    }
}

/// The categories a record is filed under, in display priority order,
/// repeats (ASCII case ignored) and empty names dropped, the first spelling
/// kept.
pub fn derive_categories(it: &SourceItem) -> (r: Vec<String>)
    ensures
        views(r@) == offer_all(Seq::empty(), category_candidates(*it)),
{
    let mut cands: Vec<String> = Vec::new();
    let k = match &it.kind {
        Some(k) => Some(k.as_str()),
        None => None,
    };
    cands.push(kind_category(k).to_owned());
    let mut i: usize = 0;
    while i < it.genre.len()
        invariant
            i <= it.genre@.len(),
            views(cands@) == seq![kind_cat(match it.kind {
                Some(k) => Some(k@),
                None => None,
            })] + trimmed_all(it.genre@.take(i as int)),
        decreases it.genre@.len() - i,
    {
        let ghost b0 = cands@;
        let t = trim_str(it.genre[i].as_str());
        proof {
            crate::text::lemma_views_push(b0, t);
        }
        cands.push(t);
        i = i + 1;
        proof {
            assert(trimmed_all(it.genre@.take(i as int)) =~= trimmed_all(it.genre@.take(i - 1)).push(trim_seq(it.genre@[i - 1]@)));
            assert(views(cands@) =~= seq![kind_cat(match it.kind {
                Some(k) => Some(k@),
                None => None,
            })] + trimmed_all(it.genre@.take(i as int)));
        }
    }
    assert(it.genre@.take(i as int) =~= it.genre@);
    let ghost c1 = views(cands@);
    let color = match it.color {
        Some(c) => Some(c),
        None => match it.year {
            Some(y) => if y < 1987 { Some(false) } else { None },
            None => None,
        },
    };
    match color {
        Some(c) => cands.push(if c { "Color".to_owned() } else { "B&W".to_owned() }),
        None => {},
    }
    assert(views(cands@) =~= c1 + opt_one(color_cat(*it)));
    let ghost c2 = views(cands@);
    match it.year {
        Some(y) => cands.push(decade_bucket(y)),
        None => {},
    }
    let ghost c3 = views(cands@);
    assert(c3 =~= c2 + opt_one(match it.year {
        Some(y) => Some(decimal(decade_of(y as int)) + "s"@),
        None => None,
    }));
    match &it.vendor {
        Some(v) => cands.push(trim_str(v.as_str())),
        None => {},
    }
    let ghost c4 = views(cands@);
    assert(c4 =~= c3 + opt_one(match it.vendor {
        Some(v) => Some(trim_seq(v@)),
        None => None,
    }));
    match it.mouse {
        Some(m) => cands.push(if m { "Mouse Required".to_owned() } else { "No Mouse".to_owned() }),
        None => {},
    }
    let ghost c5 = views(cands@);
    assert(c5 =~= c4 + opt_one(match it.mouse {
        Some(m) => Some(if m { "Mouse Required"@ } else { "No Mouse"@ }),
        None => None,
    }));
    let mut j: usize = 0;
    while j < it.categories.len()
        invariant
            j <= it.categories@.len(),
            views(cands@) == c5 + trimmed_all(it.categories@.take(j as int)),
        decreases it.categories@.len() - j,
    {
        let ghost b0 = cands@;
        let t = trim_str(it.categories[j].as_str());
        proof {
            crate::text::lemma_views_push(b0, t);
        }
        cands.push(t);
        j = j + 1;
        proof {
            assert(trimmed_all(it.categories@.take(j as int)) =~= trimmed_all(it.categories@.take(j - 1)).push(
                trim_seq(it.categories@[j - 1]@),
            ));
            assert(views(cands@) =~= c5 + trimmed_all(it.categories@.take(j as int)));
        }
    }
    assert(it.categories@.take(j as int) =~= it.categories@);
    assert(views(cands@) =~= category_candidates(*it));
    let ghost all = views(cands@);
    let mut cats: Vec<String> = Vec::new();
    let mut k: usize = 0;
    assert(views(cats@) =~= offer_all(Seq::empty(), all.take(0)));
    while k < cands.len()
        invariant
            k <= cands@.len(),
            all == views(cands@),
            views(cats@) == offer_all(Seq::empty(), all.take(k as int)),
        decreases cands@.len() - k,
    {
        proof {
            assert(all.take(k + 1).drop_last() =~= all.take(k as int));
            assert(all.take(k + 1).last() == cands@[k as int]@);
        }
        offer(&mut cats, cands[k].clone());
        k = k + 1;
    }
    proof {
        assert(all.take(k as int) =~= all);
    }
    cats
}

/// Outcome of a catalog generation run.
#[derive(Clone, Debug)]
pub struct Report {
    pub items: usize,
    /// Category name → item count.
    pub categories: Keyed<usize>,
    pub warnings: Vec<String>,
    pub lossy_chars: usize,
    pub bytes: usize,
}

/// Outcome of a paged catalog generation run.
#[derive(Debug)]
pub struct PagedReport {
    pub categories: usize,
    pub pages: usize,
    pub items: usize,
    pub hotkeys: usize,
    /// The largest single page produced.
    pub biggest_page: (String, usize),
    pub warnings: Vec<String>,
}

/// The navigation taxonomy: the category list in display order, plus the
/// seed maps the category database is bootstrapped from.
#[derive(Clone, Debug)]
pub struct Taxonomy {
    /// Categories in display order; the first is the landing view.
    pub order: Vec<String>,
    pub default: String,
    /// Bucket for a game in no genre category.
    pub catch_all_game: String,
    /// kind → category.
    pub kind_map: Keyed<String>,
    /// raw genre → category.
    pub genre_map: Keyed<String>,
    /// Curated Recommended seed (ids).
    pub recommended: Vec<String>,
    /// Per-id extra category seeds.
    pub adds: Keyed<Vec<String>>,
}

/// The display rank of a category: its first place in `order`, or past
/// every place where it is not listed.
pub open spec fn rank_in(order: Seq<String>, c: Seq<char>) -> int
    decreases order.len(),
{
    if order.len() == 0 {
        usize::MAX as int
    } else {
        let r = rank_in(order.drop_last(), c);
        if r < order.len() - 1 {
            r
        } else if order.last()@ == c {
            order.len() - 1
        } else {
            usize::MAX as int
        }
    }
}

/// `a` comes before `b` in display order: a lower rank, else alphabetically.
pub open spec fn display_lt(order: Seq<String>, a: Seq<char>, b: Seq<char>) -> bool {
    rank_in(order, a) < rank_in(order, b) || (rank_in(order, a) == rank_in(order, b) && key_lt(a, b))
}

pub proof fn lemma_display_order(order: Seq<String>, a: Seq<char>, b: Seq<char>, c: Seq<char>)
    ensures
        display_lt(order, a, b) && display_lt(order, b, c) ==> display_lt(order, a, c),
        display_lt(order, a, b) || display_lt(order, b, a) || a == b,
        !display_lt(order, a, a),
        display_lt(order, a, b) ==> !display_lt(order, b, a),
{
    lemma_key_lt_total(a, b);
    lemma_key_lt_total(a, a);
    if key_lt(a, b) && key_lt(b, c) {
        lemma_key_lt_trans(a, b, c);
    }
}

fn rank_exec(order: &Vec<String>, c: &str) -> (r: usize)
    ensures
        r == rank_in(order@, c@),
{
    let mut i: usize = 0;
    while i < order.len()
        invariant
            i <= order@.len(),
            rank_in(order@.take(i as int), c@) == usize::MAX,
        decreases order@.len() - i,
    {
        proof {
            assert(order@.take(i + 1).drop_last() =~= order@.take(i as int));
        }
        if same_str(order[i].as_str(), c) {
            proof {
                assert(order@.take(i + 1).last() == order@[i as int]);
                assert(rank_in(order@.take(i + 1), c@) == i);
                lemma_rank_prefix(order@, i + 1, i as int, c@);
            }
            return i;
        }
        i = i + 1;
    }
    proof {
        assert(order@.take(i as int) =~= order@);
    }
    usize::MAX
}

proof fn lemma_rank_prefix(order: Seq<String>, n: int, m: int, c: Seq<char>)
    requires
        0 <= m < n <= order.len(),
        rank_in(order.take(n), c) == m,
    ensures
        rank_in(order, c) == m,
    decreases order.len() - n,
{
    if n < order.len() {
        assert(order.take(n + 1).drop_last() =~= order.take(n));
        assert(order.take(n + 1).len() == n + 1);
        lemma_rank_prefix(order, n + 1, m, c);
    } else {
        assert(order.take(n) =~= order);
    }
}

/// Whether `a` comes before `b` in display order.
pub fn display_before(order: &Vec<String>, a: &str, b: &str) -> (r: bool)
    ensures
        r == display_lt(order@, a@, b@),
{
    let ra = rank_exec(order, a);
    let rb = rank_exec(order, b);
    ra < rb || (ra == rb && crate::keyed::string_lt(a, b))
}

/// `v` is in display order without repeats.
pub open spec fn displayed(order: Seq<String>, v: Seq<Seq<char>>) -> bool {
    forall|i: int, j: int| 0 <= i < j < v.len() ==> display_lt(order, #[trigger] v[i], #[trigger] v[j])
}

impl Taxonomy {
    /// Sort a title's categories into display order (categories not in
    /// `order` follow, alphabetically) and drop repeats; nothing else is
    /// dropped.
    pub fn order_cats(&self, cats: &mut Vec<String>)
        ensures
            displayed(self.order@, views(final(cats)@)),
            forall|c: Seq<char>| #[trigger] views(old(cats)@).contains(c) <==> views(final(cats)@).contains(c),
    {
        let mut out: Vec<String> = Vec::new();
        let mut i: usize = 0;
        while i < cats.len()
            invariant
                i <= cats@.len(),
                displayed(self.order@, views(out@)),
                forall|c: Seq<char>| #[trigger] views(out@).contains(c) <==> views(cats@.take(i as int)).contains(c),
            decreases cats@.len() - i,
        {
            let c = cats[i].as_str();
            // the place of `c`: after every entry that comes before it
            let mut p: usize = 0;
            let ghost o = views(out@);
            while p < out.len() && display_before(&self.order, out[p].as_str(), c)
                invariant
                    p <= out@.len(),
                    o == views(out@),
                    forall|j: int| 0 <= j < p ==> display_lt(self.order@, #[trigger] o[j], c@),
                decreases out@.len() - p,
            {
                p = p + 1;
            }
            let present = p < out.len() && same_str(out[p].as_str(), c);
            let ghost before = views(out@);
            if !present {
                out.insert(p, cats[i].clone());
                proof {
                    let now = views(out@);
                    assert(now =~= before.take(p as int).push(c@) + before.skip(p as int));
                    assert forall|a: int, b: int| 0 <= a < b < now.len() implies display_lt(self.order@, #[trigger] now[a], #[trigger] now[b]) by {
                        if p < before.len() {
                            lemma_display_order(self.order@, before[p as int], c@, before[p as int]);
                        }
                        if a < p && b == p {
                        } else if a == p && b > p {
                            lemma_display_order(self.order@, c@, before[p as int], before[b - 1]);
                            if b - 1 > p {
                                assert(display_lt(self.order@, before[p as int], before[b - 1]));
                            }
                        } else if a < p && b > p {
                            assert(display_lt(self.order@, before[a], before[b - 1]));
                        } else if b < p {
                        } else {
                            assert(display_lt(self.order@, before[a - 1], before[b - 1]));
                        }
                    }
                }
            }
            proof {
                let now = views(out@);
                let t1 = views(cats@.take(i + 1));
                assert(t1 =~= views(cats@.take(i as int)).push(c@));
                assert forall|x: Seq<char>| #[trigger] now.contains(x) <==> t1.contains(x) by {
                    if now.contains(x) {
                        let w = choose|w: int| 0 <= w < now.len() && now[w] == x;
                        if !present {
                            if w < p {
                                assert(before[w] == x);
                            } else if w > p {
                                assert(before[w - 1] == x);
                            }
                        } else {
                            assert(before[w] == x);
                        }
                        if x != c@ {
                            assert(before.contains(x));
                            let v = choose|v: int| 0 <= v < views(cats@.take(i as int)).len() && views(cats@.take(i as int))[v] == x;
                            assert(t1[v] == x);
                        } else {
                            assert(t1[i as int] == x);
                        }
                    }
                    if t1.contains(x) {
                        let v = choose|v: int| 0 <= v < t1.len() && t1[v] == x;
                        if v < i {
                            assert(views(cats@.take(i as int))[v] == x);
                            assert(before.contains(x));
                            let w = choose|w: int| 0 <= w < before.len() && before[w] == x;
                            if !present {
                                if w < p {
                                    assert(now[w] == x);
                                } else {
                                    assert(now[w + 1] == x);
                                }
                            } else {
                                assert(now[w] == x);
                            }
                        } else {
                            if !present {
                                assert(now[p as int] == x);
                            } else {
                                assert(now[p as int] == x);
                            }
                        }
                    }
                }
            }
            i = i + 1;
        }
        proof {
            assert(cats@.take(i as int) =~= cats@);
        }
        *cats = out;
    }
}

/// Recommendation-style categories keep dataset order; every other sorts
/// alphabetically.
pub fn is_list_ordered(name: &str) -> (r: bool)
    ensures
        r == (lower_seq(name@) == lower_seq("Recommended"@) || lower_seq(name@) == lower_seq("Staff Picks"@)),
{
    let l = lower_chars(name);
    let a = lower_chars("Recommended");
    let b = lower_chars("Staff Picks");
    crate::text::seq_eq(l.as_slice(), a.as_slice()) || crate::text::seq_eq(l.as_slice(), b.as_slice())
}

/// The slug built so far: lowercased ASCII letters and digits; any other
/// run of characters after the first kept one becomes a single `-`.
pub open spec fn cat_slug_acc(s: Seq<char>) -> Seq<char>
    decreases s.len(),
{
    if s.len() == 0 {
        Seq::empty()
    } else {
        let o = cat_slug_acc(s.drop_last());
        let c = s.last();
        if is_ascii_alnum(c) {
            o.push(lower_ascii(c))
        } else if o.len() > 0 && o.last() != '-' {
            o.push('-')
        } else {
            o
        }
    }
}

/// `s` without trailing `-`.
pub open spec fn trim_end_dashes(s: Seq<char>) -> Seq<char>
    decreases s.len(),
{
    if s.len() > 0 && s.last() == '-' { trim_end_dashes(s.drop_last()) } else { s }
}

/// `s` without leading `-`.
pub open spec fn trim_start_dashes(s: Seq<char>) -> Seq<char>
    decreases s.len(),
{
    if s.len() > 0 && s[0] == '-' { trim_start_dashes(s.drop_first()) } else { s }
}

/// The file-safe slug of a category name: lowercase ASCII letters and
/// digits, other runs as one `-`, no dash at either end, at most 24
/// characters (so `<slug>.jsonl` fits HFS's 31), `cat` when nothing is left.
pub open spec fn cat_slug(name: Seq<char>) -> Seq<char> {
    let s = trim_end_dashes(trim_start_dashes(cat_slug_acc(name)));
    let s2 = if s.len() > 24 { trim_end_dashes(s.take(24)) } else { s };
    if s2.len() == 0 { "cat"@ } else { s2 }
}

fn trim_end_dashes_vec(v: &mut Vec<char>)
    ensures
        final(v)@ == trim_end_dashes(old(v)@),
{
    while v.len() > 0 && v[v.len() - 1] == '-'
        invariant
            trim_end_dashes(v@) == trim_end_dashes(old(v)@),
        decreases v@.len(),
    {
        let ghost before = v@;
        v.pop();
        assert(v@ =~= before.drop_last());
    }
}

/// A file-safe, MacRoman-safe slug for a category name.
pub fn slugify(name: &str) -> (r: String)
    ensures
        r@ == cat_slug(name@),
{
    let cs = chars_of(name);
    let mut s: Vec<char> = Vec::new();
    let mut i: usize = 0;
    while i < cs.len()
        invariant
            i <= cs@.len(),
            cs@ == name@,
            s@ == cat_slug_acc(cs@.take(i as int)),
        decreases cs@.len() - i,
    {
        assert(cs@.take(i + 1).drop_last() =~= cs@.take(i as int));
        let c = cs[i];
        if crate::text::alnum(c) {
            s.push(crate::text::lower_char(c));
        } else if s.len() > 0 && s[s.len() - 1] != '-' {
            s.push('-');
        }
        i = i + 1;
    }
    assert(cs@.take(i as int) =~= cs@);
    let ghost acc = s@;
    let mut lo: usize = 0;
    assert(acc.skip(0) =~= acc);
    while lo < s.len() && s[lo] == '-'
        invariant
            lo <= s@.len(),
            s@ == acc,
            trim_start_dashes(acc) == trim_start_dashes(acc.skip(lo as int)),
        decreases s@.len() - lo,
    {
        assert(acc.skip(lo as int).drop_first() =~= acc.skip(lo + 1));
        lo = lo + 1;
    }
    assert(acc.skip(0) =~= acc);
    let mut t: Vec<char> = Vec::new();
    let mut k: usize = lo;
    while k < s.len()
        invariant
            lo <= k <= s@.len(),
            s@ == acc,
            t@ == acc.subrange(lo as int, k as int),
        decreases s@.len() - k,
    {
        t.push(s[k]);
        k = k + 1;
        assert(t@ =~= acc.subrange(lo as int, k as int));
    }
    proof {
        assert(acc.skip(lo as int) =~= acc.subrange(lo as int, acc.len() as int));
        if lo < acc.len() {
        }
        lemma_start_trimmed(acc, lo as int);
    }
    trim_end_dashes_vec(&mut t);
    if t.len() > 24 {
        t.truncate(24);
        trim_end_dashes_vec(&mut t);
    }
    if t.len() == 0 {
        proof {
            reveal_strlit("cat");
        }
        "cat".to_owned()
    } else {
        string_from(t.as_slice())
    }
}

proof fn lemma_start_trimmed(acc: Seq<char>, lo: int)
    requires
        0 <= lo <= acc.len(),
        trim_start_dashes(acc) == trim_start_dashes(acc.skip(lo)),
        lo == acc.len() || acc[lo] != '-',
    ensures
        trim_start_dashes(acc) == acc.skip(lo),
{
}

/// A character a category file name may hold: a lowercase ASCII letter, a
/// digit or `-`.
pub open spec fn slug_char(c: char) -> bool {
    ('a' <= c <= 'z') || ('0' <= c <= '9') || c == '-'
}

proof fn lemma_acc_chars(s: Seq<char>)
    ensures
        forall|i: int| 0 <= i < cat_slug_acc(s).len() ==> slug_char(#[trigger] cat_slug_acc(s)[i]),
    decreases s.len(),
{
    if s.len() > 0 {
        lemma_acc_chars(s.drop_last());
        let c = s.last();
        if is_ascii_alnum(c) {
            let l = lower_ascii(c);
            if 'A' <= c && c <= 'Z' {
                assert(l == ((c as u32) + 32) as char);
                assert('a' <= l && l <= 'z');
            }
            assert(slug_char(l));
        }
        let o = cat_slug_acc(s.drop_last());
        assert forall|i: int| 0 <= i < cat_slug_acc(s).len() implies slug_char(#[trigger] cat_slug_acc(s)[i]) by {
            if i < o.len() {
                assert(cat_slug_acc(s)[i] == o[i]);
            }
        }
    }
}

proof fn lemma_trim_end_chars(s: Seq<char>)
    ensures
        trim_end_dashes(s).len() <= s.len(),
        forall|i: int| 0 <= i < trim_end_dashes(s).len() ==> #[trigger] trim_end_dashes(s)[i] == s[i],
        trim_end_dashes(s).len() > 0 ==> trim_end_dashes(s).last() != '-',
    decreases s.len(),
{
    if s.len() > 0 && s.last() == '-' {
        lemma_trim_end_chars(s.drop_last());
    }
}

proof fn lemma_trim_start_chars(s: Seq<char>)
    ensures
        trim_start_dashes(s).len() <= s.len(),
        forall|i: int| 0 <= i < trim_start_dashes(s).len() ==> #[trigger] trim_start_dashes(s)[i] == s[i + s.len() - trim_start_dashes(s).len()],
        trim_start_dashes(s).len() > 0 ==> trim_start_dashes(s)[0] != '-',
    decreases s.len(),
{
    if s.len() > 0 && s[0] == '-' {
        lemma_trim_start_chars(s.drop_first());
    }
}

/// A category slug is a safe file name: at most 24 characters of lowercase
/// ASCII letters, digits and `-`, never empty, never starting or ending with
/// `-`.
pub proof fn lemma_slug_is_file_safe(name: Seq<char>)
    ensures
        1 <= cat_slug(name).len() <= 24,
        forall|i: int| 0 <= i < cat_slug(name).len() ==> slug_char(#[trigger] cat_slug(name)[i]),
        cat_slug(name)[0] != '-',
        cat_slug(name).last() != '-',
{
    let a = cat_slug_acc(name);
    lemma_acc_chars(name);
    lemma_trim_start_chars(a);
    let b = trim_start_dashes(a);
    lemma_trim_end_chars(b);
    let c = trim_end_dashes(b);
    assert forall|i: int| 0 <= i < c.len() implies slug_char(#[trigger] c[i]) by {
        assert(c[i] == b[i]);
        assert(b[i] == a[i + a.len() - b.len()]);
    }
    if c.len() > 0 {
        assert(c[0] == b[0]);
    }
    if c.len() > 24 {
        let t = c.take(24);
        lemma_trim_end_chars(t);
        let d = trim_end_dashes(t);
        assert forall|i: int| 0 <= i < d.len() implies slug_char(#[trigger] d[i]) by {
            assert(d[i] == t[i]);
        }
        if d.len() > 0 {
            assert(d[0] == c[0]);
        }
    }
    reveal_strlit("cat");
}

} // verus!

verus! {

// ---- compiling the source dataset ---------------------------------------------

/// The most items the on-device reader takes in a single-file catalog.
pub const MAX_ITEMS: usize = 256;

/// The most items on one category page of a paged catalog.
pub const MAX_CAT_ITEMS: usize = 128;

/// The most categories one item carries on the device.
pub const MAX_ITEM_CATS: usize = 8;

/// The most distinct named categories the device holds.
pub const MAX_CATS: usize = 64;

/// One compiled on-Mac record.
#[derive(Clone, Debug)]
pub struct OutItem {
    pub id: String,
    pub name: String,
    pub categories: Vec<String>,
    pub app: String,
    pub year: Option<i64>,
    /// Developer or publisher, for display.
    pub vendor: Option<String>,
    /// The genres joined for display ("Action, Platformer").
    pub genre: Option<String>,
    pub type_: Option<String>,
    pub creator: Option<String>,
    pub desc: Option<String>,
    pub image: Option<String>,
    pub shot: Option<String>,
    /// The single-character launch hotkey.
    pub hotkey: Option<String>,
    pub icon: Option<String>,
    pub source: Option<String>,
    pub max_depth: Option<i64>,
    pub cd_image: Option<String>,
    pub cd_required: Option<bool>,
    pub cd_volume: Option<String>,
    pub cd_app: Option<String>,
}

/// The text of an optional string.
pub open spec fn text_of(o: Option<String>) -> Option<Seq<char>> {
    match o {
        Some(s) => Some(s@),
        None => None,
    }
}

/// The lines of a source dataset that hold records: trimmed, numbered from 1,
/// blank lines and comments (`#` or `//`) left out. `k` is the number of
/// lines looked at.
pub open spec fn record_lines_upto(lines: Seq<Seq<char>>, k: int) -> Seq<(int, Seq<char>)>
    decreases k,
{
    if k <= 0 {
        Seq::empty()
    } else {
        let before = record_lines_upto(lines, k - 1);
        let t = trim_seq(lines[k - 1]);
        if t.len() == 0 || t[0] == '#' || (t.len() >= 2 && t[0] == '/' && t[1] == '/') {
            before
        } else {
            before.push((k, t))
        }
    }
}

/// The record lines of a source dataset.
pub open spec fn record_lines_of(text: Seq<char>) -> Seq<(int, Seq<char>)> {
    let ls = crate::text::lines_seq(text);
    record_lines_upto(ls, ls.len() as int)
}

/// `m` if `b`, else nothing.
pub open spec fn when(b: bool, m: Seq<char>) -> Seq<Seq<char>> {
    if b { seq![m] } else { Seq::empty() }
}

/// An optional text longer than `max` characters.
pub open spec fn longer(o: Option<String>, max: int) -> bool {
    match o {
        Some(v) => v@.len() > max,
        None => false,
    }
}

/// The warnings on the required fields longer than the device's buffers.
pub open spec fn required_length_warnings(it: SourceItem) -> Seq<Seq<char>> {
    when(it.id@.len() > 47, "id longer than 47 chars"@) + when(it.name@.len() > 63, "name longer than 63 chars"@)
        + when(it.app@.len() > 191, "app path longer than 191 chars"@)
}

/// The warnings on the CD fields longer than the device's buffers.
pub open spec fn cd_length_warnings(it: SourceItem) -> Seq<Seq<char>> {
    when(longer(it.cd_image, 63), "cdImage longer than 63 chars (will truncate on device)"@) + when(
        longer(it.cd_volume, 27),
        "cdVolume longer than 27 chars (will truncate on device)"@,
    ) + when(longer(it.cd_app, 127), "cdApp longer than 127 chars (will truncate on device)"@)
}

/// The warnings on the description and vendor longer than the device's buffers.
pub open spec fn text_length_warnings(it: SourceItem) -> Seq<Seq<char>> {
    when(longer(it.desc, 255), "desc longer than 255 chars (will truncate on device)"@) + when(
        longer(it.vendor, 39),
        "vendor longer than 39 chars (will truncate on device)"@,
    )
}

/// The warnings on fields longer than the device's buffers, in field order.
pub open spec fn length_warnings(it: SourceItem) -> Seq<Seq<char>> {
    required_length_warnings(it) + cd_length_warnings(it) + text_length_warnings(it)
}

/// The line of the last record before the `k`-th with the id `id`.
pub open spec fn prev_id_line(recs: Seq<(usize, SourceItem)>, k: int, id: Seq<char>) -> Option<int>
    decreases k,
{
    if k <= 0 {
        None
    } else if recs[k - 1].1.id@ == id {
        Some(recs[k - 1].0 as int)
    } else {
        prev_id_line(recs, k - 1, id)
    }
}

/// The categories of a record as derived, before the device's cap.
pub open spec fn derived_cats(it: SourceItem) -> Seq<Seq<char>> {
    offer_all(Seq::empty(), category_candidates(it))
}

/// The categories a record keeps: at most the device's eight.
pub open spec fn kept_cats(it: SourceItem) -> Seq<Seq<char>> {
    let c = derived_cats(it);
    if c.len() > 8 { c.take(8) } else { c }
}

/// The warnings on category names longer than 31 characters.
pub open spec fn long_cat_warnings(cats: Seq<Seq<char>>) -> Seq<Seq<char>>
    decreases cats.len(),
{
    if cats.len() == 0 {
        Seq::empty()
    } else {
        long_cat_warnings(cats.drop_last()) + when(
            cats.last().len() > 31,
            "category \""@ + cats.last() + "\" longer than 31 chars"@,
        )
    }
}

/// What `{:?}` writes for a list of strings.
pub uninterp spec fn debug_strings(v: Seq<Seq<char>>) -> Seq<char>;

/// The warning on a record with more categories than the device keeps.
pub open spec fn clamp_warnings(cats: Seq<Seq<char>>) -> Seq<Seq<char>> {
    when(
        cats.len() > 8,
        decimal(cats.len() as int) + " categories exceeds device max 8; dropping "@ + debug_strings(cats.skip(8)),
    )
}

/// The non-empty trimmed texts of `v`, in order.
pub open spec fn nonempty_trimmed(v: Seq<String>) -> Seq<Seq<char>>
    decreases v.len(),
{
    if v.len() == 0 {
        Seq::empty()
    } else {
        let before = nonempty_trimmed(v.drop_last());
        let t = trim_seq(v.last()@);
        if t.len() > 0 { before.push(t) } else { before }
    }
}

/// The display vendor: trimmed, none when empty.
pub open spec fn vendor_of(it: SourceItem) -> Option<Seq<char>> {
    match it.vendor {
        Some(v) => if trim_seq(v@).len() > 0 { Some(trim_seq(v@)) } else { None },
        None => None,
    }
}

/// The display genre: the non-empty genres joined with ", ", none when there
/// are none.
pub open spec fn genre_of(it: SourceItem) -> Option<Seq<char>> {
    let g = nonempty_trimmed(it.genre@);
    if g.len() == 0 { None } else { Some(crate::text::join_with(g, ", "@)) }
}

/// The trimmed hotkey text, none when absent or blank.
pub open spec fn hotkey_text(it: SourceItem) -> Option<Seq<char>> {
    match it.hotkey {
        Some(h) => if trim_seq(h@).len() > 0 { Some(trim_seq(h@)) } else { None },
        None => None,
    }
}

/// A printable, non-space ASCII character.
pub open spec fn is_graphic(c: char) -> bool {
    '!' <= c <= '~'
}

/// The hotkey a record launches with: the first character of its hotkey
/// text, when that is a printable ASCII key.
pub open spec fn accepted_key(it: SourceItem) -> Option<char> {
    match hotkey_text(it) {
        Some(t) => if is_graphic(t[0]) { Some(t[0]) } else { None },
        None => None,
    }
}

/// The line of the last record before the `k`-th whose hotkey is `lower`,
/// ASCII case ignored.
pub open spec fn prev_key_line(recs: Seq<(usize, SourceItem)>, k: int, lower: char) -> Option<int>
    decreases k,
{
    if k <= 0 {
        None
    } else {
        match accepted_key(recs[k - 1].1) {
            Some(f) => if lower_ascii(f) == lower {
                Some(recs[k - 1].0 as int)
            } else {
                prev_key_line(recs, k - 1, lower)
            },
            None => prev_key_line(recs, k - 1, lower),
        }
    }
}

/// The warnings on the `k`-th record's hotkey: more than one character (the
/// first is used), not a printable ASCII key (ignored), or already taken by
/// an earlier record.
pub open spec fn hotkey_warnings(recs: Seq<(usize, SourceItem)>, k: int) -> Seq<Seq<char>> {
    match hotkey_text(recs[k].1) {
        None => Seq::empty(),
        Some(t) => {
            let f = t[0];
            when(t.len() > 1, "hotkey \""@ + t + "\" longer than 1 char; using '"@ + seq![f] + "'"@) + if !is_graphic(
                f,
            ) {
                seq!["hotkey '"@ + seq![f] + "' is not a printable ASCII key; ignored"@]
            } else {
                match prev_key_line(recs, k, lower_ascii(f)) {
                    Some(p) => seq!["hotkey '"@ + seq![f] + "' already used on line "@ + decimal(p)],
                    None => Seq::empty(),
                }
            }
        },
    }
}

/// The warnings about the `k`-th record, before their line prefix.
pub open spec fn record_warnings(recs: Seq<(usize, SourceItem)>, k: int) -> Seq<Seq<char>> {
    let it = recs[k].1;
    length_warnings(it) + match prev_id_line(recs, k, it.id@) {
        Some(p) => seq!["duplicate id (also on line "@ + decimal(p) + ")"@],
        None => Seq::empty(),
    } + long_cat_warnings(derived_cats(it)) + clamp_warnings(derived_cats(it)) + match genre_of(it) {
        Some(g) => when(g.len() > 63, "genre longer than 63 chars (will truncate on device)"@),
        None => Seq::empty(),
    } + hotkey_warnings(recs, k)
}

/// Each message with `p` before it.
pub open spec fn prefixed(p: Seq<char>, ms: Seq<Seq<char>>) -> Seq<Seq<char>> {
    Seq::new(ms.len(), |i: int| p + ms[i])
}

/// The prefix naming a record's line and id.
pub open spec fn line_prefix(ln: int, id: Seq<char>) -> Seq<char> {
    "line "@ + decimal(ln) + " ("@ + id + "): "@
}

/// The warnings about the first `k` records, in order.
pub open spec fn warnings_upto(recs: Seq<(usize, SourceItem)>, k: int) -> Seq<Seq<char>>
    decreases k,
{
    if k <= 0 {
        Seq::empty()
    } else {
        warnings_upto(recs, k - 1) + prefixed(
            line_prefix(recs[k - 1].0 as int, recs[k - 1].1.id@),
            record_warnings(recs, k - 1),
        )
    }
}

/// How many of the first `k` records keep category `c`.
pub open spec fn cat_count(recs: Seq<(usize, SourceItem)>, k: int, c: Seq<char>) -> int
    decreases k,
{
    if k <= 0 {
        0
    } else {
        cat_count(recs, k - 1, c) + if kept_cats(recs[k - 1].1).contains(c) { 1int } else { 0 }
    }
}

/// The source attribution as the device takes it: at most 39 characters.
pub open spec fn source_of(it: SourceItem) -> Option<Seq<char>> {
    match it.source {
        Some(s) => Some(if s@.len() > 39 { s@.take(39) } else { s@ }),
        None => None,
    }
}

/// `o` is the compiled record of `it`.
pub open spec fn compiled(o: OutItem, it: SourceItem) -> bool {
    &&& o.id == it.id
    &&& o.name == it.name
    &&& o.app == it.app
    &&& views(o.categories@) == kept_cats(it)
    &&& o.year == it.year
    &&& text_of(o.vendor) == vendor_of(it)
    &&& text_of(o.genre) == genre_of(it)
    &&& o.type_ == it.type_
    &&& o.creator == it.creator
    &&& o.desc == it.desc
    &&& o.image == it.image
    &&& o.shot == it.shot
    &&& text_of(o.hotkey) == match accepted_key(it) {
        Some(f) => Some(seq![f]),
        None => None::<Seq<char>>,
    }
    &&& o.icon == it.icon
    &&& text_of(o.source) == source_of(it)
    &&& o.max_depth == it.max_depth
    &&& o.cd_image == it.cd_image
    &&& o.cd_required == it.cd_required
    &&& o.cd_volume == it.cd_volume
    &&& o.cd_app == it.cd_app
}

/// Trusted: formats the strings with `{:?}` (std's `Debug` for a slice of
/// strings); the text it gives is named `debug_strings`.
#[verifier::external_body]
fn debug_list(v: &[String]) -> (r: String)
    ensures
        r@ == debug_strings(views(v@)),
{
    format!("{:?}", v)
}

/// The lines of a source dataset that hold records, trimmed and numbered from
/// 1: blank lines and comment lines (starting `#` or `//`) are skipped.
pub fn record_lines(text: &str) -> (r: Vec<(usize, String)>)
    ensures
        r@.len() == record_lines_of(text@).len(),
        forall|i: int|
            0 <= i < r@.len() ==> (#[trigger] r@[i]).0 as int == record_lines_of(text@)[i].0 && r@[i].1@
                == record_lines_of(text@)[i].1,
{
    let ls = crate::text::lines_of(text);
    let ghost lsv = crate::text::lines_seq(text@);
    let mut r: Vec<(usize, String)> = Vec::new();
    let mut k: usize = 0;
    while k < ls.len()
        invariant
            k <= ls@.len(),
            ls@.len() == lsv.len(),
            forall|j: int| 0 <= j < ls@.len() ==> (#[trigger] ls@[j])@ == lsv[j],
            r@.len() == record_lines_upto(lsv, k as int).len(),
            forall|i: int|
                0 <= i < r@.len() ==> (#[trigger] r@[i]).0 as int == record_lines_upto(lsv, k as int)[i].0
                    && r@[i].1@ == record_lines_upto(lsv, k as int)[i].1,
        decreases ls@.len() - k,
    {
        let t = trim_str(ls[k].as_str());
        let cs = chars_of(t.as_str());
        let skip = cs.len() == 0 || cs[0] == '#' || (cs.len() >= 2 && cs[0] == '/' && cs[1] == '/');
        if !skip {
            r.push((k + 1, t));
        }
        k = k + 1;
    }
    r
}

/// Append `p` followed by `m` to the warnings.
fn warn(warnings: &mut Vec<String>, p: &String, m: &str)
    ensures
        views(final(warnings)@) == views(old(warnings)@).push(p@ + m@),
{
    let mut w = p.clone();
    append(&mut w, m);
    let ghost before = warnings@;
    warnings.push(w);
    assert(views(warnings@) =~= views(before).push(p@ + m@));
}

fn char_len(s: &str) -> (r: usize)
    ensures
        r == s@.len(),
{
    chars_of(s).len()
}

fn longer_exec(o: &Option<String>, max: usize) -> (r: bool)
    ensures
        r == longer(*o, max as int),
{
    match o {
        Some(v) => char_len(v.as_str()) > max,
        None => false,
    }
}

/// Append `m` to the messages when `b`.
fn note(ms: &mut Vec<String>, b: bool, m: &str)
    ensures
        views(final(ms)@) == views(old(ms)@) + when(b, m@),
{
    let ghost before = ms@;
    if b {
        ms.push(m.to_owned());
        assert(views(ms@) =~= views(before) + when(b, m@));
    } else {
        assert(views(ms@) =~= views(before) + when(b, m@));
    }
}

fn required_length_notes(ms: &mut Vec<String>, it: &SourceItem)
    ensures
        views(final(ms)@) == views(old(ms)@) + required_length_warnings(*it),
{
    let ghost v0 = views(ms@);
    note(ms, char_len(it.id.as_str()) > 47, "id longer than 47 chars");
    let ghost v1 = views(ms@);
    note(ms, char_len(it.name.as_str()) > 63, "name longer than 63 chars");
    let ghost v2 = views(ms@);
    note(ms, char_len(it.app.as_str()) > 191, "app path longer than 191 chars");
    assert(views(ms@) =~= v0 + required_length_warnings(*it));
}

fn cd_length_notes(ms: &mut Vec<String>, it: &SourceItem)
    ensures
        views(final(ms)@) == views(old(ms)@) + cd_length_warnings(*it),
{
    let ghost v0 = views(ms@);
    note(ms, longer_exec(&it.cd_image, 63), "cdImage longer than 63 chars (will truncate on device)");
    note(ms, longer_exec(&it.cd_volume, 27), "cdVolume longer than 27 chars (will truncate on device)");
    note(ms, longer_exec(&it.cd_app, 127), "cdApp longer than 127 chars (will truncate on device)");
    assert(views(ms@) =~= v0 + cd_length_warnings(*it));
}

fn text_length_notes(ms: &mut Vec<String>, it: &SourceItem)
    ensures
        views(final(ms)@) == views(old(ms)@) + text_length_warnings(*it),
{
    let ghost v0 = views(ms@);
    note(ms, longer_exec(&it.desc, 255), "desc longer than 255 chars (will truncate on device)");
    note(ms, longer_exec(&it.vendor, 39), "vendor longer than 39 chars (will truncate on device)");
    assert(views(ms@) =~= v0 + text_length_warnings(*it));
}

/// The length warnings of a record, appended to the messages.
fn length_notes(ms: &mut Vec<String>, it: &SourceItem)
    ensures
        views(final(ms)@) == views(old(ms)@) + length_warnings(*it),
{
    let ghost v0 = views(ms@);
    required_length_notes(ms, it);
    let ghost v1 = views(ms@);
    cd_length_notes(ms, it);
    let ghost v2 = views(ms@);
    text_length_notes(ms, it);
    let ghost v3 = views(ms@);
    assert(v2 =~= v0 + (required_length_warnings(*it) + cd_length_warnings(*it)));
    assert(v3 =~= v0 + length_warnings(*it));
}

/// The line of the last record before the `k`-th with the id `id`.
fn prev_id(recs: &Vec<(usize, SourceItem)>, k: usize, id: &str) -> (r: Option<usize>)
    requires
        k <= recs@.len(),
    ensures
        match r {
            Some(l) => prev_id_line(recs@, k as int, id@) == Some(l as int),
            None => prev_id_line(recs@, k as int, id@) is None,
        },
{
    let mut j: usize = k;
    while j > 0
        invariant
            j <= k <= recs@.len(),
            prev_id_line(recs@, k as int, id@) == prev_id_line(recs@, j as int, id@),
        decreases j,
    {
        if same_str(recs[j - 1].1.id.as_str(), id) {
            return Some(recs[j - 1].0);
        }
        j = j - 1;
    }
    None
}

/// The trimmed hotkey text of a record.
fn hotkey_chars(it: &SourceItem) -> (r: Option<Vec<char>>)
    ensures
        match r {
            Some(t) => hotkey_text(*it) == Some(t@),
            None => hotkey_text(*it) is None,
        },
{
    match &it.hotkey {
        Some(h) => {
            let t = crate::text::trim_chars(chars_of(h.as_str()).as_slice());
            if t.len() > 0 {
                Some(t)
            } else {
                None
            }
        },
        None => None,
    }
}

fn graphic(c: char) -> (r: bool)
    ensures
        r == is_graphic(c),
{
    '!' <= c && c <= '~'
}

/// The hotkey a record launches with.
fn accepted(it: &SourceItem) -> (r: Option<char>)
    ensures
        r == accepted_key(*it),
{
    match hotkey_chars(it) {
        Some(t) => if graphic(t[0]) {
            Some(t[0])
        } else {
            None
        },
        None => None,
    }
}

/// The line of the last record before the `k`-th whose hotkey is `lower`,
/// ASCII case ignored.
fn prev_key(recs: &Vec<(usize, SourceItem)>, k: usize, lower: char) -> (r: Option<usize>)
    requires
        k <= recs@.len(),
    ensures
        match r {
            Some(l) => prev_key_line(recs@, k as int, lower) == Some(l as int),
            None => prev_key_line(recs@, k as int, lower) is None,
        },
{
    let mut j: usize = k;
    while j > 0
        invariant
            j <= k <= recs@.len(),
            prev_key_line(recs@, k as int, lower) == prev_key_line(recs@, j as int, lower),
        decreases j,
    {
        match accepted(&recs[j - 1].1) {
            Some(f) => {
                if crate::text::lower_char(f) == lower {
                    return Some(recs[j - 1].0);
                }
            },
            None => {},
        }
        j = j - 1;
    }
    None
}

fn dup_notes(ms: &mut Vec<String>, recs: &Vec<(usize, SourceItem)>, k: usize)
    requires
        k < recs@.len(),
    ensures
        views(final(ms)@) == views(old(ms)@) + match prev_id_line(recs@, k as int, recs@[k as int].1.id@) {
            Some(p) => seq!["duplicate id (also on line "@ + decimal(p) + ")"@],
            None => Seq::<Seq<char>>::empty(),
        },
{
    let ghost v0 = views(ms@);
    match prev_id(recs, k, recs[k].1.id.as_str()) {
        Some(p) => {
            let mut m = "duplicate id (also on line ".to_owned();
            let d = decimal_u64(p as u64);
            append(&mut m, d.as_str());
            append(&mut m, ")");
            ms.push(m);
            assert(views(ms@) =~= v0.push("duplicate id (also on line "@ + decimal(p as int) + ")"@));
        },
        None => {
            assert(views(ms@) =~= v0 + Seq::<Seq<char>>::empty());
        },
    }
}

fn long_cat_notes(ms: &mut Vec<String>, cats: &Vec<String>)
    ensures
        views(final(ms)@) == views(old(ms)@) + long_cat_warnings(views(cats@)),
{
    let ghost v0 = views(ms@);
    let mut i: usize = 0;
    while i < cats.len()
        invariant
            i <= cats@.len(),
            views(ms@) == v0 + long_cat_warnings(views(cats@).take(i as int)),
        decreases cats@.len() - i,
    {
        let ghost before = views(ms@);
        proof {
            assert(views(cats@).take(i + 1).drop_last() =~= views(cats@).take(i as int));
            assert(views(cats@).take(i + 1).last() == cats@[i as int]@);
        }
        let ghost x = views(cats@).take(i + 1);
        let ghost msg = "category \""@ + cats@[i as int]@ + "\" longer than 31 chars"@;
        assert(long_cat_warnings(x) == long_cat_warnings(x.drop_last()) + when(x.last().len() > 31, msg));
        if char_len(cats[i].as_str()) > 31 {
            let mut m = "category \"".to_owned();
            append(&mut m, cats[i].as_str());
            append(&mut m, "\" longer than 31 chars");
            assert(m@ == msg);
            ms.push(m);
            proof {
                assert(views(ms@) =~= before.push(msg));
            }
        } else {
            assert(views(ms@) =~= before);
        }
        proof {
            assert(views(ms@) =~= v0 + long_cat_warnings(x));
        }
        i = i + 1;
    }
    assert(views(cats@).take(i as int) =~= views(cats@));
}

fn clamp_notes(ms: &mut Vec<String>, cats: &Vec<String>)
    ensures
        views(final(ms)@) == views(old(ms)@) + clamp_warnings(views(cats@)),
{
    let ghost v0 = views(ms@);
    if cats.len() > 8 {
        let mut m = decimal_u64(cats.len() as u64);
        append(&mut m, " categories exceeds device max 8; dropping ");
        let rest = vstd::slice::slice_subrange(cats.as_slice(), 8, cats.len());
        assert(views(rest@) =~= views(cats@).skip(8));
        let d = debug_list(rest);
        append(&mut m, d.as_str());
        ms.push(m);
        assert(views(ms@) =~= v0 + clamp_warnings(views(cats@)));
    } else {
        assert(views(ms@) =~= v0 + clamp_warnings(views(cats@)));
    }
}

fn genre_notes(ms: &mut Vec<String>, genre: &Option<String>)
    ensures
        views(final(ms)@) == views(old(ms)@) + match text_of(*genre) {
            Some(g) => when(g.len() > 63, "genre longer than 63 chars (will truncate on device)"@),
            None => Seq::<Seq<char>>::empty(),
        },
{
    let ghost v0 = views(ms@);
    match genre {
        Some(g) => note(ms, char_len(g.as_str()) > 63, "genre longer than 63 chars (will truncate on device)"),
        None => {
            assert(views(ms@) =~= v0 + Seq::<Seq<char>>::empty());
        },
    }
}

/// `'c'` as a string.
fn char_string(c: char) -> (r: String)
    ensures
        r@ == seq![c],
{
    let v: Vec<char> = vec![c];
    assert(v@ =~= seq![c]);
    string_from(v.as_slice())
}

fn hotkey_notes(ms: &mut Vec<String>, recs: &Vec<(usize, SourceItem)>, k: usize)
    requires
        k < recs@.len(),
    ensures
        views(final(ms)@) == views(old(ms)@) + hotkey_warnings(recs@, k as int),
{
    let ghost v0 = views(ms@);
    match hotkey_chars(&recs[k].1) {
        None => {
            assert(views(ms@) =~= v0 + hotkey_warnings(recs@, k as int));
        },
        Some(t) => {
            let f = t[0];
            let fs = char_string(f);
            let mut m1 = "hotkey \"".to_owned();
            append(&mut m1, string_from(t.as_slice()).as_str());
            append(&mut m1, "\" longer than 1 char; using '");
            append(&mut m1, fs.as_str());
            append(&mut m1, "'");
            let ghost tv = t@;
            assert(m1@ == "hotkey \""@ + tv + "\" longer than 1 char; using '"@ + seq![f] + "'"@);
            note(ms, t.len() > 1, m1.as_str());
            let ghost v1 = views(ms@);
            let ghost first = when(tv.len() > 1, "hotkey \""@ + tv + "\" longer than 1 char; using '"@ + seq![f] + "'"@);
            assert(v1 == v0 + first);
            if !graphic(f) {
                let mut m = "hotkey '".to_owned();
                append(&mut m, fs.as_str());
                append(&mut m, "' is not a printable ASCII key; ignored");
                let ghost mv = m@;
                let ghost before = ms@;
                ms.push(m);
                assert(views(ms@) =~= views(before).push(mv));
                assert(views(ms@) =~= v0 + (first + seq![mv]));
            } else {
                match prev_key(recs, k, crate::text::lower_char(f)) {
                    Some(p) => {
                        let mut m = "hotkey '".to_owned();
                        append(&mut m, fs.as_str());
                        append(&mut m, "' already used on line ");
                        append(&mut m, decimal_u64(p as u64).as_str());
                        let ghost mv = m@;
                        let ghost before = ms@;
                        ms.push(m);
                        assert(views(ms@) =~= views(before).push(mv));
                        assert(views(ms@) =~= v0 + (first + seq![mv]));
                    },
                    None => {
                        assert(views(ms@) =~= v0 + (first + Seq::<Seq<char>>::empty()));
                    },
                }
            }
            assert(views(ms@) =~= v0 + hotkey_warnings(recs@, k as int));
        },
    }
}

fn vendor_text(it: &SourceItem) -> (r: Option<String>)
    ensures
        text_of(r) == vendor_of(*it),
{
    match &it.vendor {
        Some(v) => {
            let t = trim_str(v.as_str());
            if char_len(t.as_str()) > 0 {
                Some(t)
            } else {
                None
            }
        },
        None => None,
    }
}

fn genre_text(it: &SourceItem) -> (r: Option<String>)
    ensures
        text_of(r) == genre_of(*it),
{
    let mut parts: Vec<String> = Vec::new();
    let mut i: usize = 0;
    while i < it.genre.len()
        invariant
            i <= it.genre@.len(),
            views(parts@) == nonempty_trimmed(it.genre@.take(i as int)),
        decreases it.genre@.len() - i,
    {
        proof {
            assert(it.genre@.take(i + 1).drop_last() =~= it.genre@.take(i as int));
        }
        let t = trim_str(it.genre[i].as_str());
        if char_len(t.as_str()) > 0 {
            let ghost before = parts@;
            let ghost tv = t@;
            parts.push(t);
            assert(views(parts@) =~= views(before).push(tv));
        }
        i = i + 1;
    }
    assert(it.genre@.take(i as int) =~= it.genre@);
    if parts.len() == 0 {
        None
    } else {
        Some(crate::text::join_strings(&parts, ", "))
    }
}

fn source_text(it: &SourceItem) -> (r: Option<String>)
    ensures
        text_of(r) == source_of(*it),
{
    match &it.source {
        Some(s) => {
            let cs = chars_of(s.as_str());
            if cs.len() > 39 {
                let t = vstd::slice::slice_subrange(cs.as_slice(), 0, 39);
                assert(t@ =~= s@.take(39));
                Some(string_from(t))
            } else {
                Some(string_from(cs.as_slice()))
            }
        },
        None => None,
    }
}

fn hotkey_out(it: &SourceItem) -> (r: Option<String>)
    ensures
        text_of(r) == match accepted_key(*it) {
            Some(f) => Some(seq![f]),
            None => None::<Seq<char>>,
        },
{
    match accepted(it) {
        Some(f) => Some(char_string(f)),
        None => None,
    }
}

/// The warnings about the `k`-th record, before their line prefix.
fn record_notes(recs: &Vec<(usize, SourceItem)>, k: usize, cats: &Vec<String>, genre: &Option<String>) -> (ms: Vec<
    String,
>)
    requires
        k < recs@.len(),
        views(cats@) == derived_cats(recs@[k as int].1),
        text_of(*genre) == genre_of(recs@[k as int].1),
    ensures
        views(ms@) == record_warnings(recs@, k as int),
{
    let ghost it = recs@[k as int].1;
    let mut ms: Vec<String> = Vec::new();
    length_notes(&mut ms, &recs[k].1);
    let ghost v1 = views(ms@);
    dup_notes(&mut ms, recs, k);
    let ghost v2 = views(ms@);
    long_cat_notes(&mut ms, cats);
    let ghost v3 = views(ms@);
    clamp_notes(&mut ms, cats);
    let ghost v4 = views(ms@);
    genre_notes(&mut ms, genre);
    let ghost v5 = views(ms@);
    hotkey_notes(&mut ms, recs, k);
    proof {
        let a = length_warnings(it);
        let b = match prev_id_line(recs@, k as int, it.id@) {
            Some(p) => seq!["duplicate id (also on line "@ + decimal(p) + ")"@],
            None => Seq::<Seq<char>>::empty(),
        };
        let c = long_cat_warnings(derived_cats(it));
        let d = clamp_warnings(derived_cats(it));
        let e = match genre_of(it) {
            Some(g) => when(g.len() > 63, "genre longer than 63 chars (will truncate on device)"@),
            None => Seq::<Seq<char>>::empty(),
        };
        let f = hotkey_warnings(recs@, k as int);
        assert(views(Seq::<String>::empty()) =~= Seq::<Seq<char>>::empty());
        assert(v1 =~= a);
        assert(v2 =~= a + b);
        assert(v3 =~= a + b + c);
        assert(v4 =~= a + b + c + d);
        assert(v5 =~= a + b + c + d + e);
        assert(views(ms@) =~= a + b + c + d + e + f);
        assert(record_warnings(recs@, k as int) == a + b + c + d + e + f);
    }
    ms
}

/// A count as a map entry: present when above zero.
pub open spec fn count_entry(n: int) -> Option<usize> {
    if n > 0 { Some(n as usize) } else { None }
}

proof fn lemma_offer_all_distinct(cands: Seq<Seq<char>>)
    ensures
        offer_all(Seq::empty(), cands).no_duplicates(),
    decreases cands.len(),
{
    if cands.len() > 0 {
        lemma_offer_all_distinct(cands.drop_last());
        let before = offer_all(Seq::empty(), cands.drop_last());
        let c = cands.last();
        if c.len() > 0 && !has_ci(before, c) {
            assert forall|i: int| 0 <= i < before.len() implies before[i] != c by {
                if before[i] == c {
                    assert(lower_seq(before[i]) == lower_seq(c));
                }
            }
        }
    }
}

proof fn lemma_kept_distinct(it: SourceItem)
    ensures
        kept_cats(it).no_duplicates(),
{
    lemma_offer_all_distinct(category_candidates(it));
}

proof fn lemma_cat_count_le(recs: Seq<(usize, SourceItem)>, k: int, c: Seq<char>)
    requires
        0 <= k,
    ensures
        0 <= cat_count(recs, k, c) <= k,
    decreases k,
{
    if k > 0 {
        lemma_cat_count_le(recs, k - 1, c);
    }
}

/// Count each of `cats` (distinct names) once more.
fn count_cats(counts: &mut Keyed<usize>, cats: &Vec<String>, Ghost(recs): Ghost<Seq<(usize, SourceItem)>>, Ghost(k): Ghost<int>)
    requires
        old(counts).wf(),
        0 <= k < recs.len(),
        recs.len() <= usize::MAX,
        views(cats@) == kept_cats(recs[k].1),
        forall|c: Seq<char>| lookup(old(counts).entries@, c) == count_entry(#[trigger] cat_count(recs, k, c)),
    ensures
        final(counts).wf(),
        forall|c: Seq<char>| lookup(final(counts).entries@, c) == count_entry(#[trigger] cat_count(recs, k + 1, c)),
{
    let ghost kc = views(cats@);
    proof {
        lemma_kept_distinct(recs[k].1);
    }
    let mut q: usize = 0;
    while q < cats.len()
        invariant
            q <= cats@.len(),
            counts.wf(),
            0 <= k < recs.len(),
            recs.len() <= usize::MAX,
            kc == views(cats@),
            kc == kept_cats(recs[k].1),
            kc.no_duplicates(),
            forall|c: Seq<char>| lookup(counts.entries@, c) == count_entry(
                #[trigger] cat_count(recs, k, c) + if kc.take(q as int).contains(c) { 1int } else { 0 },
            ),
        decreases cats@.len() - q,
    {
        let ghost cq = cats@[q as int]@;
        proof {
            assert(kc[q as int] == cq);
            lemma_cat_count_le(recs, k, cq);
            let t0 = kc.take(q as int);
            if t0.contains(cq) {
                let j = choose|j: int| 0 <= j < t0.len() && t0[j] == cq;
                assert(kc[j] == kc[q as int]);
            }
            assert(lookup(counts.entries@, cq) == count_entry(cat_count(recs, k, cq)));
        }
        let cur: usize = match counts.get(cats[q].as_str()) {
            Some(v) => *v,
            None => 0,
        };
        assert(cur as int == cat_count(recs, k, cq));
        let ghost before = counts.entries@;
        counts.insert(cats[q].clone(), cur + 1);
        proof {
            assert forall|c: Seq<char>| lookup(counts.entries@, c) == count_entry(
                #[trigger] cat_count(recs, k, c) + if kc.take(q + 1).contains(c) { 1int } else { 0 },
            ) by {
                let t1 = kc.take(q + 1);
                let t0 = kc.take(q as int);
                assert(t1 =~= t0.push(cq));
                if c == cq {
                    assert(t1[q as int] == cq);
                } else {
                    if t1.contains(c) {
                        let j = choose|j: int| 0 <= j < t1.len() && t1[j] == c;
                        assert(t0[j] == c);
                    }
                    if t0.contains(c) {
                        let j = choose|j: int| 0 <= j < t0.len() && t0[j] == c;
                        assert(t1[j] == c);
                    }
                }
            }
        }
        q = q + 1;
    }
    proof {
        assert(kc.take(q as int) =~= kc);
        assert forall|c: Seq<char>| lookup(counts.entries@, c) == count_entry(#[trigger] cat_count(recs, k + 1, c)) by {
            assert(cat_count(recs, k + 1, c) == cat_count(recs, k, c) + if kc.contains(c) { 1int } else { 0 });
        }
    }
}

/// The prefix naming a record's line and id.
fn prefix_of(ln: usize, id: &str) -> (r: String)
    ensures
        r@ == line_prefix(ln as int, id@),
{
    let mut p = "line ".to_owned();
    append(&mut p, decimal_u64(ln as u64).as_str());
    append(&mut p, " (");
    append(&mut p, id);
    append(&mut p, "): ");
    p
}

/// Compile the `k`-th record: its warnings go to `warnings`, its kept
/// categories are counted once more in `counts`.
fn compile_record(
    recs: &Vec<(usize, SourceItem)>,
    k: usize,
    warnings: &mut Vec<String>,
    counts: &mut Keyed<usize>,
) -> (o: OutItem)
    requires
        k < recs@.len(),
        old(counts).wf(),
        forall|c: Seq<char>| lookup(old(counts).entries@, c) == count_entry(#[trigger] cat_count(recs@, k as int, c)),
    ensures
        compiled(o, recs@[k as int].1),
        views(final(warnings)@) == views(old(warnings)@) + prefixed(
            line_prefix(recs@[k as int].0 as int, recs@[k as int].1.id@),
            record_warnings(recs@, k as int),
        ),
        final(counts).wf(),
        forall|c: Seq<char>| lookup(final(counts).entries@, c) == count_entry(#[trigger] cat_count(recs@, k + 1, c)),
{
    let nrec = recs.len();
    assert(recs@.len() == nrec as int);
    let it = &recs[k].1;
    let mut cats = derive_categories(it);
    let genre = genre_text(it);
    let ms = record_notes(recs, k, &cats, &genre);
    let p = prefix_of(recs[k].0, it.id.as_str());
    let ghost w0 = views(warnings@);
    let ghost pre = p@;
    let mut i: usize = 0;
    while i < ms.len()
        invariant
            i <= ms@.len(),
            pre == p@,
            views(warnings@) == w0 + prefixed(pre, views(ms@).take(i as int)),
        decreases ms@.len() - i,
    {
        warn(warnings, &p, ms[i].as_str());
        i = i + 1;
        proof {
            assert(prefixed(pre, views(ms@).take(i as int)) =~= prefixed(pre, views(ms@).take(i - 1)).push(
                pre + ms@[i - 1]@,
            ));
            assert(views(warnings@) =~= w0 + prefixed(pre, views(ms@).take(i as int)));
        }
    }
    assert(views(ms@).take(i as int) =~= views(ms@));
    let ghost full = views(cats@);
    cats.truncate(MAX_ITEM_CATS);
    assert(views(cats@) =~= kept_cats(recs@[k as int].1)) by {
        if full.len() > 8 {
            assert(views(cats@) =~= full.take(8));
        }
    }
    count_cats(counts, &cats, Ghost(recs@), Ghost(k as int));
    OutItem {
        id: it.id.clone(),
        name: it.name.clone(),
        categories: cats,
        app: it.app.clone(),
        year: it.year,
        vendor: vendor_text(it),
        genre,
        type_: crate::config::copy_opt(&it.type_),
        creator: crate::config::copy_opt(&it.creator),
        desc: crate::config::copy_opt(&it.desc),
        image: crate::config::copy_opt(&it.image),
        shot: crate::config::copy_opt(&it.shot),
        hotkey: hotkey_out(it),
        icon: crate::config::copy_opt(&it.icon),
        source: source_text(it),
        max_depth: it.max_depth,
        cd_image: crate::config::copy_opt(&it.cd_image),
        cd_required: it.cd_required,
        cd_volume: crate::config::copy_opt(&it.cd_volume),
        cd_app: crate::config::copy_opt(&it.cd_app),
    }
}

/// Compile the records of a source dataset, each with the line it stands on,
/// into the on-Mac records, in order: each record's categories derived and
/// capped at eight, its display vendor and genre, its launch hotkey
/// normalised to one printable ASCII character, its attribution capped at 39
/// characters. The report counts items and, per category, the items filed
/// under it, and carries every warning: fields longer than the device's
/// buffers, repeated ids, over-long or too many categories, odd or repeated
/// hotkeys, and more distinct categories than the device holds.
pub fn build(records: &Vec<(usize, SourceItem)>) -> (r: (Vec<OutItem>, Report))
    ensures
        r.0@.len() == records@.len(),
        forall|k: int| 0 <= k < records@.len() ==> compiled(#[trigger] r.0@[k], records@[k].1),
        r.1.items == records@.len(),
        r.1.categories.wf(),
        forall|c: Seq<char>|
            lookup(r.1.categories.entries@, c) == count_entry(#[trigger] cat_count(records@, records@.len() as int, c)),
        views(r.1.warnings@) == warnings_upto(records@, records@.len() as int) + when(
            r.1.categories.entries@.len() > 64,
            decimal(r.1.categories.entries@.len() as int) + " distinct categories exceeds device max 64"@,
        ),
        r.1.lossy_chars == 0,
        r.1.bytes == 0,
{
    let mut out: Vec<OutItem> = Vec::new();
    let mut warnings: Vec<String> = Vec::new();
    let mut counts: Keyed<usize> = Keyed::new();
    let n = records.len();
    let mut k: usize = 0;
    assert(views(warnings@) =~= warnings_upto(records@, 0));
    while k < n
        invariant
            k <= n,
            n == records@.len(),
            out@.len() == k,
            forall|j: int| 0 <= j < k ==> compiled(#[trigger] out@[j], records@[j].1),
            views(warnings@) == warnings_upto(records@, k as int),
            counts.wf(),
            forall|c: Seq<char>| lookup(counts.entries@, c) == count_entry(#[trigger] cat_count(records@, k as int, c)),
        decreases n - k,
    {
        let o = compile_record(records, k, &mut warnings, &mut counts);
        out.push(o);
        k = k + 1;
    }
    let nc = counts.entries.len();
    let ghost w = views(warnings@);
    if nc > MAX_CATS {
        let mut m = decimal_u64(nc as u64);
        append(&mut m, " distinct categories exceeds device max 64");
        let ghost mv = m@;
        warnings.push(m);
        assert(views(warnings@) =~= w.push(mv));
    }
    assert(views(warnings@) =~= w + when(
        nc > 64,
        decimal(nc as int) + " distinct categories exceeds device max 64"@,
    ));
    let report = Report { items: out.len(), categories: counts, warnings, lossy_chars: 0, bytes: 0 };
    (out, report)
}

/// The record separator: LF, CRLF, or the device's CR.
pub open spec fn record_sep(crlf: bool, lf: bool) -> Seq<char> {
    if lf { "\n"@ } else if crlf { "\r\n"@ } else { "\r"@ }
}

/// The texts, each followed by `sep`.
pub open spec fn terminated(texts: Seq<Seq<char>>, sep: Seq<char>) -> Seq<char>
    decreases texts.len(),
{
    if texts.len() == 0 { Seq::empty() } else { terminated(texts.drop_last(), sep) + texts.last() + sep }
}

/// The single-file catalog of the compiled items' texts: an error giving
/// the number of items when there are more than the device holds (a
/// larger library takes the paged catalog); else the items rendered as
/// `render_texts` renders them, with the number of characters MacRoman
/// cannot hold.
pub fn render_catalog(texts: &Vec<String>, crlf: bool, lf: bool) -> (r: Result<(Vec<u8>, usize), usize>)
    ensures
        texts@.len() > MAX_ITEMS <==> r is Err,
        r matches Err(n) ==> n == texts@.len(),
        r matches Ok(v) ==> v.0@ == crate::macroman::encode_spec(terminated(views(texts@), record_sep(crlf, lf)))
            && v.1 == crate::macroman::lossy_count(terminated(views(texts@), record_sep(crlf, lf))),
{
    if texts.len() > MAX_ITEMS {
        Err(texts.len())
    } else {
        Ok(render_texts(texts, crlf, lf))
    }
}

/// The catalog file for records already written as JSON texts: each text
/// followed by the separator (CR for the device, CRLF or LF when asked,
/// LF winning), MacRoman-encoded; with the number of characters MacRoman
/// cannot hold.
pub fn render_texts(texts: &Vec<String>, crlf: bool, lf: bool) -> (r: (Vec<u8>, usize))
    ensures
        r.0@ == crate::macroman::encode_spec(terminated(views(texts@), record_sep(crlf, lf))),
        r.1 == crate::macroman::lossy_count(terminated(views(texts@), record_sep(crlf, lf))),
{
    let sep = if lf {
        "\n"
    } else if crlf {
        "\r\n"
    } else {
        "\r"
    };
    let mut all = String::new();
    let mut i: usize = 0;
    while i < texts.len()
        invariant
            i <= texts@.len(),
            sep@ == record_sep(crlf, lf),
            all@ == terminated(views(texts@).take(i as int), sep@),
        decreases texts@.len() - i,
    {
        append(&mut all, texts[i].as_str());
        append(&mut all, sep);
        proof {
            let t = views(texts@).take(i + 1);
            assert(t.drop_last() =~= views(texts@).take(i as int));
            assert(t.last() == texts@[i as int]@);
        }
        i = i + 1;
    }
    assert(views(texts@).take(i as int) =~= views(texts@));
    crate::macroman::encode(all.as_str())
}

} // verus!
