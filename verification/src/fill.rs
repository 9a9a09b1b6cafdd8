//! Enriching dataset records from a metadata source (LaunchBox or the
//! Macintosh Garden archive): the index from each candidate key to the most
//! complete source record, matching a title through its keys, and filling
//! the fields the source knows without clobbering curated values (unless
//! overwriting); which records then take a colour detected from a
//! screenshot.

use crate::enrich::{candidate_keys, dedup_nonempty, raw_keys, LbGame};
use crate::json::{json_quote, json_string};
use crate::keyed::{lookup, Keyed};
use crate::merge::{field_text, missing_in, Record};
use crate::text::{append, decimal, push_char, views};
use vstd::prelude::*;

verus! {

// ---- the index --------------------------------------------------------------

/// The step an index takes for a record scoring `si` at index `i`: it keeps
/// an earlier record that scores at least as well, else takes `i`.
pub open spec fn best_step(p: Option<usize>, scores: Seq<u8>, i: int) -> Option<usize> {
    match p {
        Some(j) => if scores[j as int] >= scores[i] { p } else { Some(i as usize) },
        None => Some(i as usize),
    }
}

/// The record the index holds for key `k` after the first `i` records: among
/// those with `k` as a candidate key, the first of the best scoring.
pub open spec fn best_upto(keys: Seq<Vec<String>>, scores: Seq<u8>, i: int, k: Seq<char>) -> Option<usize>
    decreases i,
{
    if i <= 0 {
        None
    } else {
        let p = best_upto(keys, scores, i - 1, k);
        if views(keys[i - 1]@).contains(k) { best_step(p, scores, i - 1) } else { p }
    }
}

proof fn lemma_best_below(keys: Seq<Vec<String>>, scores: Seq<u8>, i: int, k: Seq<char>)
    ensures
        best_upto(keys, scores, i, k) matches Some(j) ==> j < i,
    decreases i,
{
    if i > 0 {
        lemma_best_below(keys, scores, i - 1, k);
    }
}

/// Index every candidate key of the source records (`keys[i]` those of
/// record `i`) to the most complete record: an earlier record keeps a key
/// unless a later one scores strictly higher.
pub fn best_by_key(keys: &Vec<Vec<String>>, scores: &Vec<u8>) -> (idx: Keyed<usize>)
    requires
        keys@.len() == scores@.len(),
    ensures
        idx.wf(),
        forall|k: Seq<char>| #[trigger] lookup(idx.entries@, k) == best_upto(keys@, scores@, keys@.len() as int, k),
{
    let mut idx: Keyed<usize> = Keyed::new();
    let mut i: usize = 0;
    while i < keys.len()
        invariant
            i <= keys@.len(),
            keys@.len() == scores@.len(),
            idx.wf(),
            forall|k: Seq<char>| #[trigger] lookup(idx.entries@, k) == best_upto(keys@, scores@, i as int, k),
        decreases keys@.len() - i,
    {
        let ks = &keys[i];
        let mut m: usize = 0;
        while m < ks.len()
            invariant
                i < keys@.len(),
                keys@.len() == scores@.len(),
                *ks == keys@[i as int],
                m <= ks@.len(),
                idx.wf(),
                forall|k: Seq<char>| #[trigger] lookup(idx.entries@, k) == if views(ks@.take(m as int)).contains(k) {
                    best_step(best_upto(keys@, scores@, i as int, k), scores@, i as int)
                } else {
                    best_upto(keys@, scores@, i as int, k)
                },
            decreases ks@.len() - m,
        {
            let k = &ks[m];
            let ghost kv = k@;
            let ghost before = idx.entries@;
            proof {
                lemma_best_below(keys@, scores@, i as int, kv);
            }
            let keep = match idx.get(k.as_str()) {
                Some(j) => scores[*j] >= scores[i],
                None => false,
            };
            if !keep {
                idx.insert(k.clone(), i);
            }
            proof {
                assert(views(ks@.take(m + 1)) =~= views(ks@.take(m as int)).push(kv));
                assert forall|q: Seq<char>| #[trigger] lookup(idx.entries@, q) == if views(ks@.take(m + 1)).contains(q) {
                    best_step(best_upto(keys@, scores@, i as int, q), scores@, i as int)
                } else {
                    best_upto(keys@, scores@, i as int, q)
                } by {
                    if q == kv {
                        assert(views(ks@.take(m + 1))[m as int] == kv);
                        let b = best_upto(keys@, scores@, i as int, kv);
                        let prior = lookup(before, kv);
                        assert(prior == b || prior == best_step(b, scores@, i as int));
                        if keep {
                            assert(lookup(idx.entries@, kv) == prior);
                            assert(prior matches Some(j) && scores@[j as int] >= scores@[i as int]);
                            if prior == b {
                                assert(best_step(b, scores@, i as int) == b);
                            }
                        } else {
                            assert(lookup(idx.entries@, kv) == Some(i));
                            assert(prior is None || (prior matches Some(j) && scores@[j as int] < scores@[i as int]));
                        }
                        assert(lookup(idx.entries@, kv) == best_step(b, scores@, i as int));
                    } else {
                        assert(lookup(idx.entries@, q) == lookup(before, q));
                        let vt = views(ks@.take(m + 1));
                        let vs = views(ks@.take(m as int));
                        assert(vt =~= vs.push(kv));
                        if vt.contains(q) {
                            let w = choose|w: int| 0 <= w < vt.len() && #[trigger] vt[w] == q;
                            assert(w < m);
                            assert(vs[w] == q);
                            assert(vs.contains(q));
                        }
                        if vs.contains(q) {
                            let w = choose|w: int| 0 <= w < vs.len() && #[trigger] vs[w] == q;
                            assert(vt[w] == q);
                            assert(vt.contains(q));
                        }
                    }
                }
            }
            m = m + 1;
        }
        proof {
            assert(ks@.take(m as int) =~= ks@);
        }
        i = i + 1;
    }
    idx
}

// ---- matching ---------------------------------------------------------------

/// The record the first of `ks` that the index holds points to.
pub open spec fn first_hit(ks: Seq<Seq<char>>, idx: Seq<(String, usize)>) -> Option<usize>
    decreases ks.len(),
{
    if ks.len() == 0 {
        None
    } else {
        match lookup(idx, ks[0]) {
            Some(j) => Some(j),
            None => first_hit(ks.drop_first(), idx),
        }
    }
}

/// The source record a dataset title matches: the one its first candidate
/// key held by the index points to.
pub fn match_title(name: &str, idx: &Keyed<usize>) -> (r: Option<usize>)
    ensures
        r == first_hit(dedup_nonempty(raw_keys(name@)), idx.entries@),
{
    let ks = candidate_keys(name);
    let ghost kv = ks@.map_values(|x: String| x@);
    assert(kv =~= dedup_nonempty(raw_keys(name@)));
    let mut m: usize = 0;
    assert(kv.skip(0) =~= kv);
    while m < ks.len()
        invariant
            m <= ks@.len(),
            kv == ks@.map_values(|x: String| x@),
            kv == dedup_nonempty(raw_keys(name@)),
            first_hit(kv, idx.entries@) == first_hit(kv.skip(m as int), idx.entries@),
        decreases ks@.len() - m,
    {
        proof {
            assert(kv.skip(m as int).drop_first() =~= kv.skip(m + 1));
            assert(kv.skip(m as int)[0] == ks@[m as int]@);
        }
        match idx.get(ks[m].as_str()) {
            Some(j) => {
                proof {
                    assert(first_hit(kv.skip(m as int), idx.entries@) == Some(*j));
                }
                return Some(*j);
            },
            None => {},
        }
        m = m + 1;
    }
    None
}

// ---- filling ----------------------------------------------------------------

/// What a source record knows of a title. `desc` is already plain and
/// clamped; a fact left `None` (or no genres) fills nothing.
#[derive(Clone, Debug)]
pub struct Facts {
    pub year: Option<i64>,
    pub vendor: Option<String>,
    pub genres: Vec<String>,
    pub desc: Option<String>,
    pub source: Option<String>,
}

/// A JSON list of strings.
pub open spec fn json_list(v: Seq<Seq<char>>) -> Seq<char> {
    seq!['['] + crate::library::quoted_join(v, v.len() as int) + seq![']']
}

/// The JSON text a fact gives field `k`, if the source knows it.
pub open spec fn fact_text(f: Facts, k: Seq<char>) -> Option<Seq<char>> {
    if k == "year"@ {
        match f.year {
            Some(y) => Some(decimal(y as int)),
            None => None,
        }
    } else if k == "vendor"@ {
        match f.vendor {
            Some(v) => Some(json_quote(v@)),
            None => None,
        }
    } else if k == "genre"@ {
        if f.genres@.len() > 0 { Some(json_list(views(f.genres@))) } else { None }
    } else if k == "desc"@ {
        match f.desc {
            Some(d) => Some(json_quote(d@)),
            None => None,
        }
    } else if k == "source"@ {
        match f.source {
            Some(s) => Some(json_quote(s@)),
            None => None,
        }
    } else {
        None
    }
}

/// Field `k` after filling: a known fact replaces the field when overwriting
/// or when the record lacks it; everything else stays.
pub open spec fn filled(e: Seq<(String, String)>, f: Facts, overwrite: bool, k: Seq<char>) -> Option<Seq<char>> {
    match fact_text(f, k) {
        Some(v) => if overwrite || missing_in(e, k) { Some(v) } else { field_text(e, k) },
        None => field_text(e, k),
    }
}

fn fill_one(f: &mut Keyed<String>, key: &str, val: Option<String>, overwrite: bool)
    requires
        old(f).wf(),
    ensures
        final(f).wf(),
        forall|k: Seq<char>| #[trigger] field_text(final(f).entries@, k) == if k == key@ && val is Some && (overwrite
            || missing_in(old(f).entries@, key@)) {
            Some(val->0@)
        } else {
            field_text(old(f).entries@, k)
        },
{
    match val {
        Some(v) => {
            if overwrite || crate::merge::missing(f, key) {
                let ghost vv = v;
                f.insert(key.to_string(), v);
                proof {
                    assert forall|k: Seq<char>| #[trigger] field_text(f.entries@, k) == if k == key@ {
                        Some(vv@)
                    } else {
                        field_text(old(f).entries@, k)
                    } by {
                        if k != key@ {
                            assert(lookup(f.entries@, k) == lookup(old(f).entries@, k));
                        }
                    }
                }
            }
        },
        None => {},
    }
}

fn json_list_of(v: &Vec<String>) -> (r: String)
    ensures
        r@ == json_list(views(v@)),
{
    let mut s = String::new();
    push_char(&mut s, '[');
    let mut k: usize = 0;
    while k < v.len()
        invariant
            k <= v@.len(),
            s@ == seq!['['] + crate::library::quoted_join(views(v@), k as int),
        decreases v@.len() - k,
    {
        if k > 0 {
            push_char(&mut s, ',');
        }
        let q = json_string(v[k].as_str());
        append(&mut s, q.as_str());
        k = k + 1;
        proof {
            assert(views(v@)[k - 1] == v@[k - 1]@);
            assert(s@ =~= seq!['['] + crate::library::quoted_join(views(v@), k as int));
        }
    }
    push_char(&mut s, ']');
    assert(views(v@).len() == v@.len());
    s
}

/// Fill a dataset record from what a source knows: `year`, `vendor`,
/// `genre`, `desc` and `source` each take the fact where it is known and
/// the record lacks the field (or always, when overwriting); every other
/// field, and the id, stay.
pub fn fill_gaps(rec: &Record, facts: &Facts, overwrite: bool) -> (r: Record)
    requires
        rec.fields.wf(),
    ensures
        r.id == rec.id,
        r.fields.wf(),
        forall|k: Seq<char>| #[trigger] field_text(r.fields.entries@, k) == filled(rec.fields.entries@, *facts, overwrite, k),
{
    proof {
        reveal_strlit("year");
        reveal_strlit("vendor");
        reveal_strlit("genre");
        reveal_strlit("desc");
        reveal_strlit("source");
        assert("year"@[0] != "desc"@[0]);
        assert("vendor"@[0] != "source"@[0]);
        assert("year"@ != "desc"@ && "vendor"@ != "source"@);
    }
    let c = crate::merge::copy_record(rec);
    let mut f = c.fields;
    let ghost e0 = rec.fields.entries@;
    assert(f.entries@ == e0);
    let yv = match facts.year {
        Some(y) => Some(decimal_text(y)),
        None => None,
    };
    fill_one(&mut f, "year", yv, overwrite);
    let ghost e1 = f.entries@;
    let vv = match &facts.vendor {
        Some(v) => Some(json_string(v.as_str())),
        None => None,
    };
    fill_one(&mut f, "vendor", vv, overwrite);
    let ghost e2 = f.entries@;
    let gv = if facts.genres.len() > 0 { Some(json_list_of(&facts.genres)) } else { None };
    fill_one(&mut f, "genre", gv, overwrite);
    let ghost e3 = f.entries@;
    let dv = match &facts.desc {
        Some(d) => Some(json_string(d.as_str())),
        None => None,
    };
    fill_one(&mut f, "desc", dv, overwrite);
    let ghost e4 = f.entries@;
    let sv = match &facts.source {
        Some(s) => Some(json_string(s.as_str())),
        None => None,
    };
    fill_one(&mut f, "source", sv, overwrite);
    proof {
        assert(views(facts.genres@).len() == facts.genres@.len());
        assert forall|k: Seq<char>| #[trigger] field_text(f.entries@, k) == filled(e0, *facts, overwrite, k) by {
            assert(field_text(e1, k) == field_text(e1, k));
            assert(field_text(e2, k) == field_text(e2, k));
            assert(field_text(e3, k) == field_text(e3, k));
            assert(field_text(e4, k) == field_text(e4, k));
            assert(field_text(e0, k) == field_text(e0, k));
            assert(field_text(e1, "vendor"@) == field_text(e0, "vendor"@));
            assert(field_text(e2, "genre"@) == field_text(e0, "genre"@));
            assert(field_text(e3, "desc"@) == field_text(e0, "desc"@));
            assert(field_text(e4, "source"@) == field_text(e0, "source"@));
        }
    }
    let id = match &rec.id {
        Some(s) => Some(s.clone()),
        None => None,
    };
    Record { id, fields: f }
}

fn decimal_text(y: i64) -> (r: String)
    ensures
        r@ == decimal(y as int),
{
    crate::text::decimal_i64(y)
}

/// The record's `year` is a whole number before 1987, the year of the
/// first colour Mac.
pub open spec fn before_colour(e: Seq<(String, String)>) -> bool {
    match field_text(e, "year"@) {
        Some(t) => crate::text::parse_i64_spec(t) matches Some(y) && y < 1987,
        None => false,
    }
}

/// Whether a (filled) record takes a colour detected from a screenshot: not
/// a title from before the colour Mac (those stay black-and-white by year),
/// and the record lacks `color` or we are overwriting.
pub fn wants_color(rec: &Record, overwrite: bool) -> (r: bool)
    ensures
        r == (!before_colour(rec.fields.entries@) && (overwrite || missing_in(rec.fields.entries@, "color"@))),
{
    proof {
        reveal_strlit("year");
        reveal_strlit("color");
    }
    let pre = match rec.fields.get("year") {
        Some(t) => {
            let cs = crate::text::chars_of(t.as_str());
            match crate::text::parse_i64(cs.as_slice()) {
                Some(y) => y < 1987,
                None => false,
            }
        },
        None => false,
    };
    !pre && (overwrite || crate::merge::missing(&rec.fields, "color"))
}

// ---- the two sources --------------------------------------------------------

/// How complete a LaunchBox game is: one point each for a year and a
/// publisher.
pub fn lb_score(g: &LbGame) -> (r: u8)
    ensures
        r == (if g.year is Some { 1u8 } else { 0u8 }) + (if g.publisher is Some { 1u8 } else { 0u8 }),
{
    (if g.year.is_some() { 1u8 } else { 0u8 }) + (if g.publisher.is_some() { 1u8 } else { 0u8 })
}

/// What a LaunchBox game gives a title: its year, its publisher as the
/// vendor (when not empty), its genres, and its overview clamped to a
/// description (when not empty).
pub fn lb_facts(g: &LbGame) -> (f: Facts)
    ensures
        f.year == g.year,
        match g.publisher {
            Some(p) => if p@.len() > 0 { f.vendor matches Some(v) && v@ == p@ } else { f.vendor is None },
            None => f.vendor is None,
        },
        views(f.genres@) == views(g.genres@),
        match g.overview {
            Some(o) => if o@.len() > 0 {
                f.desc matches Some(d) && d@ == crate::enrich::clamped_desc(o@)
            } else {
                f.desc is None
            },
            None => f.desc is None,
        },
        f.source is None,
{
    let vendor = match &g.publisher {
        Some(p) => if p.as_str().unicode_len() > 0 { Some(p.clone()) } else { None },
        None => None,
    };
    let desc = match &g.overview {
        Some(o) => if o.as_str().unicode_len() > 0 { Some(crate::enrich::clamp_desc(o.as_str())) } else { None },
        None => None,
    };
    let mut genres: Vec<String> = Vec::new();
    let mut k: usize = 0;
    while k < g.genres.len()
        invariant
            k <= g.genres@.len(),
            genres@.len() == k,
            forall|j: int| 0 <= j < k ==> (#[trigger] genres@[j])@ == g.genres@[j]@,
        decreases g.genres@.len() - k,
    {
        genres.push(g.genres[k].clone());
        k = k + 1;
    }
    proof {
        assert(views(genres@) =~= views(g.genres@));
    }
    Facts { year: g.year, vendor, genres, desc, source: None }
}

/// What a Macintosh Garden record gives a title: its year, vendor and
/// genres, its description flattened from HTML and clamped (when the HTML
/// and the result are not empty), and the `Macintosh Garden` attribution.
pub fn mg_facts(r: &crate::mg::MgRec) -> (f: Facts)
    ensures
        f.year == r.year,
        f.vendor == r.vendor,
        views(f.genres@) == views(r.genres@),
        if r.desc_html@.len() > 0 && crate::enrich::clamped_desc(crate::mg::html_text(r.desc_html@)).len() > 0 {
            f.desc matches Some(d) && d@ == crate::enrich::clamped_desc(crate::mg::html_text(r.desc_html@))
        } else {
            f.desc is None
        },
        f.source matches Some(s) && s@ == "Macintosh Garden"@,
{
    let desc = if r.desc_html.as_str().unicode_len() > 0 {
        let plain = crate::enrich::clamp_desc(crate::mg::strip_html(r.desc_html.as_str()).as_str());
        if plain.as_str().unicode_len() > 0 { Some(plain) } else { None }
    } else {
        None
    };
    let mut genres: Vec<String> = Vec::new();
    let mut k: usize = 0;
    while k < r.genres.len()
        invariant
            k <= r.genres@.len(),
            genres@.len() == k,
            forall|j: int| 0 <= j < k ==> (#[trigger] genres@[j])@ == r.genres@[j]@,
        decreases r.genres@.len() - k,
    {
        genres.push(r.genres[k].clone());
        k = k + 1;
    }
    proof {
        assert(views(genres@) =~= views(r.genres@));
    }
    let vendor = match &r.vendor {
        Some(v) => Some(v.clone()),
        None => None,
    };
    Facts { year: r.year, vendor, genres, desc, source: Some("Macintosh Garden".to_string()) }
}

} // verus!
