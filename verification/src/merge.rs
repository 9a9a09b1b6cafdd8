//! Id-keyed JSONL datasets: applying the manual overrides overlay (overlay
//! fields win, or only fill gaps; complete overrides for titles not in the
//! dataset are appended), setting one override, upserting records by id,
//! merging newly compiled records into a disk's catalog within the device's
//! item limit, and writing a record back as one compact JSON line. Comment
//! and blank lines are kept. A record is a JSON object held as its fields,
//! each value as its compact JSON text.

use crate::keyed::{lemma_lookup_index, lemma_take_push_lookup, lookup, sorted_keys, Keyed};
use crate::text::same_str;
use vstd::prelude::*;

verus! {

/// A JSON object: its `id` when that is a string, and its fields (keys
/// ascending), each value as its compact JSON text.
#[derive(Clone, Debug)]
pub struct Record {
    pub id: Option<String>,
    pub fields: Keyed<String>,
}

/// A line of a JSONL file: kept as it is (a comment or a blank), or a record.
#[derive(Clone, Debug)]
pub enum Line {
    Raw(String),
    Rec(Record),
}

/// The text of a field, if the fields have it.
pub open spec fn field_text(e: Seq<(String, String)>, k: Seq<char>) -> Option<Seq<char>> {
    match lookup(e, k) {
        Some(v) => Some(v@),
        None => None,
    }
}

/// A field that is absent, null, an empty list or an empty string.
pub open spec fn missing_in(e: Seq<(String, String)>, k: Seq<char>) -> bool {
    match field_text(e, k) {
        Some(v) => v == "null"@ || v == "[]"@ || v == "\"\""@,
        None => true,
    }
}

/// The overlay's field `k` is taken: it is not the id, the overlay has it,
/// and the base lacks it when only gaps are filled.
pub open spec fn takes(base: Seq<(String, String)>, ov: Seq<(String, String)>, fill: bool, k: Seq<char>) -> bool {
    k != "id"@ && lookup(ov, k) is Some && (!fill || missing_in(base, k))
}

/// The base's field `k` after the overlay is applied.
pub open spec fn overlaid(base: Seq<(String, String)>, ov: Seq<(String, String)>, fill: bool, k: Seq<char>) -> Option<Seq<char>> {
    if takes(base, ov, fill, k) { field_text(ov, k) } else { field_text(base, k) }
}

/// How many of the overlay's first `j` fields change the base.
pub open spec fn changes_upto(base: Seq<(String, String)>, ov: Seq<(String, String)>, fill: bool, j: int) -> int
    decreases j,
{
    if j <= 0 {
        0
    } else {
        let k = ov[j - 1].0@;
        changes_upto(base, ov, fill, j - 1) + if k != "id"@ && (!fill || missing_in(base, k)) && field_text(base, k)
            != Some(ov[j - 1].1@) {
            1int
        } else {
            0
        }
    }
}

fn is_blank_value(v: &String) -> (r: bool)
    ensures
        r == (v@ == "null"@ || v@ == "[]"@ || v@ == "\"\""@),
{
    same_str(v.as_str(), "null") || same_str(v.as_str(), "[]") || same_str(v.as_str(), "\"\"")
}

fn missing_exec(e: &Keyed<String>, k: &str) -> (r: bool)
    ensures
        r == missing_in(e.entries@, k@),
{
    match e.get(k) {
        Some(v) => is_blank_value(v),
        None => true,
    }
}

/// Apply the overlay's fields (all but `id`) to the base's: each replaces
/// the base's, or with `fill` only fills a field the base lacks. Returns how
/// many fields changed.
pub fn apply(base: &mut Keyed<String>, ov: &Keyed<String>, fill: bool) -> (n: usize)
    requires
        old(base).wf(),
        ov.wf(),
    ensures
        final(base).wf(),
        forall|k: Seq<char>| #[trigger] field_text(final(base).entries@, k) == overlaid(old(base).entries@, ov.entries@, fill, k),
        n == changes_upto(old(base).entries@, ov.entries@, fill, ov.entries@.len() as int),
{
    let ghost b0 = base.entries@;
    let ghost oe = ov.entries@;
    let mut n: usize = 0;
    let mut j: usize = 0;
    while j < ov.entries.len()
        invariant
            j <= oe.len(),
            oe == ov.entries@,
            sorted_keys(oe),
            base.wf(),
            forall|k: Seq<char>| #[trigger] field_text(base.entries@, k) == overlaid(b0, oe.take(j as int), fill, k),
            n == changes_upto(b0, oe, fill, j as int),
            n <= j,
        decreases oe.len() - j,
    {
        let k = &ov.entries[j].0;
        let v = &ov.entries[j].1;
        let ghost bj = base.entries@;
        proof {
            assert forall|q: Seq<char>|
                #[trigger] lookup(oe.take(j + 1), q) == (if oe[j as int].0@ == q { Some(oe[j as int].1) } else { lookup(oe.take(j as int), q) }) by {
                lemma_take_push_lookup(oe, j as int, q);
            }
            lemma_take_absent(oe, j as int);
            assert(field_text(base.entries@, k@) == field_text(b0, k@));
        }
        if !same_str(k.as_str(), "id") && (!fill || missing_exec(base, k.as_str())) {
            let differs = match base.get(k.as_str()) {
                Some(c) => !same_str(c.as_str(), v.as_str()),
                None => true,
            };
            if differs {
                base.insert(k.clone(), v.clone());
                n = n + 1;
            }
        }
        proof {
            assert(oe[j as int].0 == *k && oe[j as int].1 == *v);
            assert forall|q: Seq<char>| #[trigger] field_text(base.entries@, q) == overlaid(b0, oe.take(j + 1), fill, q) by {
                if q != k@ {
                    assert(lookup(oe.take(j + 1), q) == lookup(oe.take(j as int), q));
                    assert(field_text(base.entries@, q) == field_text(bj, q));
                } else {
                    assert(lookup(oe.take(j + 1), q) == Some(oe[j as int].1));
                }
            }
            assert(changes_upto(b0, oe, fill, j + 1) == changes_upto(b0, oe, fill, j as int) + if k@ != "id"@ && (!fill
                || missing_in(b0, k@)) && field_text(b0, k@) != Some(v@) {
                1int
            } else {
                0
            });
        }
        j = j + 1;
    }
    assert(oe.take(j as int) =~= oe);
    n
}

/// A key of the first `j` entries of sorted fields is not the `j`-th's.
pub proof fn lemma_take_absent(oe: Seq<(String, String)>, j: int)
    requires
        sorted_keys(oe),
        0 <= j < oe.len(),
    ensures
        lookup(oe.take(j), oe[j].0@) is None,
{
    assert forall|i: int| 0 <= i < oe.take(j).len() implies (#[trigger] oe.take(j)[i]).0@ != oe[j].0@ by {
        assert(oe.take(j)[i] == oe[i]);
        crate::keyed::lemma_key_lt_total(oe[i].0@, oe[j].0@);
    }
    crate::keyed::lemma_lookup_absent(oe.take(j), oe[j].0@);
}

// ---- merging a compiled catalog -------------------------------------------

/// The id text of a record, if it has one.
pub open spec fn id_text(r: Record) -> Option<Seq<char>> {
    match r.id {
        Some(s) => Some(s@),
        None => None,
    }
}

/// The last position of a record with id `id`.
pub open spec fn last_index(m: Seq<Record>, id: Seq<char>) -> Option<int>
    decreases m.len(),
{
    if m.len() == 0 {
        None
    } else if id_text(m.last()) == Some(id) {
        Some(m.len() - 1)
    } else {
        last_index(m.drop_last(), id)
    }
}

/// A catalog after taking one more new record, with the records added and
/// updated: a record without an id is passed over; one whose id the catalog
/// has replaces the last record with that id; any other is appended.
pub open spec fn merge_step(m: (Seq<Record>, int, int), rec: Record) -> (Seq<Record>, int, int) {
    match id_text(rec) {
        None => m,
        Some(id) => match last_index(m.0, id) {
            Some(i) => (m.0.update(i, rec), m.1, m.2 + 1),
            None => (m.0.push(rec), m.1 + 1, m.2),
        },
    }
}

/// The catalog after the first `k` new records, with the counts of records
/// added and updated.
pub open spec fn merged_upto(existing: Seq<Record>, added: Seq<Record>, k: int) -> (Seq<Record>, int, int)
    decreases k,
{
    if k <= 0 { (existing, 0, 0) } else { merge_step(merged_upto(existing, added, k - 1), added[k - 1]) }
}

proof fn lemma_last_index_at(m: Seq<Record>, id: Seq<char>, p: int)
    requires
        0 <= p < m.len(),
        id_text(m[p]) == Some(id),
        forall|j: int| p < j < m.len() ==> id_text(#[trigger] m[j]) != Some(id),
    ensures
        last_index(m, id) == Some(p),
    decreases m.len(),
{
    if p < m.len() - 1 {
        assert(id_text(m[m.len() - 1]) != Some(id));
        assert forall|j: int| p < j < m.drop_last().len() implies id_text(#[trigger] m.drop_last()[j]) != Some(id) by {
            assert(m.drop_last()[j] == m[j]);
        }
        assert(m.drop_last()[p] == m[p]);
        lemma_last_index_at(m.drop_last(), id, p);
    }
}

proof fn lemma_last_index_none(m: Seq<Record>, id: Seq<char>)
    requires
        forall|j: int| 0 <= j < m.len() ==> id_text(#[trigger] m[j]) != Some(id),
    ensures
        last_index(m, id) is None,
    decreases m.len(),
{
    if m.len() > 0 {
        assert(id_text(m[m.len() - 1]) != Some(id));
        assert forall|j: int| 0 <= j < m.drop_last().len() implies id_text(#[trigger] m.drop_last()[j]) != Some(id) by {
            assert(m.drop_last()[j] == m[j]);
        }
        lemma_last_index_none(m.drop_last(), id);
    }
}

fn find_last(m: &Vec<Record>, id: &str) -> (r: Option<usize>)
    ensures
        r matches Some(i) ==> i < m@.len(),
        match last_index(m@, id@) {
            Some(i) => r matches Some(y) && y as int == i,
            None => r is None,
        },
{
    let mut p: usize = m.len();
    while p > 0
        invariant
            p <= m@.len(),
            forall|j: int| p <= j < m@.len() ==> id_text(#[trigger] m@[j]) != Some(id@),
        decreases p,
    {
        let hit = match &m[p - 1].id {
            Some(s) => same_str(s.as_str(), id),
            None => false,
        };
        if hit {
            proof {
                lemma_last_index_at(m@, id@, p - 1);
            }
            return Some(p - 1);
        }
        p = p - 1;
    }
    proof {
        lemma_last_index_none(m@, id@);
    }
    None
}

fn locate(m: &Vec<Record>, rec: &Record) -> (r: Option<Option<usize>>)
    ensures
        match id_text(*rec) {
            None => r is None,
            Some(id) => r matches Some(x) && match last_index(m@, id) {
                Some(i) => x matches Some(y) && y as int == i,
                None => x is None,
            },
        },
        r matches Some(Some(i)) ==> i < m@.len(),
{
    match &rec.id {
        None => None,
        Some(id) => Some(find_last(m, id.as_str())),
    }
}

/// Too many records for the device: the merged catalog's length.
#[derive(Clone, Copy, Debug, PartialEq, Eq, Structural)]
pub struct OverCap {
    pub items: usize,
}

/// Merge newly compiled records into a disk's catalog: the existing order is
/// kept, a re-added id replaces its record, new ids are appended, records
/// without an id are passed over. Gives the catalog with the counts of
/// records added and updated, or the catalog's length when it would pass
/// the device's item limit.
pub fn merge_catalog(existing: Vec<Record>, added: Vec<Record>) -> (r: Result<(Vec<Record>, usize, usize), OverCap>)
    ensures
        match r {
            Ok((m, a, u)) => merged_upto(existing@, added@, added@.len() as int) == (m@, a as int, u as int)
                && m@.len() <= crate::catalog::MAX_ITEMS,
            Err(e) => e.items == merged_upto(existing@, added@, added@.len() as int).0.len()
                && e.items > crate::catalog::MAX_ITEMS,
        },
{
    let mut m = existing;
    let mut n_add: usize = 0;
    let mut n_upd: usize = 0;
    let ghost a0 = added@;
    let alen = added.len();
    let mut rest = added;
    let mut k: usize = 0;
    while rest.len() > 0
        invariant
            k <= a0.len(),
            rest@ == a0.skip(k as int),
            rest@.len() == a0.len() - k,
            a0.len() == alen,
            merged_upto(existing@, a0, k as int) == (m@, n_add as int, n_upd as int),
            m@.len() <= existing@.len() + k,
            n_add + n_upd <= k,
        decreases rest@.len(),
    {
        let rec = rest.remove(0);
        let ghost prev = (m@, n_add as int, n_upd as int);
        let ghost rv = rec;
        proof {
            assert(rec == a0[k as int]);
            assert(merged_upto(existing@, a0, k + 1) == merge_step(prev, rv));
        }
        let found = locate(&m, &rec);
        match found {
            None => {},
            Some(Some(i)) => {
                proof {
                    assert(id_text(rv) is Some && last_index(prev.0, id_text(rv)->0) == Some(i as int));
                }
                m.set(i, rec);
                n_upd = n_upd + 1;
                proof {
                    assert(m@ =~= prev.0.update(i as int, rv));
                }
            },
            Some(None) => {
                proof {
                    assert(id_text(rv) is Some && last_index(prev.0, id_text(rv)->0) is None);
                }
                m.push(rec);
                n_add = n_add + 1;
                proof {
                    assert(m@ =~= prev.0.push(rv));
                }
            },
        }
        proof {
            assert(merge_step(prev, rv) == (m@, n_add as int, n_upd as int));
        }
        k = k + 1;
        proof {
            assert(rest@ =~= a0.skip(k as int));
        }
    }
    proof {
        assert(a0.skip(k as int).len() == 0);
    }
    let len = m.len();
    if len > crate::catalog::MAX_ITEMS {
        Err(OverCap { items: len })
    } else {
        Ok((m, n_add, n_upd))
    }
}

// ---- upserting records into a dataset -----------------------------------------

/// A record as plain values: its id and its fields.
pub open spec fn rec_view(r: Record) -> (Option<Seq<char>>, Seq<(String, String)>) {
    (id_text(r), r.fields.entries@)
}

/// A line as plain values: the kept text, or the record.
pub enum LineView {
    Raw(Seq<char>),
    Rec((Option<Seq<char>>, Seq<(String, String)>)),
}

pub open spec fn line_view(l: Line) -> LineView {
    match l {
        Line::Raw(t) => LineView::Raw(t@),
        Line::Rec(r) => LineView::Rec(rec_view(r)),
    }
}

pub open spec fn line_views(v: Seq<Line>) -> Seq<LineView> {
    v.map_values(|l: Line| line_view(l))
}

/// A copy of a record's fields.
pub fn copy_fields(f: &Keyed<String>) -> (c: Keyed<String>)
    ensures
        c.entries@ == f.entries@,
{
    let mut es: Vec<(String, String)> = Vec::new();
    let mut k: usize = 0;
    while k < f.entries.len()
        invariant
            k <= f.entries@.len(),
            es@ == f.entries@.take(k as int),
        decreases f.entries@.len() - k,
    {
        let e = (f.entries[k].0.clone(), f.entries[k].1.clone());
        es.push(e);
        k = k + 1;
        proof {
            assert(es@ =~= f.entries@.take(k as int));
        }
    }
    proof {
        assert(f.entries@.take(k as int) =~= f.entries@);
    }
    Keyed { entries: es }
}

/// A copy of a record.
pub fn copy_record(r: &Record) -> (c: Record)
    ensures
        rec_view(c) == rec_view(*r),
{
    let id = match &r.id {
        Some(s) => Some(s.clone()),
        None => None,
    };
    let mut es: Vec<(String, String)> = Vec::new();
    let mut k: usize = 0;
    while k < r.fields.entries.len()
        invariant
            k <= r.fields.entries@.len(),
            es@ == r.fields.entries@.take(k as int),
        decreases r.fields.entries@.len() - k,
    {
        let e = (r.fields.entries[k].0.clone(), r.fields.entries[k].1.clone());
        es.push(e);
        k = k + 1;
        proof {
            assert(es@ =~= r.fields.entries@.take(k as int));
        }
    }
    proof {
        assert(r.fields.entries@.take(k as int) =~= r.fields.entries@);
    }
    Record { id, fields: Keyed { entries: es } }
}

/// The last of `recs` with id `id`.
pub open spec fn rec_for(recs: Seq<Record>, id: Seq<char>) -> Option<Record>
    decreases recs.len(),
{
    if recs.len() == 0 {
        None
    } else if id_text(recs.last()) == Some(id) {
        Some(recs.last())
    } else {
        rec_for(recs.drop_last(), id)
    }
}

/// A record line of `base` has id `id`.
pub open spec fn base_has(base: Seq<Line>, id: Seq<char>) -> bool {
    exists|i: int| 0 <= i < base.len() && (#[trigger] base[i] matches Line::Rec(r) && id_text(r) == Some(id))
}

/// A line after the upsert: a record whose id some new record has becomes
/// the last such new record; every other line stays.
pub open spec fn upsert_line(l: Line, recs: Seq<Record>) -> LineView {
    match l {
        Line::Rec(r) => match id_text(r) {
            Some(id) => match rec_for(recs, id) {
                Some(x) => LineView::Rec(rec_view(x)),
                None => line_view(l),
            },
            None => line_view(l),
        },
        Line::Raw(_) => line_view(l),
    }
}

/// The new records of the first `k` appended: those without an id or whose
/// id no record of the dataset has, in order.
pub open spec fn upsert_tail(base: Seq<Line>, recs: Seq<Record>, k: int) -> Seq<LineView>
    decreases k,
{
    if k <= 0 {
        Seq::empty()
    } else {
        let t = upsert_tail(base, recs, k - 1);
        match id_text(recs[k - 1]) {
            Some(id) => if base_has(base, id) { t } else { t.push(LineView::Rec(rec_view(recs[k - 1]))) },
            None => t.push(LineView::Rec(rec_view(recs[k - 1]))),
        }
    }
}

/// The dataset after upserting `recs`: each line as `upsert_line` makes it,
/// then the appended new records.
pub open spec fn upserted(base: Seq<Line>, recs: Seq<Record>) -> Seq<LineView> {
    base.map_values(|l: Line| upsert_line(l, recs)) + upsert_tail(base, recs, recs.len() as int)
}

fn find_rec(recs: &Vec<Record>, id: &str) -> (r: Option<usize>)
    ensures
        match rec_for(recs@, id@) {
            Some(x) => r matches Some(i) && i < recs@.len() && recs@[i as int] == x,
            None => r is None,
        },
{
    let mut p: usize = recs.len();
    assert(recs@.take(recs@.len() as int) =~= recs@);
    while p > 0
        invariant
            p <= recs@.len(),
            rec_for(recs@, id@) == rec_for(recs@.take(p as int), id@),
        decreases p,
    {
        proof {
            assert(recs@.take(p as int).drop_last() =~= recs@.take(p - 1));
            assert(recs@.take(p as int).last() == recs@[p - 1]);
        }
        let hit = match &recs[p - 1].id {
            Some(s) => same_str(s.as_str(), id),
            None => false,
        };
        if hit {
            return Some(p - 1);
        }
        p = p - 1;
    }
    None
}

fn base_has_exec(base: &Vec<Line>, id: &str) -> (r: bool)
    ensures
        r == base_has(base@, id@),
{
    let mut i: usize = 0;
    while i < base.len()
        invariant
            i <= base@.len(),
            forall|j: int| 0 <= j < i ==> !(#[trigger] base@[j] matches Line::Rec(r) && id_text(r) == Some(id@)),
        decreases base@.len() - i,
    {
        match &base[i] {
            Line::Rec(r) => match &r.id {
                Some(s) => {
                    if same_str(s.as_str(), id) {
                        return true;
                    }
                },
                None => {},
            },
            Line::Raw(_) => {},
        }
        i = i + 1;
    }
    false
}

/// Upsert id-keyed records into a dataset's lines: a record line whose id a
/// new record has is replaced by the last such record (so re-importing a
/// capture updates it in place rather than duplicating it); the other new
/// records are appended in order; comments and blank lines stay.
pub fn upsert_records(base: &Vec<Line>, recs: &Vec<Record>) -> (r: Vec<Line>)
    ensures
        line_views(r@) == upserted(base@, recs@),
{
    let mut out: Vec<Line> = Vec::new();
    let mut i: usize = 0;
    while i < base.len()
        invariant
            i <= base@.len(),
            line_views(out@) == base@.take(i as int).map_values(|l: Line| upsert_line(l, recs@)),
        decreases base@.len() - i,
    {
        let l = match &base[i] {
            Line::Raw(t) => Line::Raw(t.clone()),
            Line::Rec(r) => match &r.id {
                Some(id) => match find_rec(recs, id.as_str()) {
                    Some(k) => Line::Rec(copy_record(&recs[k])),
                    None => Line::Rec(copy_record(r)),
                },
                None => Line::Rec(copy_record(r)),
            },
        };
        proof {
            assert(line_view(l) == upsert_line(base@[i as int], recs@));
        }
        let ghost before = out@;
        out.push(l);
        i = i + 1;
        proof {
            assert(line_views(out@) =~= line_views(before).push(line_view(l)));
            assert(line_views(out@) =~= base@.take(i as int).map_values(|l: Line| upsert_line(l, recs@)));
        }
    }
    proof {
        assert(base@.take(i as int) =~= base@);
    }
    let ghost head = line_views(out@);
    let mut k: usize = 0;
    while k < recs.len()
        invariant
            k <= recs@.len(),
            head == base@.map_values(|l: Line| upsert_line(l, recs@)),
            line_views(out@) == head + upsert_tail(base@, recs@, k as int),
        decreases recs@.len() - k,
    {
        let add = match &recs[k].id {
            Some(id) => !base_has_exec(base, id.as_str()),
            None => true,
        };
        let ghost before = out@;
        if add {
            let c = copy_record(&recs[k]);
            out.push(Line::Rec(c));
            proof {
                assert(line_views(out@) =~= line_views(before).push(LineView::Rec(rec_view(recs@[k as int]))));
            }
        }
        k = k + 1;
        proof {
            assert(line_views(out@) =~= head + upsert_tail(base@, recs@, k as int));
        }
    }
    out
}

/// Every new record has an id, each its own.
pub open spec fn distinct_ids(recs: Seq<Record>) -> bool {
    &&& forall|k: int| 0 <= k < recs.len() ==> (#[trigger] id_text(recs[k])) is Some
    &&& forall|a: int, b: int| 0 <= a < b < recs.len() ==> id_text(#[trigger] recs[a]) != id_text(#[trigger] recs[b])
}

proof fn lemma_rec_for_own(recs: Seq<Record>, k: int)
    requires
        distinct_ids(recs),
        0 <= k < recs.len(),
    ensures
        rec_for(recs, id_text(recs[k])->0) == Some(recs[k]),
    decreases recs.len(),
{
    let id = id_text(recs[k])->0;
    if k < recs.len() - 1 {
        assert(id_text(recs.last()) != id_text(recs[k]));
        let d = recs.drop_last();
        assert(d[k] == recs[k]);
        assert forall|a: int, b: int| 0 <= a < b < d.len() implies id_text(#[trigger] d[a]) != id_text(#[trigger] d[b]) by {
            assert(d[a] == recs[a] && d[b] == recs[b]);
        }
        assert forall|q: int| 0 <= q < d.len() implies (#[trigger] id_text(d[q])) is Some by {
            assert(d[q] == recs[q]);
        }
        lemma_rec_for_own(d, k);
    }
}

/// What the appended part holds: new records, and every new record whose id
/// the dataset lacks.
proof fn lemma_tail_members(base: Seq<Line>, recs: Seq<Record>, k: int)
    requires
        0 <= k <= recs.len(),
    ensures
        forall|j: int| 0 <= j < upsert_tail(base, recs, k).len() ==> exists|q: int|
            0 <= q < k && #[trigger] upsert_tail(base, recs, k)[j] == LineView::Rec(rec_view(#[trigger] recs[q])),
        forall|q: int| 0 <= q < k && (id_text(recs[q]) is None || !base_has(base, id_text(recs[q])->0)) ==> exists|j: int|
            0 <= j < upsert_tail(base, recs, k).len() && #[trigger] upsert_tail(base, recs, k)[j] == LineView::Rec(rec_view(#[trigger] recs[q])),
    decreases k,
{
    if k > 0 {
        lemma_tail_members(base, recs, k - 1);
        let t = upsert_tail(base, recs, k - 1);
        let t2 = upsert_tail(base, recs, k);
        assert forall|j: int| 0 <= j < t2.len() implies exists|q: int|
            0 <= q < k && #[trigger] t2[j] == LineView::Rec(rec_view(#[trigger] recs[q])) by {
            if j < t.len() {
                assert(t2[j] == t[j]);
                let q = choose|q: int| 0 <= q < k - 1 && #[trigger] t[j] == LineView::Rec(rec_view(#[trigger] recs[q]));
                assert(t2[j] == LineView::Rec(rec_view(recs[q])));
            } else {
                assert(t2[j] == LineView::Rec(rec_view(recs[k - 1])));
            }
        }
        assert forall|q: int| 0 <= q < k && (id_text(recs[q]) is None || !base_has(base, id_text(recs[q])->0)) implies exists|j: int|
            0 <= j < t2.len() && #[trigger] t2[j] == LineView::Rec(rec_view(#[trigger] recs[q])) by {
            if q < k - 1 {
                let j = choose|j: int| 0 <= j < t.len() && #[trigger] t[j] == LineView::Rec(rec_view(#[trigger] recs[q]));
                assert(t2[j] == t[j]);
            } else {
                assert(t2[t.len() as int] == LineView::Rec(rec_view(recs[q])));
            }
        }
    }
}

/// Upserting the same records again changes nothing: a re-run of an import
/// (or of anything else that upserts by id) is idempotent, when the records
/// carry distinct ids.
pub proof fn lemma_upsert_idempotent(base: Seq<Line>, recs: Seq<Record>, out: Seq<Line>)
    requires
        distinct_ids(recs),
        line_views(out) == upserted(base, recs),
    ensures
        upserted(out, recs) == line_views(out),
{
    let n = recs.len() as int;
    let m = base.map_values(|l: Line| upsert_line(l, recs));
    let t = upsert_tail(base, recs, n);
    lemma_tail_members(base, recs, n);
    assert(line_views(out).len() == out.len());
    assert(out.len() == base.len() + t.len());
    // every new record's id is on some record line of `out`
    assert forall|k: int| 0 <= k < n implies base_has(out, #[trigger] id_text(recs[k])->0) by {
        let id = id_text(recs[k])->0;
        if base_has(base, id) {
            let i = choose|i: int| 0 <= i < base.len() && (#[trigger] base[i] matches Line::Rec(r) && id_text(r) == Some(id));
            assert(line_views(out)[i] == m[i]);
            assert(line_view(out[i]) == upsert_line(base[i], recs));
            lemma_rec_for_own(recs, k);
            assert(out[i] matches Line::Rec(r) && id_text(r) == Some(id));
        } else {
            let j = choose|j: int| 0 <= j < t.len() && #[trigger] t[j] == LineView::Rec(rec_view(#[trigger] recs[k]));
            let i = base.len() + j;
            assert(line_views(out)[i] == t[j]);
            assert(line_view(out[i]) == LineView::Rec(rec_view(recs[k])));
            assert(out[i] matches Line::Rec(r) && id_text(r) == Some(id));
        }
    }
    assert forall|k: int| 0 <= k <= n implies #[trigger] upsert_tail(out, recs, k) == Seq::<LineView>::empty() by {
        lemma_tail_empty(out, recs, k);
    }
    // every line of `out` upserts to itself
    assert forall|i: int| 0 <= i < out.len() implies #[trigger] upsert_line(out[i], recs) == line_view(out[i]) by {
        assert(line_views(out)[i] == line_view(out[i]));
        match out[i] {
            Line::Raw(_) => {},
            Line::Rec(r) => {
                if id_text(r) is Some {
                    let id = id_text(r)->0;
                    if i < base.len() {
                        assert(line_view(out[i]) == upsert_line(base[i], recs));
                        match base[i] {
                            Line::Raw(_) => {},
                            Line::Rec(b) => {
                                match id_text(b) {
                                    Some(idb) => {
                                        match rec_for(recs, idb) {
                                            Some(x) => {
                                                lemma_rec_for_id(recs, idb);
                                                assert(rec_view(r) == rec_view(x));
                                                assert(id == idb);
                                            },
                                            None => {
                                                assert(rec_view(r) == rec_view(b));
                                            },
                                        }
                                    },
                                    None => {
                                        assert(rec_view(r) == rec_view(b));
                                    },
                                }
                            },
                        }
                    } else {
                        let j = i - base.len();
                        assert(line_views(out)[i] == t[j]);
                        let q = choose|q: int| 0 <= q < n && #[trigger] t[j] == LineView::Rec(rec_view(#[trigger] recs[q]));
                        lemma_rec_for_own(recs, q);
                        assert(rec_view(r) == rec_view(recs[q]));
                        assert(id_text(recs[q]) == Some(id));
                    }
                }
            },
        }
    }
    assert(out.map_values(|l: Line| upsert_line(l, recs)) =~= line_views(out));
    assert(upserted(out, recs) =~= line_views(out));
}

proof fn lemma_rec_for_id(recs: Seq<Record>, id: Seq<char>)
    ensures
        rec_for(recs, id) matches Some(x) ==> id_text(x) == Some(id),
    decreases recs.len(),
{
    if recs.len() > 0 {
        lemma_rec_for_id(recs.drop_last(), id);
    }
}

proof fn lemma_tail_empty(base: Seq<Line>, recs: Seq<Record>, k: int)
    requires
        0 <= k <= recs.len(),
        forall|q: int| 0 <= q < recs.len() ==> (#[trigger] id_text(recs[q])) is Some,
        forall|q: int| 0 <= q < recs.len() ==> base_has(base, #[trigger] id_text(recs[q])->0),
    ensures
        upsert_tail(base, recs, k) == Seq::<LineView>::empty(),
    decreases k,
{
    if k > 0 {
        lemma_tail_empty(base, recs, k - 1);
        assert(id_text(recs[k - 1]) is Some);
        assert(base_has(base, id_text(recs[k - 1])->0));
    }
}

// ---- writing a record ----------------------------------------------------------

/// The members of a JSON object, `"key":value` joined by commas, for the
/// first `k` fields.
pub open spec fn members_text(e: Seq<(String, String)>, k: int) -> Seq<char>
    decreases k,
{
    if k <= 0 {
        Seq::empty()
    } else {
        let m = crate::json::json_quote(e[k - 1].0@) + seq![':'] + e[k - 1].1@;
        if k == 1 { m } else { members_text(e, k - 1) + seq![','] + m }
    }
}

/// A record's compact JSON text: its fields in key order.
pub open spec fn record_text(e: Seq<(String, String)>) -> Seq<char> {
    seq!['{'] + members_text(e, e.len() as int) + seq!['}']
}

/// The compact JSON text of a record, one line of a JSONL file.
pub fn record_json(r: &Record) -> (t: String)
    ensures
        t@ == record_text(r.fields.entries@),
{
    let e = &r.fields.entries;
    let mut t = String::new();
    crate::text::push_char(&mut t, '{');
    let mut k: usize = 0;
    while k < e.len()
        invariant
            k <= e@.len(),
            t@ == seq!['{'] + members_text(e@, k as int),
        decreases e@.len() - k,
    {
        if k > 0 {
            crate::text::push_char(&mut t, ',');
        }
        let q = crate::json::json_string(e[k].0.as_str());
        crate::text::append(&mut t, q.as_str());
        crate::text::push_char(&mut t, ':');
        crate::text::append(&mut t, e[k].1.as_str());
        k = k + 1;
        proof {
            let m = crate::json::json_quote(e@[k - 1].0@) + seq![':'] + e@[k - 1].1@;
            if k == 1 {
                assert(t@ =~= seq!['{'] + m);
            } else {
                assert(t@ =~= seq!['{'] + members_text(e@, k - 1) + seq![','] + m);
            }
        }
    }
    crate::text::push_char(&mut t, '}');
    t
}

/// Whether the fields lack `k` (absent, null, an empty list or an empty
/// string).
pub fn missing(fields: &Keyed<String>, k: &str) -> (r: bool)
    ensures
        r == missing_in(fields.entries@, k@),
{
    missing_exec(fields, k)
}

// ---- applying an overrides overlay to a dataset --------------------------------

/// What applying an overlay did.
#[derive(Clone, Copy, Debug, PartialEq, Eq, Structural)]
pub struct MergeReport {
    /// Dataset records an override applied to.
    pub applied: usize,
    /// Fields changed by them (held at the largest `usize`).
    pub changed: usize,
    /// Complete override records appended as new titles.
    pub added: usize,
    /// Partial override records for titles not in the dataset, passed over.
    pub skipped: usize,
}

/// An override record complete enough to stand as a new title: it has a
/// `name` and an `app`.
pub open spec fn complete(r: Record) -> bool {
    !missing_in(r.fields.entries@, "name"@) && !missing_in(r.fields.entries@, "app"@)
}

/// Overlay record `k` is the first with its id.
pub open spec fn first_of_id(ov: Seq<Record>, k: int) -> bool {
    forall|j: int| 0 <= j < k ==> id_text(#[trigger] ov[j]) != id_text(ov[k])
}

/// The first overlay record without an id, if any.
pub open spec fn first_without_id(ov: Seq<Record>, k: int) -> Option<int>
    decreases k,
{
    if k <= 0 {
        None
    } else {
        match first_without_id(ov, k - 1) {
            Some(i) => Some(i),
            None => if id_text(ov[k - 1]) is None { Some(k - 1) } else { None },
        }
    }
}

/// A dataset line and the line the overlay makes of it: kept text stays; a
/// record whose id the overlay has takes the last such override's fields
/// (all of them, or only where it lacks them with `fill`); any other record
/// stays.
pub open spec fn merged_line(b: Line, o: Line, ov: Seq<Record>, fill: bool) -> bool {
    match b {
        Line::Raw(t) => o matches Line::Raw(u) && u@ == t@,
        Line::Rec(r) => o matches Line::Rec(x) && x.id == r.id && match id_text(r) {
            Some(id) => match rec_for(ov, id) {
                Some(v) => x.fields.wf() && forall|k: Seq<char>|
                    #[trigger] field_text(x.fields.entries@, k) == overlaid(r.fields.entries@, v.fields.entries@, fill, k),
                None => rec_view(x) == rec_view(r),
            },
            None => rec_view(x) == rec_view(r),
        },
    }
}

/// The overrides the dataset's first `i` lines take, and the fields they change.
pub open spec fn applied_upto(base: Seq<Line>, ov: Seq<Record>, fill: bool, i: int) -> (int, int)
    decreases i,
{
    if i <= 0 {
        (0, 0)
    } else {
        let p = applied_upto(base, ov, fill, i - 1);
        match base[i - 1] {
            Line::Rec(r) => match id_text(r) {
                Some(id) => match rec_for(ov, id) {
                    Some(v) => (
                        p.0 + 1,
                        p.1 + changes_upto(r.fields.entries@, v.fields.entries@, fill, v.fields.entries@.len() as int),
                    ),
                    None => p,
                },
                None => p,
            },
            Line::Raw(_) => p,
        }
    }
}

/// The new titles among the first `k` overlay records: for each id first
/// seen there and held by no dataset record, its last override when that is
/// complete; with the number of incomplete ones passed over.
pub open spec fn added_upto(base: Seq<Line>, ov: Seq<Record>, k: int) -> (Seq<LineView>, int)
    decreases k,
{
    if k <= 0 {
        (Seq::empty(), 0)
    } else {
        let p = added_upto(base, ov, k - 1);
        let id = id_text(ov[k - 1]);
        if id is Some && first_of_id(ov, k - 1) && !base_has(base, id->0) {
            let last = rec_for(ov, id->0)->0;
            if complete(last) { (p.0.push(LineView::Rec(rec_view(last))), p.1) } else { (p.0, p.1 + 1) }
        } else {
            p
        }
    }
}

proof fn lemma_first_without_id_stays(ov: Seq<Record>, m: int, n: int)
    requires
        0 <= m <= n,
        first_without_id(ov, m) is Some,
    ensures
        first_without_id(ov, n) == first_without_id(ov, m),
    decreases n - m,
{
    if m < n {
        lemma_first_without_id_stays(ov, m, n - 1);
    }
}

proof fn lemma_rec_for_some(ov: Seq<Record>, k: int)
    requires
        0 <= k < ov.len(),
        id_text(ov[k]) is Some,
    ensures
        rec_for(ov, id_text(ov[k])->0) is Some,
    decreases ov.len(),
{
    if k < ov.len() - 1 && id_text(ov.last()) != id_text(ov[k]) {
        assert(ov.drop_last()[k] == ov[k]);
        lemma_rec_for_some(ov.drop_last(), k);
    }
}

fn is_first_of_id(ov: &Vec<Record>, k: usize) -> (r: bool)
    requires
        k < ov@.len(),
    ensures
        r == first_of_id(ov@, k as int),
{
    let mut j: usize = 0;
    while j < k
        invariant
            j <= k < ov@.len(),
            forall|q: int| 0 <= q < j ==> id_text(#[trigger] ov@[q]) != id_text(ov@[k as int]),
        decreases k - j,
    {
        let same = match (&ov[j].id, &ov[k].id) {
            (Some(a), Some(b)) => same_str(a.as_str(), b.as_str()),
            (None, None) => true,
            _ => false,
        };
        if same {
            return false;
        }
        j = j + 1;
    }
    true
}

/// Apply a manual overrides overlay to a dataset: an error naming the first
/// override without an id; else each record whose id has overrides takes the
/// last of them (overlay fields win, or with `fill` only fill gaps), comment
/// and blank lines stay, and complete overrides for titles not in the dataset
/// are appended (partial ones are passed over), with what was done.
pub fn merge_overlay(base: &Vec<Line>, ov: &Vec<Record>, fill: bool) -> (r: Result<(Vec<Line>, MergeReport), usize>)
    requires
        forall|i: int| 0 <= i < base@.len() ==> (#[trigger] base@[i] matches Line::Rec(x) ==> x.fields.wf()),
        forall|k: int| 0 <= k < ov@.len() ==> (#[trigger] ov@[k]).fields.wf(),
    ensures
        match first_without_id(ov@, ov@.len() as int) {
            Some(i) => r == Err::<(Vec<Line>, MergeReport), usize>(i as usize),
            None => r matches Ok((out, rep)) && {
                let added = added_upto(base@, ov@, ov@.len() as int);
                let ap = applied_upto(base@, ov@, fill, base@.len() as int);
                &&& out@.len() == base@.len() + added.0.len()
                &&& forall|i: int| 0 <= i < base@.len() ==> merged_line(#[trigger] base@[i], out@[i], ov@, fill)
                &&& forall|j: int| 0 <= j < added.0.len() ==> line_view(#[trigger] out@[base@.len() + j]) == added.0[j]
                &&& rep.applied == ap.0
                &&& rep.changed == if ap.1 > usize::MAX { usize::MAX as int } else { ap.1 }
                &&& rep.added == added.0.len()
                &&& rep.skipped == added.1
            },
        },
{
    let mut k: usize = 0;
    while k < ov.len()
        invariant
            k <= ov@.len(),
            first_without_id(ov@, k as int) is None,
        decreases ov@.len() - k,
    {
        if ov[k].id.is_none() {
            proof {
                assert(first_without_id(ov@, k + 1) == Some(k as int));
                lemma_first_without_id_stays(ov@, k + 1, ov@.len() as int);
            }
            return Err(k);
        }
        k = k + 1;
    }
    let mut out: Vec<Line> = Vec::new();
    let mut applied: usize = 0;
    let mut changed: usize = 0;
    let mut i: usize = 0;
    while i < base.len()
        invariant
            i <= base@.len(),
            out@.len() == i,
            forall|q: int| 0 <= q < base@.len() ==> (#[trigger] base@[q] matches Line::Rec(x) ==> x.fields.wf()),
            forall|q: int| 0 <= q < ov@.len() ==> (#[trigger] ov@[q]).fields.wf(),
            forall|q: int| 0 <= q < i ==> merged_line(#[trigger] base@[q], out@[q], ov@, fill),
            applied == applied_upto(base@, ov@, fill, i as int).0,
            applied <= i,
            changed == if applied_upto(base@, ov@, fill, i as int).1 > usize::MAX {
                usize::MAX as int
            } else {
                applied_upto(base@, ov@, fill, i as int).1
            },
            applied_upto(base@, ov@, fill, i as int).1 >= 0,
        decreases base@.len() - i,
    {
        let l = match &base[i] {
            Line::Raw(t) => Line::Raw(t.clone()),
            Line::Rec(b) => {
                let found = match &b.id {
                    Some(id) => find_rec(ov, id.as_str()),
                    None => None,
                };
                match found {
                    Some(k) => {
                        let mut c = copy_record(b);
                        proof {
                            assert(c.fields.entries@ == b.fields.entries@);
                        }
                        let n = apply(&mut c.fields, &ov[k].fields, fill);
                        applied = applied + 1;
                        changed = changed.saturating_add(n);
                        let cid = match &b.id {
                            Some(s) => Some(s.clone()),
                            None => None,
                        };
                        Line::Rec(Record { id: cid, fields: c.fields })
                    },
                    None => {
                        let c = copy_record(b);
                        let cid = match &b.id {
                            Some(s) => Some(s.clone()),
                            None => None,
                        };
                        Line::Rec(Record { id: cid, fields: c.fields })
                    },
                }
            },
        };
        let ghost before = out@;
        out.push(l);
        proof {
            assert forall|q: int| 0 <= q < i + 1 implies merged_line(#[trigger] base@[q], out@[q], ov@, fill) by {
                if q < i {
                    assert(out@[q] == before[q]);
                }
            }
        }
        i = i + 1;
    }
    let ghost head = out@;
    let mut added: usize = 0;
    let mut skipped: usize = 0;
    let mut k: usize = 0;
    while k < ov.len()
        invariant
            k <= ov@.len(),
            out@.len() == base@.len() + added_upto(base@, ov@, k as int).0.len(),
            forall|q: int| 0 <= q < base@.len() ==> out@[q] == head[q],
            head.len() == base@.len(),
            forall|j: int| 0 <= j < added_upto(base@, ov@, k as int).0.len() ==> line_view(#[trigger] out@[base@.len() + j])
                == added_upto(base@, ov@, k as int).0[j],
            added == added_upto(base@, ov@, k as int).0.len(),
            skipped == added_upto(base@, ov@, k as int).1,
            added + skipped <= k,
            forall|q: int| 0 <= q < ov@.len() ==> (#[trigger] ov@[q]).fields.wf(),
        decreases ov@.len() - k,
    {
        let ghost before = out@;
        let ghost prev = added_upto(base@, ov@, k as int);
        let fresh = match &ov[k].id {
            Some(id) => is_first_of_id(ov, k) && !base_has_exec(base, id.as_str()),
            None => false,
        };
        if fresh {
            let id = match &ov[k].id {
                Some(s) => s.as_str(),
                None => "",
            };
            proof {
                lemma_rec_for_some(ov@, k as int);
                assert(id@ == id_text(ov@[k as int])->0);
            }
            match find_rec(ov, id) {
                Some(last) => {
                    let name_missing = missing(&ov[last].fields, "name");
                    let app_missing = missing(&ov[last].fields, "app");
                    let ghost lv = ov@[last as int];
                    proof {
                        assert(rec_for(ov@, id@) == Some(lv));
                        assert(complete(lv) == (!name_missing && !app_missing));
                    }
                    if !name_missing && !app_missing {
                        let c = copy_record(&ov[last]);
                        out.push(Line::Rec(c));
                        added = added + 1;
                        proof {
                            assert(added_upto(base@, ov@, k + 1) == (prev.0.push(LineView::Rec(rec_view(lv))), prev.1));
                            assert(line_view(out@[(base@.len() + prev.0.len()) as int]) == LineView::Rec(rec_view(lv)));
                        }
                    } else {
                        skipped = skipped + 1;
                        proof {
                            assert(added_upto(base@, ov@, k + 1) == (prev.0, prev.1 + 1));
                        }
                    }
                },
                None => {},
            }
        } else {
            proof {
                assert(added_upto(base@, ov@, k + 1) == prev);
            }
        }
        proof {
            assert forall|j: int| 0 <= j < added_upto(base@, ov@, k + 1).0.len() implies line_view(#[trigger] out@[base@.len() + j])
                == added_upto(base@, ov@, k + 1).0[j] by {
                if j < prev.0.len() {
                    assert(out@[base@.len() + j] == before[base@.len() + j]);
                }
            }
        }
        k = k + 1;
    }
    Ok((out, MergeReport { applied, changed, added, skipped }))
}

/// The record text a JSONL line holds, trimmed: none for a blank line or a
/// comment (`#` or `//`).
pub open spec fn record_text_of(line: Seq<char>) -> Option<Seq<char>> {
    let t = crate::text::trim_seq(line);
    if t.len() == 0 || t[0] == '#' || (t.len() >= 2 && t[0] == '/' && t[1] == '/') { None } else { Some(t) }
}

/// The record text of a JSONL line, trimmed; none for a blank or comment line.
pub fn record_text_in(line: &str) -> (r: Option<String>)
    ensures
        match record_text_of(line@) {
            Some(t) => r matches Some(x) && x@ == t,
            None => r is None,
        },
{
    let t = crate::text::trim_str(line);
    let cs = crate::text::chars_of(t.as_str());
    if cs.len() == 0 || cs[0] == '#' || (cs.len() >= 2 && cs[0] == '/' && cs[1] == '/') {
        None
    } else {
        Some(t)
    }
}

// ---- setting one override -----------------------------------------------------

/// A line after setting fields `fs` on the override `id`: a record with that
/// id takes every field (but `id`) from `fs`; any other line stays.
pub open spec fn set_line(b: Line, o: Line, id: Seq<char>, fs: Seq<(String, String)>) -> bool {
    match b {
        Line::Raw(t) => o matches Line::Raw(u) && u@ == t@,
        Line::Rec(r) => o matches Line::Rec(x) && x.id == r.id && if id_text(r) == Some(id) {
            x.fields.wf() && forall|k: Seq<char>| #[trigger] field_text(x.fields.entries@, k) == overlaid(r.fields.entries@, fs, false, k)
        } else {
            rec_view(x) == rec_view(r)
        },
    }
}

/// A new override record: the id, and the fields (with the id's own).
pub open spec fn new_override(l: Line, id: Seq<char>, fs: Seq<(String, String)>) -> bool {
    l matches Line::Rec(x) && x.id matches Some(s) && s@ == id && x.fields.wf() && forall|k: Seq<char>|
        #[trigger] field_text(x.fields.entries@, k) == if k == "id"@ {
            Some(crate::json::json_quote(id))
        } else {
            field_text(fs, k)
        }
}

/// The fields changed on the override records of the first `i` lines.
pub open spec fn set_changes_upto(base: Seq<Line>, id: Seq<char>, fs: Seq<(String, String)>, i: int) -> int
    decreases i,
{
    if i <= 0 {
        0
    } else {
        set_changes_upto(base, id, fs, i - 1) + match base[i - 1] {
            Line::Rec(r) => if id_text(r) == Some(id) { changes_upto(r.fields.entries@, fs, false, fs.len() as int) } else { 0 },
            Line::Raw(_) => 0,
        }
    }
}

/// Set fields on one override in an overlay's lines (the way to record what
/// no catalog carries: the colour and mouse facets, corrections): every
/// record with that id takes the fields; without one, a record of the id and
/// the fields is appended. Gives the lines, whether the id was there, and the
/// number of fields changed (held at the largest `usize`; all of them for a
/// new record).
pub fn set_override(base: &Vec<Line>, id: &str, fields: &Keyed<String>) -> (r: (Vec<Line>, bool, usize))
    requires
        forall|i: int| 0 <= i < base@.len() ==> (#[trigger] base@[i] matches Line::Rec(x) ==> x.fields.wf()),
        fields.wf(),
    ensures
        r.1 == base_has(base@, id@),
        r.0@.len() == base@.len() + if r.1 { 0int } else { 1int },
        forall|i: int| 0 <= i < base@.len() ==> set_line(#[trigger] base@[i], r.0@[i], id@, fields.entries@),
        !r.1 ==> new_override(r.0@[base@.len() as int], id@, fields.entries@),
        r.1 ==> r.2 == if set_changes_upto(base@, id@, fields.entries@, base@.len() as int) > usize::MAX {
            usize::MAX as int
        } else {
            set_changes_upto(base@, id@, fields.entries@, base@.len() as int)
        },
        !r.1 ==> r.2 == fields.entries@.len(),
{
    let mut out: Vec<Line> = Vec::new();
    let mut found = false;
    let mut changed: usize = 0;
    let mut i: usize = 0;
    while i < base.len()
        invariant
            i <= base@.len(),
            out@.len() == i,
            fields.wf(),
            forall|q: int| 0 <= q < base@.len() ==> (#[trigger] base@[q] matches Line::Rec(x) ==> x.fields.wf()),
            forall|q: int| 0 <= q < i ==> set_line(#[trigger] base@[q], out@[q], id@, fields.entries@),
            found == exists|q: int| 0 <= q < i && (#[trigger] base@[q] matches Line::Rec(x) && id_text(x) == Some(id@)),
            changed == if set_changes_upto(base@, id@, fields.entries@, i as int) > usize::MAX {
                usize::MAX as int
            } else {
                set_changes_upto(base@, id@, fields.entries@, i as int)
            },
            set_changes_upto(base@, id@, fields.entries@, i as int) >= 0,
        decreases base@.len() - i,
    {
        let l = match &base[i] {
            Line::Raw(t) => Line::Raw(t.clone()),
            Line::Rec(b) => {
                let hit = match &b.id {
                    Some(s) => same_str(s.as_str(), id),
                    None => false,
                };
                let mut c = copy_record(b);
                let cid = match &b.id {
                    Some(s) => Some(s.clone()),
                    None => None,
                };
                if hit {
                    proof {
                        assert(c.fields.entries@ == b.fields.entries@);
                    }
                    let n = apply(&mut c.fields, fields, false);
                    changed = changed.saturating_add(n);
                    found = true;
                }
                Line::Rec(Record { id: cid, fields: c.fields })
            },
        };
        let ghost before = out@;
        out.push(l);
        proof {
            assert forall|q: int| 0 <= q < i + 1 implies set_line(#[trigger] base@[q], out@[q], id@, fields.entries@) by {
                if q < i {
                    assert(out@[q] == before[q]);
                }
            }
        }
        i = i + 1;
    }
    proof {
        assert(found == base_has(base@, id@));
    }
    if !found {
        let mut f: Keyed<String> = Keyed::new();
        let ik = "id".to_string();
        proof {
            reveal_strlit("id");
        }
        f.insert(ik, crate::json::json_string(id));
        let ghost f0 = f.entries@;
        proof {
            assert forall|k: Seq<char>| #[trigger] field_text(f0, k) == if k == "id"@ {
                Some(crate::json::json_quote(id@))
            } else {
                None
            } by {
                if k != "id"@ {
                    assert(lookup(f0, k) == lookup(Seq::<(String, String)>::empty(), k));
                }
            }
        }
        let _n = apply(&mut f, fields, false);
        proof {
            assert forall|k: Seq<char>| #[trigger] field_text(f.entries@, k) == if k == "id"@ {
                Some(crate::json::json_quote(id@))
            } else {
                field_text(fields.entries@, k)
            } by {
                assert(field_text(f.entries@, k) == overlaid(f0, fields.entries@, false, k));
                assert(field_text(f0, k) == field_text(f0, k));
            }
        }
        out.push(Line::Rec(Record { id: Some(id.to_string()), fields: f }));
        let n = fields.entries.len();
        (out, false, n)
    } else {
        (out, true, changed)
    }
}

} // verus!
