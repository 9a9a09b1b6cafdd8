//! Choosing which dataset apps go into an image: a `Selection` (an explicit
//! id list, a category facet, or everything) scoped to the base OS by each
//! title's optional `minOS`/`maxOS`, and the per-donor harvest list that a
//! selection becomes. Reading the dataset rows is the caller's part.

use crate::config::Selection;
use crate::donors::Registry as Donors;
use crate::keyed::{key_lt, lemma_lookup_some_iff, lookup, Keyed};
use crate::mg::{join_path, path_join};
use crate::text::{views, parse_u64, parse_u64_spec, pieces, same_str, split_pieces, to_lower, unicode_lower};
use std::cmp::Ordering;
use vstd::prelude::*;

verus! {

/// One dataset row, with the fields selection reads; `cats` are lowercased.
#[derive(Clone, Debug)]
pub struct Row {
    pub id: String,
    pub cats: Vec<String>,
    pub min_os: Option<String>,
    pub max_os: Option<String>,
    /// `(donor key, app path on that donor)`, when harvestable.
    pub source: Option<(String, String)>,
}

// ---- dotted versions -------------------------------------------------------

/// The number a version component reads as: its `u32` value, or 0 where it
/// is not one.
pub open spec fn ver_value(p: Seq<char>) -> int {
    match parse_u64_spec(p) {
        Some(v) => if v <= u32::MAX { v } else { 0 },
        None => 0,
    }
}

/// The components of a dotted version.
pub open spec fn ver_parts(s: Seq<char>) -> Seq<int> {
    pieces(s, '.').map_values(|p: Seq<char>| ver_value(p))
}

/// Component-wise comparison from index `i` on, a missing component reading
/// as 0: -1, 0 or 1.
pub open spec fn ver_order_from(a: Seq<int>, b: Seq<int>, i: int) -> int
    decreases a.len() + b.len() - i,
{
    if i < 0 || (i >= a.len() && i >= b.len()) {
        0
    } else {
        let x = if i < a.len() { a[i] } else { 0 };
        let y = if i < b.len() { b[i] } else { 0 };
        if x < y {
            -1
        } else if x > y {
            1
        } else {
            ver_order_from(a, b, i + 1)
        }
    }
}

/// How two dotted versions compare: -1, 0 or 1.
pub open spec fn ver_order(a: Seq<char>, b: Seq<char>) -> int {
    ver_order_from(ver_parts(a), ver_parts(b), 0)
}

fn ver_components(s: &str) -> (r: Vec<u32>)
    ensures
        r@.len() == ver_parts(s@).len(),
        forall|k: int| 0 <= k < r@.len() ==> r@[k] == #[trigger] ver_parts(s@)[k],
{
    let ps = split_pieces(s, '.');
    let mut r: Vec<u32> = Vec::new();
    let mut i: usize = 0;
    while i < ps.len()
        invariant
            i <= ps@.len(),
            ps@.len() == pieces(s@, '.').len(),
            forall|k: int| 0 <= k < ps@.len() ==> (#[trigger] ps@[k])@ == pieces(s@, '.')[k],
            r@.len() == i,
            forall|k: int| 0 <= k < i ==> r@[k] == #[trigger] ver_parts(s@)[k],
        decreases ps@.len() - i,
    {
        let v: u32 = match parse_u64(ps[i].as_slice()) {
            Some(n) => if n <= 4294967295u64 { n as u32 } else { 0 },
            None => 0,
        };
        r.push(v);
        i = i + 1;
    }
    r
}

/// How `a` compares with `b` as dotted versions, as -1, 0 or 1.
fn ver_sign(a: &str, b: &str) -> (r: i8)
    ensures
        r == ver_order(a@, b@),
{
    let pa = ver_components(a);
    let pb = ver_components(b);
    let ghost va = ver_parts(a@);
    let ghost vb = ver_parts(b@);
    let mut i: usize = 0;
    while i < pa.len() || i < pb.len()
        invariant
            va == ver_parts(a@),
            vb == ver_parts(b@),
            pa@.len() == va.len(),
            pb@.len() == vb.len(),
            forall|k: int| 0 <= k < pa@.len() ==> pa@[k] == #[trigger] va[k],
            forall|k: int| 0 <= k < pb@.len() ==> pb@[k] == #[trigger] vb[k],
            i <= pa@.len() || i <= pb@.len(),
            ver_order_from(va, vb, 0) == ver_order_from(va, vb, i as int),
        decreases pa@.len() + pb@.len() - i,
    {
        let x: u32 = if i < pa.len() { pa[i] } else { 0 };
        let y: u32 = if i < pb.len() { pb[i] } else { 0 };
        proof {
            assert(x == (if i < va.len() { va[i as int] } else { 0 }));
            assert(y == (if i < vb.len() { vb[i as int] } else { 0 }));
        }
        if x < y {
            return -1;
        } else if x > y {
            return 1;
        }
        i = i + 1;
    }
    0
}

proof fn lemma_ver_order_range(a: Seq<int>, b: Seq<int>, i: int)
    ensures
        -1 <= ver_order_from(a, b, i) <= 1,
    decreases a.len() + b.len() - i,
{
    if !(i < 0 || (i >= a.len() && i >= b.len())) {
        lemma_ver_order_range(a, b, i + 1);
    }
}

/// How `a` compares with `b` as dotted versions: component by component,
/// numerically, a missing or unreadable component reading as 0.
pub fn ver_cmp(a: &str, b: &str) -> (r: Ordering)
    ensures
        (r == Ordering::Less) == (ver_order(a@, b@) == -1),
        (r == Ordering::Equal) == (ver_order(a@, b@) == 0),
        (r == Ordering::Greater) == (ver_order(a@, b@) == 1),
{
    let s = ver_sign(a, b);
    proof {
        lemma_ver_order_range(ver_parts(a@), ver_parts(b@), 0);
    }
    if s < 0 {
        Ordering::Less
    } else if s > 0 {
        Ordering::Greater
    } else {
        Ordering::Equal
    }
}

/// `os` lies within the optional `[min, max]` version range.
pub open spec fn in_range(os: Seq<char>, min: Option<Seq<char>>, max: Option<Seq<char>>) -> bool {
    &&& (min matches Some(m) ==> ver_order(os, m) != -1)
    &&& (max matches Some(m) ==> ver_order(os, m) != 1)
}

/// The text of an optional string.
pub open spec fn opt_seq(o: Option<String>) -> Option<Seq<char>> {
    match o {
        Some(s) => Some(s@),
        None => None,
    }
}

/// Whether `os` lies within the optional `[min, max]` version range.
pub fn os_in_range(os: &str, min: Option<&str>, max: Option<&str>) -> (r: bool)
    ensures
        r == in_range(
            os@,
            match min {
                Some(m) => Some(m@),
                None => None,
            },
            match max {
                Some(m) => Some(m@),
                None => None,
            },
        ),
{
    match min {
        Some(m) => {
            match ver_cmp(os, m) {
                Ordering::Less => {
                    return false;
                },
                _ => {},
            }
        },
        None => {},
    }
    match max {
        Some(m) => {
            match ver_cmp(os, m) {
                Ordering::Greater => {
                    return false;
                },
                _ => {},
            }
        },
        None => {},
    }
    true
}

/// A row is usable on `base_os` (any row is, when no OS is given).
pub open spec fn os_fits(row: Row, base_os: Option<Seq<char>>) -> bool {
    match base_os {
        None => true,
        Some(os) => in_range(os, opt_seq(row.min_os), opt_seq(row.max_os)),
    }
}

fn os_ok(row: &Row, base_os: Option<&str>) -> (r: bool)
    ensures
        r == os_fits(
            *row,
            match base_os {
                Some(o) => Some(o@),
                None => None,
            },
        ),
{
    match base_os {
        None => true,
        Some(os) => {
            let min = match &row.min_os {
                Some(m) => Some(m.as_str()),
                None => None,
            };
            let max = match &row.max_os {
                Some(m) => Some(m.as_str()),
                None => None,
            };
            os_in_range(os, min, max)
        },
    }
}

// ---- selecting rows ----------------------------------------------------------

/// The first row with id `id`.
pub open spec fn find_row(rows: Seq<Row>, id: Seq<char>) -> Option<int>
    decreases rows.len(),
{
    if rows.len() == 0 {
        None
    } else {
        match find_row(rows.drop_last(), id) {
            Some(i) => Some(i),
            None => if rows.last().id@ == id { Some(rows.len() - 1) } else { None },
        }
    }
}

/// The rows an id list picks, in list order: each listed id's first row,
/// where it fits the OS.
pub open spec fn list_chosen(rows: Seq<Row>, ids: Seq<String>, os: Option<Seq<char>>) -> Seq<int>
    decreases ids.len(),
{
    if ids.len() == 0 {
        Seq::empty()
    } else {
        let c = list_chosen(rows, ids.drop_last(), os);
        match find_row(rows, ids.last()@) {
            Some(i) => if os_fits(rows[i], os) { c.push(i) } else { c },
            None => c,
        }
    }
}

/// The listed ids no row has, in list order.
pub open spec fn list_missing(rows: Seq<Row>, ids: Seq<String>) -> Seq<Seq<char>>
    decreases ids.len(),
{
    if ids.len() == 0 {
        Seq::empty()
    } else {
        let m = list_missing(rows, ids.drop_last());
        if find_row(rows, ids.last()@) is None {
            m.push(ids.last()@)
        } else {
            m
        }
    }
}

/// The row is picked by the facet: it fits the OS and one of its categories
/// is one of `want`.
pub open spec fn facet_pick(row: Row, want: Seq<Seq<char>>, os: Option<Seq<char>>) -> bool {
    os_fits(row, os) && exists|c: int, w: int|
        0 <= c < row.cats@.len() && 0 <= w < want.len() && (#[trigger] row.cats@[c])@ == #[trigger] want[w]
}

/// The indices, ascending, of the first `n` rows that `keep` picks.
pub open spec fn picked(rows: Seq<Row>, n: int, keep: spec_fn(Row) -> bool) -> Seq<int>
    decreases n,
{
    if n <= 0 {
        Seq::empty()
    } else {
        let p = picked(rows, n - 1, keep);
        if keep(rows[n - 1]) { p.push(n - 1) } else { p }
    }
}

/// The rows a selection picks, as indices, and the listed ids no row has.
pub open spec fn chosen_rows(rows: Seq<Row>, sel: Selection, os: Option<Seq<char>>) -> (Seq<int>, Seq<Seq<char>>) {
    match sel {
        Selection::List { ids } => (list_chosen(rows, ids@, os), list_missing(rows, ids@)),
        Selection::Categories { categories } => (
            picked(
                rows,
                rows.len() as int,
                |r: Row| facet_pick(r, categories@.map_values(|c: String| unicode_lower(c@)), os),
            ),
            Seq::empty(),
        ),
        Selection::All => (picked(rows, rows.len() as int, |r: Row| os_fits(r, os)), Seq::empty()),
    }
}

fn find_row_exec(rows: &Vec<Row>, id: &str) -> (r: Option<usize>)
    ensures
        match r {
            Some(i) => find_row(rows@, id@) == Some(i as int),
            None => find_row(rows@, id@) is None,
        },
{
    let mut i: usize = 0;
    while i < rows.len()
        invariant
            i <= rows@.len(),
            find_row(rows@.take(i as int), id@) is None,
        decreases rows@.len() - i,
    {
        proof {
            assert(rows@.take(i + 1).drop_last() =~= rows@.take(i as int));
        }
        if same_str(rows[i].id.as_str(), id) {
            proof {
                lemma_find_row_prefix(rows@, i + 1, id@);
            }
            return Some(i);
        }
        i = i + 1;
    }
    proof {
        assert(rows@.take(i as int) =~= rows@);
    }
    None
}

proof fn lemma_find_row_bound(rows: Seq<Row>, id: Seq<char>)
    ensures
        find_row(rows, id) matches Some(i) ==> 0 <= i < rows.len() && rows[i].id@ == id,
    decreases rows.len(),
{
    if rows.len() > 0 {
        lemma_find_row_bound(rows.drop_last(), id);
    }
}

proof fn lemma_find_row_prefix(rows: Seq<Row>, n: int, id: Seq<char>)
    requires
        0 <= n <= rows.len(),
        find_row(rows.take(n), id) is Some,
    ensures
        find_row(rows, id) == find_row(rows.take(n), id),
    decreases rows.len() - n,
{
    if n < rows.len() {
        assert(rows.take(n + 1).drop_last() =~= rows.take(n));
        lemma_find_row_prefix(rows, n + 1, id);
    } else {
        assert(rows.take(n) =~= rows);
    }
}

fn lower_all(v: &Vec<String>) -> (r: Vec<String>)
    ensures
        r@.map_values(|s: String| s@) == v@.map_values(|c: String| unicode_lower(c@)),
{
    let mut r: Vec<String> = Vec::new();
    let mut i: usize = 0;
    while i < v.len()
        invariant
            i <= v@.len(),
            r@.len() == i,
            forall|k: int| 0 <= k < i ==> (#[trigger] r@[k])@ == unicode_lower(v@[k]@),
        decreases v@.len() - i,
    {
        r.push(to_lower(v[i].as_str()));
        i = i + 1;
    }
    assert(r@.map_values(|s: String| s@) =~= v@.map_values(|c: String| unicode_lower(c@)));
    r
}

fn row_has_cat(row: &Row, want: &Vec<String>, Ghost(wv): Ghost<Seq<Seq<char>>>) -> (r: bool)
    requires
        want@.map_values(|s: String| s@) == wv,
    ensures
        r == exists|c: int, w: int|
            0 <= c < row.cats@.len() && 0 <= w < wv.len() && (#[trigger] row.cats@[c])@ == #[trigger] wv[w],
{
    let mut c: usize = 0;
    while c < row.cats.len()
        invariant
            c <= row.cats@.len(),
            want@.map_values(|s: String| s@) == wv,
            forall|a: int, w: int| 0 <= a < c && 0 <= w < wv.len() ==> (#[trigger] row.cats@[a])@ != #[trigger] wv[w],
        decreases row.cats@.len() - c,
    {
        let mut w: usize = 0;
        while w < want.len()
            invariant
                w <= want@.len(),
                c < row.cats@.len(),
                want@.map_values(|s: String| s@) == wv,
                forall|a: int, x: int| 0 <= a < c && 0 <= x < wv.len() ==> (#[trigger] row.cats@[a])@ != #[trigger] wv[x],
                forall|x: int| 0 <= x < w ==> row.cats@[c as int]@ != #[trigger] wv[x],
            decreases want@.len() - w,
        {
            assert(wv[w as int] == want@[w as int]@);
            if same_str(row.cats[c].as_str(), want[w].as_str()) {
                return true;
            }
            w = w + 1;
        }
        c = c + 1;
    }
    false
}

/// Apply a selection, scoped to `base_os`, to the rows: the picked row
/// indices (list order for an id list, dataset order otherwise) and the
/// listed ids no row has.
pub fn select_rows(rows: &Vec<Row>, sel: &Selection, base_os: Option<&str>) -> (r: (Vec<usize>, Vec<String>))
    ensures
        r.0@.map_values(|i: usize| i as int) == chosen_rows(rows@, *sel, match base_os {
            Some(o) => Some(o@),
            None => None,
        }).0,
        r.1@.map_values(|s: String| s@) == chosen_rows(rows@, *sel, match base_os {
            Some(o) => Some(o@),
            None => None,
        }).1,
        forall|j: int| 0 <= j < r.0@.len() ==> r.0@[j] < rows@.len(),
{
    let ghost os = match base_os {
        Some(o) => Some(o@),
        None => None,
    };
    let mut chosen: Vec<usize> = Vec::new();
    let mut missing: Vec<String> = Vec::new();
    match sel {
        Selection::List { ids } => {
            let mut k: usize = 0;
            while k < ids.len()
                invariant
                    k <= ids@.len(),
                    chosen@.map_values(|i: usize| i as int) == list_chosen(rows@, ids@.take(k as int), os),
                    forall|j: int| 0 <= j < chosen@.len() ==> chosen@[j] < rows@.len(),
                    missing@.map_values(|s: String| s@) == list_missing(rows@, ids@.take(k as int)),
                    os == match base_os {
                        Some(o) => Some(o@),
                        None => None::<Seq<char>>,
                    },
                decreases ids@.len() - k,
            {
                proof {
                    assert(ids@.take(k + 1).drop_last() =~= ids@.take(k as int));
                    assert(ids@.take(k + 1).last() == ids@[k as int]);
                }
                proof {
                    lemma_find_row_bound(rows@, ids@[k as int]@);
                }
                match find_row_exec(rows, ids[k].as_str()) {
                    Some(i) => {
                        if os_ok(&rows[i], base_os) {
                            chosen.push(i);
                        }
                    },
                    None => {
                        missing.push(ids[k].clone());
                    },
                }
                k = k + 1;
                proof {
                    assert(chosen@.map_values(|i: usize| i as int) =~= list_chosen(rows@, ids@.take(k as int), os));
                    assert(missing@.map_values(|s: String| s@) =~= list_missing(rows@, ids@.take(k as int)));
                }
            }
            proof {
                assert(ids@.take(k as int) =~= ids@);
            }
        },
        Selection::Categories { categories } => {
            let want = lower_all(categories);
            let ghost wv = categories@.map_values(|c: String| unicode_lower(c@));
            let ghost keep = |r: Row| facet_pick(r, wv, os);
            let mut i: usize = 0;
            while i < rows.len()
                invariant
                    i <= rows@.len(),
                    want@.map_values(|s: String| s@) == wv,
                    keep == |r: Row| facet_pick(r, wv, os),
                    chosen@.map_values(|x: usize| x as int) == picked(rows@, i as int, keep),
                    forall|j: int| 0 <= j < chosen@.len() ==> chosen@[j] < rows@.len(),
                    os == match base_os {
                        Some(o) => Some(o@),
                        None => None::<Seq<char>>,
                    },
                decreases rows@.len() - i,
            {
                if os_ok(&rows[i], base_os) && row_has_cat(&rows[i], &want, Ghost(wv)) {
                    chosen.push(i);
                }
                i = i + 1;
                proof {
                    assert(chosen@.map_values(|x: usize| x as int) =~= picked(rows@, i as int, keep));
                }
            }
            assert(missing@.map_values(|s: String| s@) =~= Seq::<Seq<char>>::empty());
        },
        Selection::All => {
            let ghost keep = |r: Row| os_fits(r, os);
            let mut i: usize = 0;
            while i < rows.len()
                invariant
                    i <= rows@.len(),
                    keep == |r: Row| os_fits(r, os),
                    chosen@.map_values(|x: usize| x as int) == picked(rows@, i as int, keep),
                    forall|j: int| 0 <= j < chosen@.len() ==> chosen@[j] < rows@.len(),
                    os == match base_os {
                        Some(o) => Some(o@),
                        None => None::<Seq<char>>,
                    },
                decreases rows@.len() - i,
            {
                if os_ok(&rows[i], base_os) {
                    chosen.push(i);
                }
                i = i + 1;
                proof {
                    assert(chosen@.map_values(|x: usize| x as int) =~= picked(rows@, i as int, keep));
                }
            }
            assert(missing@.map_values(|s: String| s@) =~= Seq::<Seq<char>>::empty());
        },
    }
    (chosen, missing)
}

/// Resolve a selection into the ids to include, plus the listed ids no row
/// has.
pub fn resolve(rows: &Vec<Row>, sel: &Selection, base_os: Option<&str>) -> (r: (Vec<String>, Vec<String>))
    ensures
        r.0@.map_values(|s: String| s@) == chosen_rows(rows@, *sel, match base_os {
            Some(o) => Some(o@),
            None => None,
        }).0.map_values(|i: int| rows@[i].id@),
        r.1@.map_values(|s: String| s@) == chosen_rows(rows@, *sel, match base_os {
            Some(o) => Some(o@),
            None => None,
        }).1,
{
    let (chosen, missing) = select_rows(rows, sel, base_os);
    let ghost c = chosen@.map_values(|i: usize| i as int);
    let mut ids: Vec<String> = Vec::new();
    let mut k: usize = 0;
    while k < chosen.len()
        invariant
            k <= chosen@.len(),
            c == chosen@.map_values(|i: usize| i as int),
            forall|j: int| 0 <= j < chosen@.len() ==> chosen@[j] < rows@.len(),
            ids@.len() == k,
            forall|j: int| 0 <= j < k ==> (#[trigger] ids@[j])@ == rows@[c[j]].id@,
        decreases chosen@.len() - k,
    {
        ids.push(rows[chosen[k]].id.clone());
        k = k + 1;
    }
    proof {
        assert(ids@.map_values(|s: String| s@) =~= c.map_values(|i: int| rows@[i].id@));
    }
    (ids, missing)
}

// ---- the harvest plan ------------------------------------------------------

/// Where a donor reference resolves: a registry alias first, else a disk
/// file of that name in the MacPack folder, where `present` says that file
/// is there.
pub open spec fn donor_image(donor: Seq<char>, donors: Donors, macpack_dir: Option<Seq<char>>, present: bool) -> Option<Seq<char>> {
    match lookup(donors.0.entries@, donor) {
        Some(d) => Some(d.path_of()),
        None => match macpack_dir {
            Some(dir) => if present { Some(path_join(dir, donor)) } else { None },
            None => None,
        },
    }
}

/// Resolve a donor reference to a disk image: a registry alias first, else
/// `<macpack_dir>/<donor>` where `present` says that file exists.
pub fn resolve_donor(donor: &str, donors: &Donors, macpack_dir: Option<&str>, present: bool) -> (r: Option<String>)
    ensures
        opt_seq(r) == donor_image(donor@, *donors, match macpack_dir {
            Some(d) => Some(d@),
            None => None,
        }, present),
{
    match donors.get(donor) {
        Some(d) => Some(d.path().to_owned()),
        None => match macpack_dir {
            Some(dir) => if present { Some(join_path(dir, donor)) } else { None },
            None => None,
        },
    }
}

/// What a chosen row gives the plan: `(image, app path)` where its source
/// resolves, `None` where it has no source or the donor does not resolve.
pub open spec fn row_target(row: Row, donors: Donors, mp: Option<Seq<char>>, present: bool) -> Option<(Seq<char>, Seq<char>)> {
    match row.source {
        Some(src) => match donor_image(src.0@, donors, mp, present) {
            Some(img) => Some((img, src.1@)),
            None => None,
        },
        None => None,
    }
}

/// The `(image, app path)` pairs of the chosen rows that resolve, in order.
pub open spec fn plan_pairs(rows: Seq<Row>, chosen: Seq<int>, donors: Donors, mp: Option<Seq<char>>, present: Seq<bool>) -> Seq<(Seq<char>, Seq<char>)>
    decreases chosen.len(),
{
    if chosen.len() == 0 {
        Seq::empty()
    } else {
        let p = plan_pairs(rows, chosen.drop_last(), donors, mp, present);
        let i = chosen.last();
        match row_target(rows[i], donors, mp, present[i]) {
            Some(t) => p.push(t),
            None => p,
        }
    }
}

/// The ids of the chosen rows that do not resolve, in order.
pub open spec fn plan_unresolved(rows: Seq<Row>, chosen: Seq<int>, donors: Donors, mp: Option<Seq<char>>, present: Seq<bool>) -> Seq<Seq<char>>
    decreases chosen.len(),
{
    if chosen.len() == 0 {
        Seq::empty()
    } else {
        let u = plan_unresolved(rows, chosen.drop_last(), donors, mp, present);
        let i = chosen.last();
        if row_target(rows[i], donors, mp, present[i]) is None {
            u.push(rows[i].id@)
        } else {
            u
        }
    }
}

/// The app paths of the pairs for image `img`, in order.
pub open spec fn paths_for(pairs: Seq<(Seq<char>, Seq<char>)>, img: Seq<char>) -> Seq<Seq<char>>
    decreases pairs.len(),
{
    if pairs.len() == 0 {
        Seq::empty()
    } else {
        let p = paths_for(pairs.drop_last(), img);
        if pairs.last().0 == img { p.push(pairs.last().1) } else { p }
    }
}

/// Some pair is for image `s`.
pub open spec fn pair_image(pairs: Seq<(Seq<char>, Seq<char>)>, s: Seq<char>) -> bool {
    exists|k: int| 0 <= k < pairs.len() && (#[trigger] pairs[k]).0 == s
}

/// Some group is for image `s`.
pub open spec fn group_image(groups: Seq<(String, Vec<String>)>, s: Seq<char>) -> bool {
    exists|i: int| 0 <= i < groups.len() && (#[trigger] groups[i]).0@ == s
}

/// `groups` is the plan of `pairs`: one group per image, images ascending,
/// each with its app paths in order, and every pair's image has a group.
pub open spec fn grouped(groups: Seq<(String, Vec<String>)>, pairs: Seq<(Seq<char>, Seq<char>)>) -> bool {
    &&& forall|i: int, j: int| 0 <= i < j < groups.len() ==> key_lt(#[trigger] groups[i].0@, #[trigger] groups[j].0@)
    &&& forall|i: int| 0 <= i < groups.len() ==> views((#[trigger] groups[i]).1@) == paths_for(pairs, groups[i].0@)
    &&& forall|i: int| 0 <= i < groups.len() ==> pair_image(pairs, (#[trigger] groups[i]).0@)
    &&& forall|k: int| 0 <= k < pairs.len() ==> group_image(groups, (#[trigger] pairs[k]).0)
}

fn paths_of(pairs: &Vec<(String, String)>, img: &str, Ghost(pv): Ghost<Seq<(Seq<char>, Seq<char>)>>) -> (r: Vec<String>)
    requires
        pairs@.len() == pv.len(),
        forall|k: int| 0 <= k < pv.len() ==> (#[trigger] pairs@[k]).0@ == pv[k].0 && pairs@[k].1@ == pv[k].1,
    ensures
        r@.map_values(|s: String| s@) == paths_for(pv, img@),
{
    let mut r: Vec<String> = Vec::new();
    let mut k: usize = 0;
    while k < pairs.len()
        invariant
            k <= pairs@.len(),
            pairs@.len() == pv.len(),
            forall|x: int| 0 <= x < pv.len() ==> (#[trigger] pairs@[x]).0@ == pv[x].0 && pairs@[x].1@ == pv[x].1,
            r@.map_values(|s: String| s@) == paths_for(pv.take(k as int), img@),
        decreases pairs@.len() - k,
    {
        proof {
            assert(pv.take(k + 1).drop_last() =~= pv.take(k as int));
            assert(pv.take(k + 1).last() == pv[k as int]);
            assert(pairs@[k as int].0@ == pv[k as int].0);
        }
        if same_str(pairs[k].0.as_str(), img) {
            r.push(pairs[k].1.clone());
        }
        k = k + 1;
        proof {
            assert(r@.map_values(|s: String| s@) =~= paths_for(pv.take(k as int), img@));
        }
    }
    proof {
        assert(pv.take(k as int) =~= pv);
    }
    r
}

/// Turn a selection into a per-donor harvest list: each group is a donor
/// disk image and the app paths to pull from it, images ascending; the ids
/// of chosen rows with no source, or whose donor resolves to nothing, come
/// back as `unresolved`. `present[i]` says whether the MacPack folder holds
/// a file named by row `i`'s donor.
pub fn harvest_plan(
    rows: &Vec<Row>,
    sel: &Selection,
    base_os: Option<&str>,
    donors: &Donors,
    macpack_dir: Option<&str>,
    present: &Vec<bool>,
) -> (r: (Vec<(String, Vec<String>)>, Vec<String>))
    requires
        present@.len() == rows@.len(),
        donors.0.wf(),
    ensures
        ({
            let os = match base_os {
                Some(o) => Some(o@),
                None => None,
            };
            let mp = match macpack_dir {
                Some(d) => Some(d@),
                None => None,
            };
            let chosen = chosen_rows(rows@, *sel, os).0;
            &&& grouped(r.0@, plan_pairs(rows@, chosen, *donors, mp, present@))
            &&& r.1@.map_values(|s: String| s@) == plan_unresolved(rows@, chosen, *donors, mp, present@)
        }),
{
    let ghost os = match base_os {
        Some(o) => Some(o@),
        None => None,
    };
    let ghost mp = match macpack_dir {
        Some(d) => Some(d@),
        None => None,
    };
    let (chosen, _missing) = select_rows(rows, sel, base_os);
    let ghost c = chosen@.map_values(|i: usize| i as int);
    let mut pairs: Vec<(String, String)> = Vec::new();
    let ghost mut pv: Seq<(Seq<char>, Seq<char>)> = Seq::empty();
    let mut unresolved: Vec<String> = Vec::new();
    let mut k: usize = 0;
    while k < chosen.len()
        invariant
            k <= chosen@.len(),
            c == chosen@.map_values(|i: usize| i as int),
            forall|j: int| 0 <= j < chosen@.len() ==> chosen@[j] < rows@.len(),
            present@.len() == rows@.len(),
            mp == match macpack_dir {
                Some(d) => Some(d@),
                None => None::<Seq<char>>,
            },
            pv == plan_pairs(rows@, c.take(k as int), *donors, mp, present@),
            pairs@.len() == pv.len(),
            forall|x: int| 0 <= x < pv.len() ==> (#[trigger] pairs@[x]).0@ == pv[x].0 && pairs@[x].1@ == pv[x].1,
            unresolved@.map_values(|s: String| s@) == plan_unresolved(rows@, c.take(k as int), *donors, mp, present@),
        decreases chosen@.len() - k,
    {
        let i = chosen[k];
        proof {
            assert(c.take(k + 1).drop_last() =~= c.take(k as int));
            assert(c.take(k + 1).last() == i as int);
        }
        let row = &rows[i];
        let target = match &row.source {
            Some(src) => match resolve_donor(src.0.as_str(), donors, macpack_dir, present[i]) {
                Some(img) => Some((img, src.1.clone())),
                None => None,
            },
            None => None,
        };
        match target {
            Some(t) => {
                proof {
                    pv = pv.push((t.0@, t.1@));
                }
                pairs.push(t);
            },
            None => {
                unresolved.push(row.id.clone());
            },
        }
        k = k + 1;
        proof {
            assert(unresolved@.map_values(|s: String| s@) =~= plan_unresolved(rows@, c.take(k as int), *donors, mp, present@));
        }
    }
    proof {
        assert(c.take(k as int) =~= c);
    }
    // the distinct images, ascending
    let mut set: Keyed<()> = Keyed::new();
    let mut x: usize = 0;
    while x < pairs.len()
        invariant
            x <= pairs@.len(),
            pairs@.len() == pv.len(),
            forall|y: int| 0 <= y < pv.len() ==> (#[trigger] pairs@[y]).0@ == pv[y].0 && pairs@[y].1@ == pv[y].1,
            set.wf(),
            forall|s: Seq<char>| #![trigger lookup(set.entries@, s)]
                (lookup(set.entries@, s) is Some) <==> exists|y: int| 0 <= y < x && (#[trigger] pv[y]).0 == s,
        decreases pairs@.len() - x,
    {
        let ghost before = set.entries@;
        set.insert_absent(pairs[x].0.clone(), ());
        proof {
            assert forall|s: Seq<char>| #![trigger lookup(set.entries@, s)]
                (lookup(set.entries@, s) is Some) <==> exists|y: int| 0 <= y < x + 1 && (#[trigger] pv[y]).0 == s by {
                if exists|y: int| 0 <= y < x + 1 && (#[trigger] pv[y]).0 == s {
                    let y = choose|y: int| 0 <= y < x + 1 && (#[trigger] pv[y]).0 == s;
                    if y < x {
                        assert(lookup(before, s) is Some);
                    }
                }
                if lookup(before, s) is Some {
                    let y = choose|y: int| 0 <= y < x && (#[trigger] pv[y]).0 == s;
                    assert(0 <= y < x + 1);
                }
                if s == pairs@[x as int].0@ {
                    assert(pv[x as int].0 == s);
                }
            }
        }
        x = x + 1;
    }
    let images = set.keys();
    let mut groups: Vec<(String, Vec<String>)> = Vec::new();
    let mut g: usize = 0;
    while g < images.len()
        invariant
            g <= images@.len(),
            images@.len() == set.entries@.len(),
            forall|j: int| 0 <= j < images@.len() ==> (#[trigger] images@[j])@ == set.entries@[j].0@,
            pairs@.len() == pv.len(),
            forall|y: int| 0 <= y < pv.len() ==> (#[trigger] pairs@[y]).0@ == pv[y].0 && pairs@[y].1@ == pv[y].1,
            groups@.len() == g,
            forall|j: int| 0 <= j < g ==> (#[trigger] groups@[j]).0@ == images@[j]@,
            forall|j: int| 0 <= j < g ==> (#[trigger] groups@[j]).1@.map_values(|s: String| s@) == paths_for(pv, images@[j]@),
        decreases images@.len() - g,
    {
        let paths = paths_of(&pairs, images[g].as_str(), Ghost(pv));
        groups.push((images[g].clone(), paths));
        g = g + 1;
    }
    proof {
        let pairs_s = plan_pairs(rows@, c, *donors, mp, present@);
        assert(pv == pairs_s);
        assert forall|i: int, j: int| 0 <= i < j < groups@.len() implies key_lt(#[trigger] groups@[i].0@, #[trigger] groups@[j].0@) by {
            assert(groups@[i].0@ == set.entries@[i].0@);
            assert(groups@[j].0@ == set.entries@[j].0@);
        }
        assert(c == chosen_rows(rows@, *sel, os).0);
        assert forall|i: int| 0 <= i < groups@.len() implies views((#[trigger] groups@[i]).1@) == paths_for(pv, groups@[i].0@) by {
            assert(groups@[i].0@ == images@[i]@);
        }
        let gs = groups@;
        assert(forall|i: int, j: int| 0 <= i < j < gs.len() ==> key_lt(#[trigger] gs[i].0@, #[trigger] gs[j].0@));
        assert(forall|i: int| 0 <= i < gs.len() ==> views((#[trigger] gs[i]).1@) == paths_for(pv, gs[i].0@));
        assert forall|i: int| 0 <= i < gs.len() implies pair_image(pv, (#[trigger] gs[i]).0@) by {
            let s = gs[i].0@;
            lemma_lookup_some_iff(set.entries@, s);
            assert(set.entries@[i].0@ == s);
            assert(lookup(set.entries@, s) is Some);
        }
        assert forall|k: int| 0 <= k < pv.len() implies group_image(gs, (#[trigger] pv[k]).0) by {
            let s = pv[k].0;
            assert(lookup(set.entries@, s) is Some);
            lemma_lookup_some_iff(set.entries@, s);
            let i = choose|i: int| 0 <= i < set.entries@.len() && (#[trigger] set.entries@[i]).0@ == s;
            assert(gs[i].0@ == s);
        }
        assert(grouped(gs, pv));
        assert(unresolved@.map_values(|s: String| s@) == plan_unresolved(rows@, c, *donors, mp, present@));
    }
    (groups, unresolved)
}

} // verus!
