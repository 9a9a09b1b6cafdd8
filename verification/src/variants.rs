//! Picking the best edition of a game for a build target. Several dataset
//! records can be editions of one game (a B&W SimCity, a colour one) sharing
//! a `group` key; a build keeps one edition per group: among the editions
//! whose facets admit the target, a colour match first, then the richer
//! depth, then the explicit `prefer`, then the newest version. A pin
//! present among the group's members wins outright; a group nothing admits
//! is dropped.

use crate::keyed::{key_lt, lemma_key_lt_total, lemma_key_lt_trans, lemma_lookup_some_iff, lookup, Keyed};
use crate::selection::{in_range, opt_seq, os_in_range};
use crate::text::{parse_u64, parse_u64_spec, pieces, same_str, split_pieces, views};
use vstd::prelude::*;

verus! {

/// The build target's machine profile.
#[derive(Debug, Default, Clone)]
pub struct Target {
    /// Dotted System the disk boots ("7.1"); `None` = unconstrained.
    pub os: Option<String>,
    /// Representative CPU generation ("68030"); `None` = unconstrained.
    pub cpu: Option<String>,
    /// Deepest bpp the target shows; 0 = unknown.
    pub max_depth: i64,
    /// Colour-capable.
    pub color: bool,
}

/// One candidate edition and the facets that decide fit and score; absent
/// bounds are unconstrained.
#[derive(Debug, Default, Clone)]
pub struct Edition {
    pub id: String,
    pub group: Option<String>,
    pub color: Option<bool>,
    pub min_cpu: Option<String>,
    pub max_cpu: Option<String>,
    pub min_os: Option<String>,
    pub max_os: Option<String>,
    pub min_depth: i64,
    pub max_depth: i64,
    pub prefer: i64,
}

/// How a group resolved, so that a dropped or swapped edition is never silent.
#[derive(Debug, Clone, PartialEq)]
pub struct Decision {
    pub group: String,
    /// `None`: no edition admits the target and the group is dropped.
    pub chosen: Option<String>,
    pub dropped: Vec<String>,
    pub pinned: bool,
}

/// The place of a CPU generation on one scale, oldest first.
pub open spec fn cpu_rank(s: Seq<char>) -> Option<int> {
    if s == "68000"@ {
        Some(0)
    } else if s == "68020"@ {
        Some(1)
    } else if s == "68030"@ {
        Some(2)
    } else if s == "68040"@ {
        Some(3)
    } else if s == "PPC"@ {
        Some(4)
    } else {
        None
    }
}

/// The rank of an optional CPU label.
pub open spec fn opt_cpu(o: Option<String>) -> Option<int> {
    match o {
        Some(s) => cpu_rank(s@),
        None => None,
    }
}

/// The place of a CPU generation on the scale, oldest first.
pub fn cpu_gen_index(s: &str) -> (r: Option<u8>)
    ensures
        match cpu_rank(s@) {
            Some(k) => r matches Some(x) && x == k,
            None => r is None,
        },
{
    proof {
        reveal_strlit("68000");
        reveal_strlit("68020");
        reveal_strlit("68030");
        reveal_strlit("68040");
        reveal_strlit("PPC");
    }
    if same_str(s, "68000") {
        Some(0)
    } else if same_str(s, "68020") {
        Some(1)
    } else if same_str(s, "68030") {
        Some(2)
    } else if same_str(s, "68040") {
        Some(3)
    } else if same_str(s, "PPC") {
        Some(4)
    } else {
        None
    }
}

fn opt_cpu_exec(o: &Option<String>) -> (r: Option<u8>)
    ensures
        match opt_cpu(*o) {
            Some(k) => r matches Some(x) && x == k,
            None => r is None,
        },
{
    match o {
        Some(s) => cpu_gen_index(s.as_str()),
        None => None,
    }
}

/// Whether an edition's envelope admits the target: its OS range holds the
/// target's System, its CPU range the target's generation, the target can
/// reach its depth floor, and it does not need colour on a B&W target.
pub open spec fn admits(e: Edition, t: Target) -> bool {
    &&& (t.os matches Some(os) ==> in_range(os@, opt_seq(e.min_os), opt_seq(e.max_os)))
    &&& (opt_cpu(t.cpu) matches Some(c) ==> {
        &&& (opt_cpu(e.min_cpu) matches Some(lo) ==> c >= lo)
        &&& (opt_cpu(e.max_cpu) matches Some(hi) ==> c <= hi)
    })
    &&& !(e.min_depth > 0 && t.max_depth > 0 && t.max_depth < e.min_depth)
    &&& ((e.color == Some(true) || e.min_depth >= 4) ==> t.color)
}

fn opt_str(o: &Option<String>) -> (r: Option<&str>)
    ensures
        match r {
            Some(s) => o matches Some(x) && s@ == x@,
            None => o is None,
        },
{
    match o {
        Some(s) => Some(s.as_str()),
        None => None,
    }
}

/// Whether the edition admits the target.
pub fn fits(e: &Edition, t: &Target) -> (r: bool)
    ensures
        r == admits(*e, *t),
{
    match &t.os {
        Some(os) => {
            if !os_in_range(os.as_str(), opt_str(&e.min_os), opt_str(&e.max_os)) {
                return false;
            }
        },
        None => {},
    }
    match opt_cpu_exec(&t.cpu) {
        Some(cpu) => {
            match opt_cpu_exec(&e.min_cpu) {
                Some(lo) => {
                    if cpu < lo {
                        return false;
                    }
                },
                None => {},
            }
            match opt_cpu_exec(&e.max_cpu) {
                Some(hi) => {
                    if cpu > hi {
                        return false;
                    }
                },
                None => {},
            }
        },
        None => {},
    }
    if e.min_depth > 0 && t.max_depth > 0 && t.max_depth < e.min_depth {
        return false;
    }
    let needs_color = e.color == Some(true) || e.min_depth >= 4;
    if needs_color && !t.color {
        return false;
    }
    true
}

/// The rank of an admissible edition: colour match (1 for a definite match
/// with the target, else 0), the edition's depth ceiling capped at the
/// target's, and its `prefer`.
pub open spec fn score_of(e: Edition, t: Target) -> (int, int, int) {
    let cm: int = if e.color == Some(t.color) { 1 } else { 0 };
    let cap: int = if e.max_depth > 0 { e.max_depth as int } else { t.max_depth as int };
    let depth: int = if t.max_depth > 0 { if cap < t.max_depth { cap } else { t.max_depth as int } } else { cap };
    (cm, depth, e.prefer as int)
}

/// The rank of an admissible edition for the target; higher wins.
pub fn score(e: &Edition, t: &Target) -> (r: (i64, i64, i64))
    ensures
        r.0 == score_of(*e, *t).0,
        r.1 == score_of(*e, *t).1,
        r.2 == score_of(*e, *t).2,
{
    let cm: i64 = match e.color {
        Some(c) => if c == t.color { 1 } else { 0 },
        None => 0,
    };
    let cap = if e.max_depth > 0 { e.max_depth } else { t.max_depth };
    let depth = if t.max_depth > 0 { if cap < t.max_depth { cap } else { t.max_depth } } else { cap };
    (cm, depth, e.prefer)
}

/// The `u32` a piece reads as, if it is one.
pub open spec fn u32_of(p: Seq<char>) -> Option<int> {
    match parse_u64_spec(p) {
        Some(v) => if v <= u32::MAX { Some(v) } else { None },
        None => None,
    }
}

/// The run of numeric pieces at the end of `ps`, in order.
pub open spec fn trailing_numbers(ps: Seq<Seq<char>>) -> Seq<int>
    decreases ps.len(),
{
    if ps.len() == 0 {
        Seq::empty()
    } else {
        match u32_of(ps.last()) {
            Some(v) => trailing_numbers(ps.drop_last()).push(v),
            None => Seq::empty(),
        }
    }
}

/// The trailing dash-separated numeric segments of an id: `simcity-1-4`
/// gives `[1, 4]`, `simcity` gives `[]`.
pub open spec fn version_of(id: Seq<char>) -> Seq<int> {
    trailing_numbers(pieces(id, '-'))
}

/// The trailing dash-separated numeric segments of an id, as a version key.
pub fn version_key(id: &str) -> (r: Vec<u32>)
    ensures
        r@.map_values(|x: u32| x as int) == version_of(id@),
{
    let ps = split_pieces(id, '-');
    let ghost pv = pieces(id@, '-');
    let mut n: usize = ps.len();
    let mut r: Vec<u32> = Vec::new();
    proof {
        assert(pv.take(n as int) =~= pv);
        assert(r@.map_values(|x: u32| x as int) =~= Seq::<int>::empty());
        assert(version_of(id@) =~= trailing_numbers(pv.take(n as int)) + r@.map_values(|x: u32| x as int));
    }
    while n > 0
        invariant
            n <= ps@.len(),
            ps@.len() == pv.len(),
            pv == pieces(id@, '-'),
            forall|k: int| 0 <= k < ps@.len() ==> (#[trigger] ps@[k])@ == pv[k],
            version_of(id@) == trailing_numbers(pv.take(n as int)) + r@.map_values(|x: u32| x as int),
        decreases n,
    {
        proof {
            assert(pv.take(n as int).drop_last() =~= pv.take(n - 1));
            assert(pv.take(n as int).last() == pv[n - 1]);
            assert(ps@[n - 1]@ == pv[n - 1]);
        }
        let v: Option<u32> = match parse_u64(ps[n - 1].as_slice()) {
            Some(x) => if x <= 4294967295u64 { Some(x as u32) } else { None },
            None => None,
        };
        match v {
            Some(x) => {
                let ghost before = r@.map_values(|y: u32| y as int);
                r.insert(0, x);
                proof {
                    assert(r@.map_values(|y: u32| y as int) =~= seq![x as int] + before);
                    assert(trailing_numbers(pv.take(n as int)) == trailing_numbers(pv.take(n - 1)).push(x as int));
                    assert(trailing_numbers(pv.take(n - 1)).push(x as int) + before =~= trailing_numbers(pv.take(n - 1)) + (seq![x as int] + before));
                }
                n = n - 1;
            },
            None => {
                proof {
                    assert(trailing_numbers(pv.take(n as int)) =~= Seq::<int>::empty());
                    assert(version_of(id@) =~= r@.map_values(|y: u32| y as int));
                }
                return r;
            },
        }
    }
    proof {
        assert(pv.take(0) =~= Seq::<Seq<char>>::empty());
        assert(version_of(id@) =~= r@.map_values(|y: u32| y as int));
    }
    r
}

/// Lexicographic comparison of integer sequences, a proper prefix first:
/// -1, 0 or 1.
pub open spec fn lex(x: Seq<int>, y: Seq<int>) -> int
    decreases x.len(),
{
    if x.len() == 0 && y.len() == 0 {
        0
    } else if x.len() == 0 {
        -1
    } else if y.len() == 0 {
        1
    } else if x[0] < y[0] {
        -1
    } else if x[0] > y[0] {
        1
    } else {
        lex(x.drop_first(), y.drop_first())
    }
}

proof fn lemma_lex_antisym(x: Seq<int>, y: Seq<int>)
    ensures
        lex(x, y) == -lex(y, x),
        -1 <= lex(x, y) <= 1,
        lex(x, y) == 0 <==> x == y,
    decreases x.len(),
{
    if x.len() > 0 && y.len() > 0 && x[0] == y[0] {
        lemma_lex_antisym(x.drop_first(), y.drop_first());
        if x.drop_first() == y.drop_first() {
            assert(x =~= seq![x[0]] + x.drop_first());
            assert(y =~= seq![y[0]] + y.drop_first());
        }
    }
    if x.len() == 0 && y.len() == 0 {
        assert(x =~= y);
    }
    if x.len() > 0 && x == y {
        lemma_lex_antisym(x.drop_first(), y.drop_first());
    }
}

proof fn lemma_lex_trans(x: Seq<int>, y: Seq<int>, z: Seq<int>)
    requires
        lex(x, y) < 0,
        lex(y, z) < 0,
    ensures
        lex(x, z) < 0,
    decreases x.len(),
{
    if x.len() > 0 && y.len() > 0 && z.len() > 0 && x[0] == y[0] && y[0] == z[0] {
        lemma_lex_trans(x.drop_first(), y.drop_first(), z.drop_first());
    }
}

/// The score of an edition as a sequence, for lexicographic comparison.
pub open spec fn score_seq(e: Edition, t: Target) -> Seq<int> {
    let s = score_of(e, t);
    seq![s.0, s.1, s.2]
}

/// `a` ranks above `b` for the target: a higher score, else a newer
/// version, else the smaller id (the order a stable sort leaves first).
pub open spec fn beats(a: Edition, b: Edition, t: Target) -> bool {
    let s = lex(score_seq(a, t), score_seq(b, t));
    let v = lex(version_of(a.id@), version_of(b.id@));
    s > 0 || (s == 0 && (v > 0 || (v == 0 && key_lt(a.id@, b.id@))))
}

/// `a` and `b` rank alike: same score, same version, same id.
pub open spec fn ties(a: Edition, b: Edition, t: Target) -> bool {
    score_seq(a, t) == score_seq(b, t) && a.id@ == b.id@
}

proof fn lemma_beats_order(a: Edition, b: Edition, c: Edition, t: Target)
    ensures
        !beats(a, a, t),
        beats(a, b, t) && beats(b, c, t) ==> beats(a, c, t),
        beats(a, b, t) || beats(b, a, t) || ties(a, b, t),
        beats(a, b, t) ==> !beats(b, a, t),
        ties(a, b, t) ==> (beats(a, c, t) == beats(b, c, t) && beats(c, a, t) == beats(c, b, t)),
{
    let (sa, sb, sc) = (score_seq(a, t), score_seq(b, t), score_seq(c, t));
    let (va, vb, vc) = (version_of(a.id@), version_of(b.id@), version_of(c.id@));
    lemma_lex_antisym(sa, sa);
    lemma_lex_antisym(va, va);
    lemma_key_lt_total(a.id@, a.id@);
    lemma_lex_antisym(sa, sb);
    lemma_lex_antisym(sb, sc);
    lemma_lex_antisym(sa, sc);
    lemma_lex_antisym(va, vb);
    lemma_lex_antisym(vb, vc);
    lemma_lex_antisym(va, vc);
    lemma_key_lt_total(a.id@, b.id@);
    lemma_key_lt_total(b.id@, c.id@);
    lemma_key_lt_total(a.id@, c.id@);
    if lex(sb, sa) < 0 && lex(sc, sb) < 0 {
        lemma_lex_trans(sc, sb, sa);
    }
    if lex(vb, va) < 0 && lex(vc, vb) < 0 {
        lemma_lex_trans(vc, vb, va);
    }
    if key_lt(a.id@, b.id@) && key_lt(b.id@, c.id@) {
        lemma_key_lt_trans(a.id@, b.id@, c.id@);
    }
    if sa == sb && a.id@ == b.id@ {
        assert(va == vb);
    }
}

/// Index `i` of `fit` holds the best edition, the first of any that rank
/// alike.
pub open spec fn first_best(fit: Seq<Edition>, i: int, t: Target) -> bool {
    &&& 0 <= i < fit.len()
    &&& forall|j: int| 0 <= j < fit.len() ==> !beats(#[trigger] fit[j], fit[i], t)
    &&& forall|j: int| 0 <= j < i ==> beats(fit[i], #[trigger] fit[j], t)
}

proof fn lemma_first_best_unique(fit: Seq<Edition>, i: int, k: int, t: Target)
    requires
        first_best(fit, i, t),
        first_best(fit, k, t),
    ensures
        i == k,
{
    if i < k {
        assert(beats(fit[k], fit[i], t));
    }
    if k < i {
        assert(beats(fit[i], fit[k], t));
    }
}

/// Edition `a` reaches deeper on the target than `b` while matching its
/// colour alike: the target has a depth, `b` is capped below it, and `a` has
/// no cap or a higher one.
pub open spec fn reaches_deeper(a: Edition, b: Edition, t: Target) -> bool {
    &&& (a.color == Some(t.color)) == (b.color == Some(t.color))
    &&& t.max_depth > 0
    &&& 0 < b.max_depth < t.max_depth
    &&& (a.max_depth == 0 || a.max_depth > b.max_depth)
}

/// Of two editions that match the target's colour alike, the one whose
/// depth ceiling (capped at the target's) is higher ranks above the other,
/// whatever their preferences: a colour edition beats a 1-bit one on a
/// colour screen.
pub proof fn lemma_deeper_edition_wins(a: Edition, b: Edition, t: Target)
    requires
        reaches_deeper(a, b, t),
    ensures
        beats(a, b, t),
        !beats(b, a, t),
{
    let x = score_seq(a, t);
    let y = score_seq(b, t);
    assert(x[0] == y[0]);
    assert(x[1] > y[1]);
    assert(x.drop_first() =~= seq![x[1], x[2]]);
    assert(y.drop_first() =~= seq![y[1], y[2]]);
    assert(lex(x.drop_first(), y.drop_first()) == 1);
    assert(lex(x, y) == 1);
    lemma_lex_antisym(x, y);
    lemma_beats_order(a, b, b, t);
}

/// An edition whose colour facet matches the target's screen ranks above
/// one whose facet does not (or is unknown), whatever their depths and
/// preferences.
pub proof fn lemma_colour_match_wins(a: Edition, b: Edition, t: Target)
    requires
        a.color == Some(t.color),
        b.color != Some(t.color),
    ensures
        beats(a, b, t),
        !beats(b, a, t),
{
    let x = score_seq(a, t);
    let y = score_seq(b, t);
    assert(x[0] > y[0]);
    assert(lex(x, y) == 1);
    lemma_lex_antisym(x, y);
    lemma_beats_order(a, b, b, t);
}

/// Between editions alike in colour facet and depth ceiling, the higher
/// `prefer` ranks above.
pub proof fn lemma_prefer_breaks_ties(a: Edition, b: Edition, t: Target)
    requires
        a.color == b.color,
        a.max_depth == b.max_depth,
        a.prefer > b.prefer,
    ensures
        beats(a, b, t),
        !beats(b, a, t),
{
    let x = score_seq(a, t);
    let y = score_seq(b, t);
    assert(x[0] == y[0] && x[1] == y[1] && x[2] > y[2]);
    assert(x.drop_first() =~= seq![x[1], x[2]]);
    assert(y.drop_first() =~= seq![y[1], y[2]]);
    assert(x.drop_first().drop_first() =~= seq![x[2]]);
    assert(y.drop_first().drop_first() =~= seq![y[2]]);
    assert(lex(x.drop_first().drop_first(), y.drop_first().drop_first()) == 1);
    assert(lex(x.drop_first(), y.drop_first()) == 1);
    assert(lex(x, y) == 1);
    lemma_lex_antisym(x, y);
    lemma_beats_order(a, b, b, t);
}

proof fn lemma_first_best_exists(fit: Seq<Edition>, t: Target)
    requires
        fit.len() > 0,
    ensures
        exists|i: int| first_best(fit, i, t),
    decreases fit.len(),
{
    let n = fit.len() as int;
    if n == 1 {
        lemma_beats_order(fit[0], fit[0], fit[0], t);
        assert(first_best(fit, 0, t));
    } else {
        let p = fit.drop_last();
        lemma_first_best_exists(p, t);
        let i = choose|i: int| first_best(p, i, t);
        let x = fit[n - 1];
        if beats(x, p[i], t) {
            assert forall|j: int| 0 <= j < fit.len() implies !beats(#[trigger] fit[j], fit[n - 1], t) by {
                lemma_beats_order(x, x, x, t);
                if j < n - 1 {
                    assert(fit[j] == p[j]);
                    lemma_beats_order(p[j], x, p[i], t);
                }
            }
            assert forall|j: int| 0 <= j < n - 1 implies beats(fit[n - 1], #[trigger] fit[j], t) by {
                assert(fit[j] == p[j]);
                assert(!beats(p[j], p[i], t));
                lemma_beats_order(p[i], p[j], x, t);
                lemma_beats_order(x, p[i], p[j], t);
            }
            assert(first_best(fit, n - 1, t));
        } else {
            assert forall|j: int| 0 <= j < fit.len() implies !beats(#[trigger] fit[j], fit[i], t) by {
                if j < n - 1 {
                    assert(fit[j] == p[j]);
                }
            }
            assert forall|j: int| 0 <= j < i implies beats(fit[i], #[trigger] fit[j], t) by {
                assert(fit[j] == p[j]);
            }
            assert(first_best(fit, i, t));
        }
    }
}

/// The best edition reaches at least as deep as any other of the same
/// colour match: no admissible edition reaches deeper than the one chosen.
pub proof fn lemma_best_reaches_deepest(fit: Seq<Edition>, i: int, j: int, t: Target)
    requires
        first_best(fit, i, t),
        0 <= j < fit.len(),
    ensures
        !reaches_deeper(fit[j], fit[i], t),
{
    if reaches_deeper(fit[j], fit[i], t) {
        lemma_deeper_edition_wins(fit[j], fit[i], t);
    }
}

/// A group without a pin never collapses to an edition that another
/// admitted edition of the group reaches deeper than (when no other
/// admitted edition shares its id).
pub proof fn lemma_decide_prefers_depth(ms: Seq<Edition>, t: Target, ia: int, ib: int)
    requires
        0 <= ia < admitted(ms, t).len(),
        0 <= ib < admitted(ms, t).len(),
        reaches_deeper(admitted(ms, t)[ia], admitted(ms, t)[ib], t),
        forall|k: int|
            0 <= k < admitted(ms, t).len() && (#[trigger] admitted(ms, t)[k]).id@ == admitted(ms, t)[ib].id@ ==> k
                == ib,
    ensures
        decide(ms, t, None).0 != Some(admitted(ms, t)[ib].id@),
{
    let fit = admitted(ms, t);
    lemma_first_best_exists(fit, t);
    let w = choose|w: int| first_best(fit, w, t);
    lemma_deeper_edition_wins(fit[ia], fit[ib], t);
    assert(w != ib);
    assert(best_id(fit, t) == fit[w].id@);
}

/// The id of the best edition of a non-empty list.
pub open spec fn best_id(fit: Seq<Edition>, t: Target) -> Seq<char> {
    fit[choose|i: int| first_best(fit, i, t)].id@
}

fn lex_u32(a: &Vec<u32>, b: &Vec<u32>) -> (r: i8)
    ensures
        r == lex(a@.map_values(|x: u32| x as int), b@.map_values(|x: u32| x as int)),
{
    let ghost x = a@.map_values(|v: u32| v as int);
    let ghost y = b@.map_values(|v: u32| v as int);
    let mut i: usize = 0;
    assert(x.skip(0) =~= x);
    assert(y.skip(0) =~= y);
    while i < a.len() && i < b.len() && a[i] == b[i]
        invariant
            i <= a@.len(),
            i <= b@.len(),
            x == a@.map_values(|v: u32| v as int),
            y == b@.map_values(|v: u32| v as int),
            lex(x, y) == lex(x.skip(i as int), y.skip(i as int)),
        decreases a@.len() - i,
    {
        proof {
            assert(x.skip(i as int).drop_first() =~= x.skip(i + 1));
            assert(y.skip(i as int).drop_first() =~= y.skip(i + 1));
        }
        i = i + 1;
    }
    if i == a.len() && i == b.len() {
        0
    } else if i == a.len() {
        -1
    } else if i == b.len() {
        1
    } else if a[i] < b[i] {
        -1
    } else {
        1
    }
}

fn lex3(a: (i64, i64, i64), b: (i64, i64, i64)) -> (r: i8)
    ensures
        r == lex(seq![a.0 as int, a.1 as int, a.2 as int], seq![b.0 as int, b.1 as int, b.2 as int]),
{
    let ghost x = seq![a.0 as int, a.1 as int, a.2 as int];
    let ghost y = seq![b.0 as int, b.1 as int, b.2 as int];
    proof {
        assert(x.drop_first() =~= seq![a.1 as int, a.2 as int]);
        assert(y.drop_first() =~= seq![b.1 as int, b.2 as int]);
        assert(x.drop_first().drop_first() =~= seq![a.2 as int]);
        assert(y.drop_first().drop_first() =~= seq![b.2 as int]);
        assert(x.drop_first().drop_first().drop_first() =~= Seq::<int>::empty());
        assert(y.drop_first().drop_first().drop_first() =~= Seq::<int>::empty());
        reveal_with_fuel(lex, 4);
    }
    if a.0 < b.0 {
        -1
    } else if a.0 > b.0 {
        1
    } else if a.1 < b.1 {
        -1
    } else if a.1 > b.1 {
        1
    } else if a.2 < b.2 {
        -1
    } else if a.2 > b.2 {
        1
    } else {
        0
    }
}

/// Whether `a` ranks above `b` for the target.
fn ranks_above(a: &Edition, b: &Edition, t: &Target) -> (r: bool)
    ensures
        r == beats(*a, *b, *t),
{
    let s = lex3(score(a, t), score(b, t));
    if s != 0 {
        return s > 0;
    }
    let v = lex_u32(&version_key(a.id.as_str()), &version_key(b.id.as_str()));
    if v != 0 {
        return v > 0;
    }
    crate::keyed::string_lt(a.id.as_str(), b.id.as_str())
}


// ---- collapsing groups -----------------------------------------------------

/// The editions at the given indices, in that order.
pub open spec fn pick(eds: Seq<Edition>, idx: Seq<usize>) -> Seq<Edition> {
    Seq::new(idx.len(), |k: int| eds[idx[k] as int])
}

/// The edition is of group `g`.
pub open spec fn of_group(e: Edition, g: Seq<char>) -> bool {
    e.group matches Some(x) && x@ == g
}

/// The editions of group `g`, in order.
pub open spec fn members(eds: Seq<Edition>, g: Seq<char>) -> Seq<Edition>
    decreases eds.len(),
{
    if eds.len() == 0 {
        Seq::empty()
    } else {
        let m = members(eds.drop_last(), g);
        if of_group(eds.last(), g) { m.push(eds.last()) } else { m }
    }
}

/// The ids of the editions with no group, in order.
pub open spec fn ungrouped(eds: Seq<Edition>) -> Seq<Seq<char>>
    decreases eds.len(),
{
    if eds.len() == 0 {
        Seq::empty()
    } else {
        let u = ungrouped(eds.drop_last());
        if eds.last().group is None { u.push(eds.last().id@) } else { u }
    }
}

/// Some edition is of group `g`.
pub open spec fn has_group(eds: Seq<Edition>, g: Seq<char>) -> bool {
    exists|i: int| 0 <= i < eds.len() && of_group(#[trigger] eds[i], g)
}

/// The editions that admit the target, in order.
pub open spec fn admitted(ms: Seq<Edition>, t: Target) -> Seq<Edition>
    decreases ms.len(),
{
    if ms.len() == 0 {
        Seq::empty()
    } else {
        let a = admitted(ms.drop_last(), t);
        if admits(ms.last(), t) { a.push(ms.last()) } else { a }
    }
}

/// The ids of `ms` other than `keep`, in order.
pub open spec fn ids_except(ms: Seq<Edition>, keep: Seq<char>) -> Seq<Seq<char>>
    decreases ms.len(),
{
    if ms.len() == 0 {
        Seq::empty()
    } else {
        let r = ids_except(ms.drop_last(), keep);
        if ms.last().id@ != keep { r.push(ms.last().id@) } else { r }
    }
}

/// The ids of `ms`, in order.
pub open spec fn all_ids(ms: Seq<Edition>) -> Seq<Seq<char>>
    decreases ms.len(),
{
    if ms.len() == 0 {
        Seq::empty()
    } else {
        all_ids(ms.drop_last()).push(ms.last().id@)
    }
}

/// Some edition of `ms` has id `p`.
pub open spec fn has_id(ms: Seq<Edition>, p: Seq<char>) -> bool {
    exists|i: int| 0 <= i < ms.len() && (#[trigger] ms[i]).id@ == p
}

/// How a group resolves: `(chosen, dropped, pinned)`. A pin among the
/// members wins; else the best admitted edition; else nothing, every member
/// dropped.
pub open spec fn decide(ms: Seq<Edition>, t: Target, pin: Option<Seq<char>>) -> (Option<Seq<char>>, Seq<Seq<char>>, bool) {
    if pin matches Some(p) && has_id(ms, p) {
        (Some(pin.unwrap()), ids_except(ms, pin.unwrap()), true)
    } else {
        let fit = admitted(ms, t);
        if fit.len() == 0 {
            (None, all_ids(ms), false)
        } else {
            let c = best_id(fit, t);
            (Some(c), ids_except(ms, c), false)
        }
    }
}

/// The chosen ids of the decisions, in order.
pub open spec fn winners(ds: Seq<Decision>) -> Seq<Seq<char>>
    decreases ds.len(),
{
    if ds.len() == 0 {
        Seq::empty()
    } else {
        let w = winners(ds.drop_last());
        match ds.last().chosen {
            Some(c) => w.push(c@),
            None => w,
        }
    }
}

/// A decision records `decide`'s outcome for its group.
pub open spec fn records(d: Decision, eds: Seq<Edition>, t: Target, pins: Seq<(String, String)>) -> bool {
    let o = decide(members(eds, d.group@), t, opt_seq(lookup(pins, d.group@)));
    opt_seq(d.chosen) == o.0 && views(d.dropped@) == o.1 && d.pinned == o.2
}

fn member_idx(eds: &Vec<Edition>, g: &str) -> (r: Vec<usize>)
    ensures
        pick(eds@, r@) == members(eds@, g@),
        forall|k: int| 0 <= k < r@.len() ==> r@[k] < eds@.len(),
{
    let mut r: Vec<usize> = Vec::new();
    let mut i: usize = 0;
    while i < eds.len()
        invariant
            i <= eds@.len(),
            pick(eds@, r@) == members(eds@.take(i as int), g@),
            forall|k: int| 0 <= k < r@.len() ==> r@[k] < eds@.len(),
        decreases eds@.len() - i,
    {
        proof {
            assert(eds@.take(i + 1).drop_last() =~= eds@.take(i as int));
            assert(eds@.take(i + 1).last() == eds@[i as int]);
        }
        let hit = match &eds[i].group {
            Some(x) => same_str(x.as_str(), g),
            None => false,
        };
        if hit {
            r.push(i);
        }
        i = i + 1;
        proof {
            assert(pick(eds@, r@) =~= members(eds@.take(i as int), g@));
        }
    }
    proof {
        assert(eds@.take(i as int) =~= eds@);
    }
    r
}

fn admitted_idx(eds: &Vec<Edition>, idx: &Vec<usize>, t: &Target) -> (r: Vec<usize>)
    requires
        forall|k: int| 0 <= k < idx@.len() ==> idx@[k] < eds@.len(),
    ensures
        pick(eds@, r@) == admitted(pick(eds@, idx@), *t),
        forall|k: int| 0 <= k < r@.len() ==> r@[k] < eds@.len(),
{
    let ghost ms = pick(eds@, idx@);
    let mut r: Vec<usize> = Vec::new();
    let mut i: usize = 0;
    while i < idx.len()
        invariant
            i <= idx@.len(),
            ms == pick(eds@, idx@),
            forall|k: int| 0 <= k < idx@.len() ==> idx@[k] < eds@.len(),
            pick(eds@, r@) == admitted(ms.take(i as int), *t),
            forall|k: int| 0 <= k < r@.len() ==> r@[k] < eds@.len(),
        decreases idx@.len() - i,
    {
        proof {
            assert(ms.take(i + 1).drop_last() =~= ms.take(i as int));
            assert(ms.take(i + 1).last() == eds@[idx@[i as int] as int]);
        }
        if fits(&eds[idx[i]], t) {
            r.push(idx[i]);
        }
        i = i + 1;
        proof {
            assert(pick(eds@, r@) =~= admitted(ms.take(i as int), *t));
        }
    }
    proof {
        assert(ms.take(i as int) =~= ms);
    }
    r
}

fn ids_other(eds: &Vec<Edition>, idx: &Vec<usize>, keep: Option<&str>) -> (r: Vec<String>)
    requires
        forall|k: int| 0 <= k < idx@.len() ==> idx@[k] < eds@.len(),
    ensures
        views(r@) == match keep {
            Some(k) => ids_except(pick(eds@, idx@), k@),
            None => all_ids(pick(eds@, idx@)),
        },
{
    let ghost ms = pick(eds@, idx@);
    let mut r: Vec<String> = Vec::new();
    let mut i: usize = 0;
    while i < idx.len()
        invariant
            i <= idx@.len(),
            ms == pick(eds@, idx@),
            forall|k: int| 0 <= k < idx@.len() ==> idx@[k] < eds@.len(),
            views(r@) == match keep {
                Some(k) => ids_except(ms.take(i as int), k@),
                None => all_ids(ms.take(i as int)),
            },
        decreases idx@.len() - i,
    {
        proof {
            assert(ms.take(i + 1).drop_last() =~= ms.take(i as int));
            assert(ms.take(i + 1).last() == eds@[idx@[i as int] as int]);
        }
        let id = &eds[idx[i]].id;
        let take = match keep {
            Some(k) => !same_str(id.as_str(), k),
            None => true,
        };
        if take {
            r.push(id.clone());
        }
        i = i + 1;
        proof {
            assert(views(r@) =~= match keep {
                Some(k) => ids_except(ms.take(i as int), k@),
                None => all_ids(ms.take(i as int)),
            });
        }
    }
    proof {
        assert(ms.take(i as int) =~= ms);
    }
    r
}

fn has_id_exec(eds: &Vec<Edition>, idx: &Vec<usize>, p: &str) -> (r: bool)
    requires
        forall|k: int| 0 <= k < idx@.len() ==> idx@[k] < eds@.len(),
    ensures
        r == has_id(pick(eds@, idx@), p@),
{
    let ghost ms = pick(eds@, idx@);
    let mut i: usize = 0;
    while i < idx.len()
        invariant
            i <= idx@.len(),
            ms == pick(eds@, idx@),
            forall|k: int| 0 <= k < idx@.len() ==> idx@[k] < eds@.len(),
            forall|k: int| 0 <= k < i ==> (#[trigger] ms[k]).id@ != p@,
        decreases idx@.len() - i,
    {
        if same_str(eds[idx[i]].id.as_str(), p) {
            assert(ms[i as int].id@ == p@);
            return true;
        }
        i = i + 1;
    }
    false
}

fn best_pos(eds: &Vec<Edition>, fit: &Vec<usize>, t: &Target) -> (r: usize)
    requires
        fit@.len() > 0,
        forall|k: int| 0 <= k < fit@.len() ==> fit@[k] < eds@.len(),
    ensures
        first_best(pick(eds@, fit@), r as int, *t),
{
    let ghost f = pick(eds@, fit@);
    let mut best: usize = 0;
    let mut j: usize = 1;
    proof {
        lemma_beats_order(f[0], f[0], f[0], *t);
    }
    while j < fit.len()
        invariant
            1 <= j <= fit@.len(),
            best < j,
            f == pick(eds@, fit@),
            forall|k: int| 0 <= k < fit@.len() ==> fit@[k] < eds@.len(),
            forall|k: int| 0 <= k < j ==> !beats(#[trigger] f[k], f[best as int], *t),
            forall|k: int| 0 <= k < best ==> beats(f[best as int], #[trigger] f[k], *t),
        decreases fit@.len() - j,
    {
        if ranks_above(&eds[fit[j]], &eds[fit[best]], t) {
            proof {
                let (b, c) = (f[best as int], f[j as int]);
                assert forall|k: int| 0 <= k < j + 1 implies !beats(#[trigger] f[k], c, *t) by {
                    lemma_beats_order(f[k], c, b, *t);
                    lemma_beats_order(c, c, c, *t);
                }
                assert forall|k: int| 0 <= k < j implies beats(c, #[trigger] f[k], *t) by {
                    lemma_beats_order(c, f[k], b, *t);
                    lemma_beats_order(f[k], b, c, *t);
                    lemma_beats_order(c, b, f[k], *t);
                    if k < best {
                        assert(beats(b, f[k], *t));
                    }
                }
            }
            best = j;
        }
        j = j + 1;
    }
    best
}

/// Collapse editions to one per group for the target: the ids to keep
/// (every ungrouped edition in order, then each group's winner, groups
/// ascending) and a decision per group, groups ascending. `pins` maps a
/// group to a forced edition id, which wins where it is one of the group's
/// members.
pub fn collapse(editions: &Vec<Edition>, target: &Target, pins: &Keyed<String>) -> (r: (Vec<String>, Vec<Decision>))
    requires
        pins.wf(),
    ensures
        forall|i: int, j: int| 0 <= i < j < r.1@.len() ==> key_lt(#[trigger] r.1@[i].group@, #[trigger] r.1@[j].group@),
        forall|g: Seq<char>| #[trigger] has_group(editions@, g) <==> exists|i: int| 0 <= i < r.1@.len() && (#[trigger] r.1@[i]).group@ == g,
        forall|i: int| 0 <= i < r.1@.len() ==> records(#[trigger] r.1@[i], editions@, *target, pins.entries@),
        views(r.0@) == ungrouped(editions@) + winners(r.1@),
{
    let mut out: Vec<String> = Vec::new();
    let mut set: Keyed<()> = Keyed::new();
    let mut i: usize = 0;
    while i < editions.len()
        invariant
            i <= editions@.len(),
            set.wf(),
            views(out@) == ungrouped(editions@.take(i as int)),
            forall|g: Seq<char>| #![trigger lookup(set.entries@, g)]
                (lookup(set.entries@, g) is Some) <==> has_group(editions@.take(i as int), g),
        decreases editions@.len() - i,
    {
        let ghost e1 = editions@.take(i + 1);
        let ghost e0 = editions@.take(i as int);
        proof {
            assert(e1.drop_last() =~= e0);
            assert(e1.last() == editions@[i as int]);
        }
        let ghost before = set.entries@;
        match &editions[i].group {
            Some(g) => {
                set.insert_absent(g.clone(), ());
            },
            None => {
                out.push(editions[i].id.clone());
            },
        }
        proof {
            assert(views(out@) =~= ungrouped(e1));
            assert forall|g: Seq<char>| #![trigger lookup(set.entries@, g)]
                (lookup(set.entries@, g) is Some) <==> has_group(e1, g) by {
                if has_group(e1, g) {
                    let w = choose|w: int| 0 <= w < e1.len() && of_group(#[trigger] e1[w], g);
                    if w < i {
                        assert(e0[w] == e1[w]);
                        assert(has_group(e0, g));
                    }
                }
                if has_group(e0, g) {
                    let w = choose|w: int| 0 <= w < e0.len() && of_group(#[trigger] e0[w], g);
                    assert(e1[w] == e0[w]);
                }
                if lookup(set.entries@, g) is Some && !(lookup(before, g) is Some) {
                    assert(e1[i as int] == editions@[i as int]);
                }
            }
        }
        i = i + 1;
    }
    proof {
        assert(editions@.take(i as int) =~= editions@);
    }
    let names = set.keys();
    let ghost u = views(out@);
    let mut decisions: Vec<Decision> = Vec::new();
    let mut g: usize = 0;
    while g < names.len()
        invariant
            g <= names@.len(),
            names@.len() == set.entries@.len(),
            forall|j: int| 0 <= j < names@.len() ==> (#[trigger] names@[j])@ == set.entries@[j].0@,
            set.wf(),
            pins.wf(),
            u == ungrouped(editions@),
            decisions@.len() == g,
            forall|j: int| 0 <= j < g ==> (#[trigger] decisions@[j]).group@ == names@[j]@,
            forall|j: int| 0 <= j < g ==> records(#[trigger] decisions@[j], editions@, *target, pins.entries@),
            views(out@) == u + winners(decisions@),
        decreases names@.len() - g,
    {
        let name = names[g].as_str();
        let idx = member_idx(editions, name);
        let ghost ms = pick(editions@, idx@);
        let pin = pins.search(name);
        let pinned_here = match pin {
            Some(p) => has_id_exec(editions, &idx, p.as_str()),
            None => false,
        };
        let d = if pinned_here {
            let p = pin.unwrap();
            Decision {
                group: names[g].clone(),
                chosen: Some(p.clone()),
                dropped: ids_other(editions, &idx, Some(p.as_str())),
                pinned: true,
            }
        } else {
            let fit = admitted_idx(editions, &idx, target);
            if fit.len() == 0 {
                Decision { group: names[g].clone(), chosen: None, dropped: ids_other(editions, &idx, None), pinned: false }
            } else {
                let b = best_pos(editions, &fit, target);
                let c = editions[fit[b]].id.clone();
                proof {
                    let f = pick(editions@, fit@);
                    let w = choose|w: int| first_best(f, w, *target);
                    lemma_first_best_unique(f, w, b as int, *target);
                }
                let dropped = ids_other(editions, &idx, Some(c.as_str()));
                Decision { group: names[g].clone(), chosen: Some(c), dropped, pinned: false }
            }
        };
        proof {
            assert(records(d, editions@, *target, pins.entries@));
        }
        let ghost out0 = views(out@);
        let ghost dg = d;
        match &d.chosen {
            Some(c) => out.push(c.clone()),
            None => {},
        }
        proof {
            assert(views(out@) =~= match dg.chosen {
                Some(c) => out0.push(c@),
                None => out0,
            });
        }
        let ghost before = decisions@;
        decisions.push(d);
        proof {
            assert(decisions@.drop_last() =~= before);
            assert(decisions@.last() == dg);
            assert(views(out@) =~= u + winners(decisions@));
        }
        g = g + 1;
    }
    proof {
        assert forall|a: int, b: int| 0 <= a < b < decisions@.len() implies key_lt(#[trigger] decisions@[a].group@, #[trigger] decisions@[b].group@) by {
            assert(decisions@[a].group@ == set.entries@[a].0@);
            assert(decisions@[b].group@ == set.entries@[b].0@);
        }
        assert forall|s: Seq<char>| #[trigger] has_group(editions@, s) <==> exists|a: int| 0 <= a < decisions@.len() && (#[trigger] decisions@[a]).group@ == s by {
            lemma_lookup_some_iff(set.entries@, s);
            assert(has_group(editions@, s) == (lookup(set.entries@, s) is Some));
            if exists|a: int| 0 <= a < set.entries@.len() && (#[trigger] set.entries@[a]).0@ == s {
                let a = choose|a: int| 0 <= a < set.entries@.len() && (#[trigger] set.entries@[a]).0@ == s;
                assert(decisions@[a].group@ == s);
            }
            if exists|a: int| 0 <= a < decisions@.len() && (#[trigger] decisions@[a]).group@ == s {
                let a = choose|a: int| 0 <= a < decisions@.len() && (#[trigger] decisions@[a]).group@ == s;
                assert(set.entries@[a].0@ == s);
            }
        }
    }
    (out, decisions)
}

} // verus!
