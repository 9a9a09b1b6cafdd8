//! The Macintosh Garden title table, cross-referenced against the library
//! (MacPack) to find what is missing: OS support, architecture, year,
//! category, colour and mouse, and whether a same-named title is already in
//! the library. Reading the archive's record files and probing screenshots
//! are the caller's part; it hands in what it read.

use crate::enrich::{candidate_keys, dedup_nonempty, raw_keys};
use crate::keyed::{key_lt, lemma_lookup_some_iff, lookup, Keyed};
use crate::mg::{box_name, is_box, join_path, path_join};
use crate::text::{
    chars_of, contains_chars, contains_seq, lower_chars, lower_seq, same_str, to_lower, trim_chars, trim_seq,
    unicode_lower,
};
use std::collections::HashMap;
use vstd::prelude::*;

verus! {

broadcast use vstd::std_specs::hash::group_hash_axioms;

/// Game or application.
#[derive(Clone, Copy, PartialEq, Eq, Debug, Structural)]
pub enum Kind {
    Game,
    App,
}

impl Kind {
    /// The archive image subdirectory for this kind.
    pub fn dir(self) -> (r: &'static str)
        ensures
            r@ == match self {
                Kind::Game => "games"@,
                Kind::App => "apps"@,
            },
    {
        match self {
            Kind::Game => "games",
            Kind::App => "apps",
        }
    }

    /// The kind's label.
    pub fn label(self) -> (r: &'static str)
        ensures
            r@ == match self {
                Kind::Game => "game"@,
                Kind::App => "app"@,
            },
    {
        match self {
            Kind::Game => "game",
            Kind::App => "app",
        }
    }
}

/// One Macintosh Garden title, with the fields a view filters on.
#[derive(Clone, Debug)]
pub struct Entry {
    pub nid: i64,
    pub kind: Kind,
    pub title: String,
    pub year: Option<i64>,
    /// Supported OS labels, e.g. `["Mac OS 6","Mac OS 7",…]`.
    pub systems: Vec<String>,
    pub arch: Vec<String>,
    pub categories: Vec<String>,
    pub perspective: Vec<String>,
    /// Colour (true) / B&W (false): curated wins, else the screenshot cache.
    pub color: Option<bool>,
    /// Mouse required; known for curated titles only.
    pub mouse: Option<bool>,
    /// Whether a same-named title is already in the library.
    pub in_macpack: bool,
    pub screenshots: Vec<String>,
}

/// The rank of an OS label, in tenths of a major version (`Mac OS 1 - 5`
/// ranks 50, `Mac OS 8.5` 85, `Mac OS X` 100); labels are trimmed first.
pub open spec fn os_rank(label: Seq<char>) -> Option<int> {
    let t = trim_seq(label);
    if t == "Mac OS 1 - 5"@ || t == "Mac OS 1-5"@ {
        Some(50)
    } else if t == "Mac OS 6"@ {
        Some(60)
    } else if t == "Mac OS 7"@ {
        Some(70)
    } else if t == "Mac OS 8"@ {
        Some(80)
    } else if t == "Mac OS 8.5"@ {
        Some(85)
    } else if t == "Mac OS 9"@ {
        Some(90)
    } else if t == "Mac OS X"@ || t == "Mac OS X (Classic)"@ {
        Some(100)
    } else {
        None
    }
}

fn rank_of(label: &str) -> (r: Option<u8>)
    ensures
        match os_rank(label@) {
            Some(k) => r matches Some(x) && x == k,
            None => r is None,
        },
{
    let cs = chars_of(label);
    let t = trim_chars(cs.as_slice());
    let ts = crate::text::string_from(t.as_slice());
    let s = ts.as_str();
    proof {
        reveal_strlit("Mac OS 1 - 5");
        reveal_strlit("Mac OS 1-5");
        reveal_strlit("Mac OS 6");
        reveal_strlit("Mac OS 7");
        reveal_strlit("Mac OS 8");
        reveal_strlit("Mac OS 8.5");
        reveal_strlit("Mac OS 9");
        reveal_strlit("Mac OS X");
        reveal_strlit("Mac OS X (Classic)");
    }
    if same_str(s, "Mac OS 1 - 5") || same_str(s, "Mac OS 1-5") {
        Some(50)
    } else if same_str(s, "Mac OS 6") {
        Some(60)
    } else if same_str(s, "Mac OS 7") {
        Some(70)
    } else if same_str(s, "Mac OS 8") {
        Some(80)
    } else if same_str(s, "Mac OS 8.5") {
        Some(85)
    } else if same_str(s, "Mac OS 9") {
        Some(90)
    } else if same_str(s, "Mac OS X") || same_str(s, "Mac OS X (Classic)") {
        Some(100)
    } else {
        None
    }
}

/// Index `i` holds the earliest known OS of `s`: its rank is known, no
/// label ranks lower, and no label before it ranks as low (the first of equal
/// minima).
pub open spec fn is_min_os(s: Seq<String>, i: int) -> bool {
    &&& 0 <= i < s.len()
    &&& os_rank(s[i]@) is Some
    &&& forall|j: int| 0 <= j < s.len() && os_rank(#[trigger] s[j]@) is Some ==> os_rank(s[i]@).unwrap() <= os_rank(s[j]@).unwrap()
    &&& forall|j: int| 0 <= j < i && os_rank(#[trigger] s[j]@) is Some ==> os_rank(s[i]@).unwrap() < os_rank(s[j]@).unwrap()
}

/// Index `i` holds the latest known OS of `s`: the last of equal maxima.
pub open spec fn is_max_os(s: Seq<String>, i: int) -> bool {
    &&& 0 <= i < s.len()
    &&& os_rank(s[i]@) is Some
    &&& forall|j: int| 0 <= j < s.len() && os_rank(#[trigger] s[j]@) is Some ==> os_rank(s[j]@).unwrap() <= os_rank(s[i]@).unwrap()
    &&& forall|j: int| i < j < s.len() && os_rank(#[trigger] s[j]@) is Some ==> os_rank(s[j]@).unwrap() < os_rank(s[i]@).unwrap()
}

/// `s` has a label of known rank.
pub open spec fn any_ranked(s: Seq<String>) -> bool {
    exists|j: int| 0 <= j < s.len() && os_rank(#[trigger] s[j]@) is Some
}

/// `e` is the 68K architecture label, in any ASCII case.
pub open spec fn is_68k_label(a: Seq<char>) -> bool {
    lower_seq(a) == "68k"@
}

impl Entry {
    /// The earliest supported OS label, or `None` where no label is known.
    pub fn min_os(&self) -> (r: Option<&str>)
        ensures
            match r {
                Some(l) => exists|i: int| #[trigger] is_min_os(self.systems@, i) && l@ == self.systems@[i]@,
                None => !any_ranked(self.systems@),
            },
    {
        let mut best: Option<usize> = None;
        let mut best_rank: u8 = 0;
        let mut i: usize = 0;
        while i < self.systems.len()
            invariant
                i <= self.systems@.len(),
                match best {
                    Some(b) => b < i && os_rank(self.systems@[b as int]@) == Some(best_rank as int)
                        && (forall|j: int| 0 <= j < i && os_rank(#[trigger] self.systems@[j]@) is Some ==> best_rank <= os_rank(self.systems@[j]@).unwrap())
                        && (forall|j: int| 0 <= j < b && os_rank(#[trigger] self.systems@[j]@) is Some ==> best_rank < os_rank(self.systems@[j]@).unwrap()),
                    None => forall|j: int| 0 <= j < i ==> os_rank(#[trigger] self.systems@[j]@) is None,
                },
            decreases self.systems@.len() - i,
        {
            match rank_of(self.systems[i].as_str()) {
                Some(k) => {
                    let better = match best {
                        Some(_) => k < best_rank,
                        None => true,
                    };
                    if better {
                        best = Some(i);
                        best_rank = k;
                    }
                },
                None => {},
            }
            i = i + 1;
        }
        match best {
            Some(b) => {
                assert(is_min_os(self.systems@, b as int));
                Some(self.systems[b].as_str())
            },
            None => None,
        }
    }

    /// The latest supported OS label, or `None` where no label is known.
    pub fn max_os(&self) -> (r: Option<&str>)
        ensures
            match r {
                Some(l) => exists|i: int| #[trigger] is_max_os(self.systems@, i) && l@ == self.systems@[i]@,
                None => !any_ranked(self.systems@),
            },
    {
        let mut best: Option<usize> = None;
        let mut best_rank: u8 = 0;
        let mut i: usize = 0;
        while i < self.systems.len()
            invariant
                i <= self.systems@.len(),
                match best {
                    Some(b) => b < i && os_rank(self.systems@[b as int]@) == Some(best_rank as int)
                        && (forall|j: int| 0 <= j < i && os_rank(#[trigger] self.systems@[j]@) is Some ==> os_rank(self.systems@[j]@).unwrap() <= best_rank)
                        && (forall|j: int| b < j < i && os_rank(#[trigger] self.systems@[j]@) is Some ==> os_rank(self.systems@[j]@).unwrap() < best_rank),
                    None => forall|j: int| 0 <= j < i ==> os_rank(#[trigger] self.systems@[j]@) is None,
                },
            decreases self.systems@.len() - i,
        {
            match rank_of(self.systems[i].as_str()) {
                Some(k) => {
                    let better = match best {
                        Some(_) => k >= best_rank,
                        None => true,
                    };
                    if better {
                        best = Some(i);
                        best_rank = k;
                    }
                },
                None => {},
            }
            i = i + 1;
        }
        match best {
            Some(b) => {
                assert(is_max_os(self.systems@, b as int));
                Some(self.systems[b].as_str())
            },
            None => None,
        }
    }

    /// Whether one of the architectures is `68k` (ASCII case ignored).
    pub fn is_68k(&self) -> (r: bool)
        ensures
            r == exists|i: int| 0 <= i < self.arch@.len() && is_68k_label(#[trigger] self.arch@[i]@),
    {
        let mut i: usize = 0;
        while i < self.arch.len()
            invariant
                i <= self.arch@.len(),
                forall|j: int| 0 <= j < i ==> !is_68k_label(#[trigger] self.arch@[j]@),
            decreases self.arch@.len() - i,
        {
            let l = lower_chars(self.arch[i].as_str());
            let t = crate::text::string_from(l.as_slice());
            proof {
                reveal_strlit("68k");
            }
            if same_str(t.as_str(), "68k") {
                return true;
            }
            i = i + 1;
        }
        false
    }

    /// The screenshot files to try for colour detection, in the order to try
    /// them: every one that is not box or cover art, then every one; each as
    /// `<archive>/<kind dir>/<nid>/<file>`, `nid_text` being the nid's decimal
    /// text.
    pub fn screenshot_candidates(&self, archive: &str, nid_text: &str) -> (r: Vec<String>)
        ensures
            r@.map_values(|p: String| p@) == shot_order(self.screenshots@).map_values(
                |f: Seq<char>| path_join(path_join(path_join(archive@, kind_dir(self.kind)), nid_text@), f),
            ),
    {
        let k = join_path(archive, self.kind.dir());
        let dir = join_path(k.as_str(), nid_text);
        let ghost d = dir@;
        let mut out: Vec<String> = Vec::new();
        let ghost mut names: Seq<Seq<char>> = Seq::empty();
        let mut i: usize = 0;
        while i < self.screenshots.len()
            invariant
                i <= self.screenshots@.len(),
                d == dir@,
                names == not_box(self.screenshots@.take(i as int)),
                out@.len() == names.len(),
                forall|x: int| 0 <= x < out@.len() ==> (#[trigger] out@[x])@ == path_join(d, names[x]),
            decreases self.screenshots@.len() - i,
        {
            proof {
                assert(self.screenshots@.take(i + 1).drop_last() =~= self.screenshots@.take(i as int));
            }
            if !is_box(self.screenshots[i].as_str()) {
                out.push(join_path(dir.as_str(), self.screenshots[i].as_str()));
                proof {
                    names = names.push(self.screenshots@[i as int]@);
                }
            }
            i = i + 1;
        }
        assert(self.screenshots@.take(i as int) =~= self.screenshots@);
        let ghost nb = names;
        let mut j: usize = 0;
        while j < self.screenshots.len()
            invariant
                j <= self.screenshots@.len(),
                d == dir@,
                nb == not_box(self.screenshots@),
                names == nb + self.screenshots@.take(j as int).map_values(|s: String| s@),
                out@.len() == names.len(),
                forall|x: int| 0 <= x < out@.len() ==> (#[trigger] out@[x])@ == path_join(d, names[x]),
            decreases self.screenshots@.len() - j,
        {
            out.push(join_path(dir.as_str(), self.screenshots[j].as_str()));
            proof {
                assert(self.screenshots@.take(j + 1).map_values(|s: String| s@) =~= self.screenshots@.take(
                    j as int,
                ).map_values(|s: String| s@).push(self.screenshots@[j as int]@));
                names = names.push(self.screenshots@[j as int]@);
            }
            j = j + 1;
        }
        proof {
            assert(self.screenshots@.take(j as int) =~= self.screenshots@);
            assert(names =~= shot_order(self.screenshots@));
            assert(out@.map_values(|p: String| p@) =~= shot_order(self.screenshots@).map_values(
                |f: Seq<char>| path_join(path_join(path_join(archive@, kind_dir(self.kind)), nid_text@), f),
            ));
        }
        out
    }
}

/// The archive subdirectory of a kind.
pub open spec fn kind_dir(k: Kind) -> Seq<char> {
    match k {
        Kind::Game => "games"@,
        Kind::App => "apps"@,
    }
}

/// The names of `s` that are not box or cover art, in order.
pub open spec fn not_box(s: Seq<String>) -> Seq<Seq<char>>
    decreases s.len(),
{
    if s.len() == 0 {
        Seq::empty()
    } else if box_name(s.last()@) {
        not_box(s.drop_last())
    } else {
        not_box(s.drop_last()).push(s.last()@)
    }
}

/// Screenshot names in the order they are tried.
pub open spec fn shot_order(s: Seq<String>) -> Seq<Seq<char>> {
    not_box(s) + s.map_values(|x: String| x@)
}

/// The colour cache: Macintosh Garden nid → colour (true) / B&W (false).
pub type ColorCache = HashMap<i64, bool>;

/// The colour cache's place in an archive.
pub fn color_cache_path(archive: &str) -> (r: String)
    ensures
        r@ == path_join(archive@, "metadata/color-cache.jsonl"@),
{
    join_path(archive, "metadata/color-cache.jsonl")
}

// ---- cross-referencing ------------------------------------------------------

/// The candidate keys of a title.
pub open spec fn keys_of(name: Seq<char>) -> Seq<Seq<char>> {
    dedup_nonempty(raw_keys(name))
}

/// The id of the first library record (`(id, name)`) one of whose name's
/// candidate keys is `k`.
pub open spec fn key_owner(lib: Seq<(String, String)>, k: Seq<char>) -> Option<Seq<char>>
    decreases lib.len(),
{
    if lib.len() == 0 {
        None
    } else {
        match key_owner(lib.drop_last(), k) {
            Some(id) => Some(id),
            None => if keys_of(lib.last().1@).contains(k) { Some(lib.last().0@) } else { None },
        }
    }
}

/// The owner of the first of `keys` that has one.
pub open spec fn first_owner(lib: Seq<(String, String)>, keys: Seq<Seq<char>>) -> Option<Seq<char>>
    decreases keys.len(),
{
    if keys.len() == 0 {
        None
    } else {
        match key_owner(lib, keys[0]) {
            Some(id) => Some(id),
            None => first_owner(lib, keys.drop_first()),
        }
    }
}

/// The library id a title matches, if any.
pub open spec fn library_match(lib: Seq<(String, String)>, title: Seq<char>) -> Option<Seq<char>> {
    first_owner(lib, keys_of(title))
}

/// The curated `(colour, mouse)` of a library id: the last compatibility
/// record `(id, colour, mouse)` for it that gives either.
pub open spec fn curated(compat: Seq<(String, Option<bool>, Option<bool>)>, id: Seq<char>) -> Option<(Option<bool>, Option<bool>)>
    decreases compat.len(),
{
    if compat.len() == 0 {
        None
    } else {
        let l = compat.last();
        if l.0@ == id && (l.1 is Some || l.2 is Some) {
            Some((l.1, l.2))
        } else {
            curated(compat.drop_last(), id)
        }
    }
}

/// An entry cross-referenced: whether it is in the library, its colour
/// (curated wins, else the cache) and its mouse need (curated only).
pub open spec fn crossed(
    e: Entry,
    lib: Seq<(String, String)>,
    compat: Seq<(String, Option<bool>, Option<bool>)>,
    cache: Map<i64, bool>,
) -> Entry {
    let m = library_match(lib, e.title@);
    let cur = match m {
        Some(id) => curated(compat, id),
        None => None,
    };
    let cached = if cache.dom().contains(e.nid) { Some(cache[e.nid]) } else { None };
    Entry {
        in_macpack: m is Some,
        color: match cur {
            Some(c) => if c.0 is Some { c.0 } else { cached },
            None => cached,
        },
        mouse: match cur {
            Some(c) => c.1,
            None => None,
        },
        ..e
    }
}

/// The optional text of an optional string.
pub open spec fn opt_view(o: Option<String>) -> Option<Seq<char>> {
    match o {
        Some(s) => Some(s@),
        None => None,
    }
}

proof fn lemma_owner_push(lib: Seq<(String, String)>, r: int, k: Seq<char>)
    requires
        0 <= r < lib.len(),
    ensures
        key_owner(lib.take(r + 1), k) == match key_owner(lib.take(r), k) {
            Some(id) => Some(id),
            None => if keys_of(lib[r].1@).contains(k) { Some(lib[r].0@) } else { None },
        },
{
    assert(lib.take(r + 1).drop_last() =~= lib.take(r));
}

/// Candidate key → id of the first library record that has it.
fn library_index(lib: &Vec<(String, String)>) -> (idx: Keyed<String>)
    ensures
        idx.wf(),
        forall|k: Seq<char>| #[trigger] opt_view(lookup(idx.entries@, k)) == key_owner(lib@, k),
{
    let mut idx: Keyed<String> = Keyed::new();
    let mut r: usize = 0;
    assert forall|k: Seq<char>| #[trigger] opt_view(lookup(idx.entries@, k)) == key_owner(lib@.take(0), k) by {
        assert(lib@.take(0).len() == 0);
    }
    while r < lib.len()
        invariant
            r <= lib@.len(),
            idx.wf(),
            forall|k: Seq<char>| #[trigger] opt_view(lookup(idx.entries@, k)) == key_owner(lib@.take(r as int), k),
        decreases lib@.len() - r,
    {
        let keys = candidate_keys(lib[r].1.as_str());
        let ghost ks = keys@.map_values(|x: String| x@);
        let ghost before = idx.entries@;
        let mut j: usize = 0;
        while j < keys.len()
            invariant
                j <= keys@.len(),
                r < lib@.len(),
                ks == keys@.map_values(|x: String| x@),
                ks == keys_of(lib@[r as int].1@),
                idx.wf(),
                forall|k: Seq<char>| #[trigger] opt_view(lookup(idx.entries@, k)) == match opt_view(lookup(before, k)) {
                    Some(id) => Some(id),
                    None => if ks.take(j as int).contains(k) { Some(lib@[r as int].0@) } else { None },
                },
            decreases keys@.len() - j,
        {
            let ghost prev = idx.entries@;
            let kj = keys[j].clone();
            let id = lib[r].0.clone();
            proof {
                assert(kj@ == ks[j as int]);
                assert(id@ == lib@[r as int].0@);
            }
            idx.insert_absent(kj, id);
            proof {
                assert forall|k: Seq<char>| #[trigger] opt_view(lookup(idx.entries@, k)) == match opt_view(lookup(before, k)) {
                    Some(id) => Some(id),
                    None => if ks.take(j + 1).contains(k) { Some(lib@[r as int].0@) } else { None },
                } by {
                    let t0 = ks.take(j as int);
                    let t1 = ks.take(j + 1);
                    let now = lookup(idx.entries@, k);
                    let was = opt_view(lookup(prev, k));
                    assert(now == match lookup(prev, k) {
                        Some(v) => Some(v),
                        None => if k == ks[j as int] { Some(id) } else { None },
                    });
                    assert(was == match opt_view(lookup(before, k)) {
                        Some(i0) => Some(i0),
                        None => if t0.contains(k) { Some(lib@[r as int].0@) } else { None },
                    });
                    assert(t1 =~= t0.push(ks[j as int]));
                    assert(ks[j as int] == keys@[j as int]@);
                    if k == ks[j as int] {
                        assert(t1[j as int] == k);
                    }
                    if t0.contains(k) {
                        let w = choose|w: int| 0 <= w < t0.len() && #[trigger] t0[w] == k;
                        assert(t1[w] == k);
                    }
                    if t1.contains(k) && k != ks[j as int] {
                        let w = choose|w: int| 0 <= w < t1.len() && #[trigger] t1[w] == k;
                        assert(t0[w] == k);
                    }
                }
            }
            j = j + 1;
        }
        proof {
            assert(ks.take(keys@.len() as int) =~= ks);
            assert forall|k: Seq<char>| #[trigger] opt_view(lookup(idx.entries@, k)) == key_owner(lib@.take(r + 1), k) by {
                lemma_owner_push(lib@, r as int, k);
            }
        }
        r = r + 1;
    }
    proof {
        assert(lib@.take(lib@.len() as int) =~= lib@);
    }
    idx
}

proof fn lemma_first_owner_found(lib: Seq<(String, String)>, keys: Seq<Seq<char>>, j: int)
    requires
        0 <= j < keys.len(),
        forall|i: int| 0 <= i < j ==> key_owner(lib, #[trigger] keys[i]) is None,
        key_owner(lib, keys[j]) is Some,
    ensures
        first_owner(lib, keys) == key_owner(lib, keys[j]),
    decreases j,
{
    if j > 0 {
        assert(key_owner(lib, keys[0]) is None);
        assert forall|i: int| 0 <= i < j - 1 implies key_owner(lib, #[trigger] keys.drop_first()[i]) is None by {
            assert(keys.drop_first()[i] == keys[i + 1]);
        }
        lemma_first_owner_found(lib, keys.drop_first(), j - 1);
    }
}

proof fn lemma_first_owner_none(lib: Seq<(String, String)>, keys: Seq<Seq<char>>)
    requires
        forall|i: int| 0 <= i < keys.len() ==> key_owner(lib, #[trigger] keys[i]) is None,
    ensures
        first_owner(lib, keys) is None,
    decreases keys.len(),
{
    if keys.len() > 0 {
        assert(key_owner(lib, keys[0]) is None);
        assert forall|i: int| 0 <= i < keys.drop_first().len() implies key_owner(lib, #[trigger] keys.drop_first()[i]) is None by {
            assert(keys.drop_first()[i] == keys[i + 1]);
        }
        lemma_first_owner_none(lib, keys.drop_first());
    }
}

/// The library id a title matches, through the index.
fn match_title(idx: &Keyed<String>, title: &str, Ghost(lib): Ghost<Seq<(String, String)>>) -> (r: Option<String>)
    requires
        idx.wf(),
        forall|k: Seq<char>| #[trigger] opt_view(lookup(idx.entries@, k)) == key_owner(lib, k),
    ensures
        opt_view(r) == library_match(lib, title@),
{
    let keys = candidate_keys(title);
    let ghost ks = keys@.map_values(|x: String| x@);
    let mut j: usize = 0;
    while j < keys.len()
        invariant
            j <= keys@.len(),
            ks == keys@.map_values(|x: String| x@),
            ks == keys_of(title@),
            idx.wf(),
            forall|k: Seq<char>| #[trigger] opt_view(lookup(idx.entries@, k)) == key_owner(lib, k),
            forall|i: int| 0 <= i < j ==> key_owner(lib, #[trigger] ks[i]) is None,
        decreases keys@.len() - j,
    {
        match idx.search(keys[j].as_str()) {
            Some(id) => {
                proof {
                    assert(ks[j as int] == keys@[j as int]@);
                    assert(opt_view(lookup(idx.entries@, ks[j as int])) == key_owner(lib, ks[j as int]));
                    lemma_first_owner_found(lib, ks, j as int);
                }
                return Some(id.clone());
            },
            None => {
                proof {
                    assert(ks[j as int] == keys@[j as int]@);
                    assert(opt_view(lookup(idx.entries@, ks[j as int])) == key_owner(lib, ks[j as int]));
                }
            },
        }
        j = j + 1;
    }
    proof {
        lemma_first_owner_none(lib, ks);
    }
    None
}

/// The curated facets of a library id.
fn curated_of(compat: &Vec<(String, Option<bool>, Option<bool>)>, id: &str) -> (r: Option<(Option<bool>, Option<bool>)>)
    ensures
        r == curated(compat@, id@),
{
    let mut i: usize = compat.len();
    assert(compat@.take(i as int) =~= compat@);
    while i > 0
        invariant
            i <= compat@.len(),
            curated(compat@, id@) == curated(compat@.take(i as int), id@),
        decreases i,
    {
        let c = &compat[i - 1];
        proof {
            assert(compat@.take(i as int).last() == compat@[i - 1]);
            assert(compat@.take(i as int).drop_last() =~= compat@.take(i - 1));
        }
        if same_str(c.0.as_str(), id) && (c.1.is_some() || c.2.is_some()) {
            return Some((c.1, c.2));
        }
        i = i - 1;
    }
    None
}

/// Cross-reference the table against the library records `(id, name)`, the
/// compatibility records `(id, colour, mouse)` and the colour cache: each
/// entry is flagged as in the library when one of its title's candidate keys
/// is one of a record's (the first such key, and for it the first record,
/// deciding the id), takes its colour from the last curated record for that
/// id that gives one and else from the cache, and its mouse need from the
/// curated record.
pub fn load(
    entries: Vec<Entry>,
    library: &Vec<(String, String)>,
    compat: &Vec<(String, Option<bool>, Option<bool>)>,
    cache: &ColorCache,
) -> (r: Vec<Entry>)
    ensures
        r@.len() == entries@.len(),
        forall|i: int| 0 <= i < r@.len() ==> #[trigger] r@[i] == crossed(entries@[i], library@, compat@, cache@),
{
    let idx = library_index(library);
    let mut out: Vec<Entry> = Vec::new();
    let mut rest = entries;
    let ghost all = rest@;
    let n0 = rest.len();
    let mut i: usize = 0;
    while rest.len() > 0
        invariant
            all.len() == n0,
            idx.wf(),
            forall|k: Seq<char>| #[trigger] opt_view(lookup(idx.entries@, k)) == key_owner(library@, k),
            i <= all.len(),
            out@.len() == i,
            rest@ == all.skip(i as int),
            forall|j: int| 0 <= j < i ==> #[trigger] out@[j] == crossed(all[j], library@, compat@, cache@),
        decreases rest@.len(),
    {
        let mut e = rest.remove(0);
        proof {
            assert(e == all[i as int]);
        }
        let m = match_title(&idx, e.title.as_str(), Ghost(library@));
        let cur = match &m {
            Some(id) => curated_of(compat, id.as_str()),
            None => None,
        };
        let cached = match cache.get(&e.nid) {
            Some(c) => Some(*c),
            None => None,
        };
        e.in_macpack = m.is_some();
        e.color = match cur {
            Some(c) => if c.0.is_some() { c.0 } else { cached },
            None => cached,
        };
        e.mouse = match cur {
            Some(c) => c.1,
            None => None,
        };
        out.push(e);
        i = i + 1;
        proof {
            assert(rest@ =~= all.skip(i as int));
        }
    }
    proof {
        assert(all.skip(i as int).len() == 0);
    }
    out
}

/// The entries colour detection has to probe: those with no colour whose
/// nid the cache does not know yet.
pub open spec fn needs_probe(e: Entry, cache: Map<i64, bool>) -> bool {
    e.color is None && !cache.dom().contains(e.nid)
}

/// `s` from its first ASCII digit on (empty when it has none).
pub open spec fn from_first_digit(s: Seq<char>) -> Seq<char>
    decreases s.len(),
{
    if s.len() == 0 || crate::text::is_ascii_digit(s[0]) { s } else { from_first_digit(s.drop_first()) }
}

/// The year an archive record's year text gives: the (up to) four characters
/// from its first digit on, read as a number, when it lies in 1901..=2099.
pub open spec fn year_in_text(s: Seq<char>) -> Option<int> {
    let t = from_first_digit(s);
    let d = if t.len() < 4 { t } else { t.take(4) };
    match crate::text::parse_i64_spec(d) {
        Some(y) => if 1900 < y < 2100 { Some(y) } else { None },
        None => None,
    }
}

/// The year of an archive record's year text (years are text there,
/// sometimes ranges): the first four-digit year, within 1901..=2099.
pub fn year_text(s: &str) -> (r: Option<i64>)
    ensures
        match year_in_text(s@) {
            Some(y) => r matches Some(v) && v == y,
            None => r is None,
        },
{
    let cs = chars_of(s);
    let mut i: usize = 0;
    assert(cs@.skip(0) =~= cs@);
    while i < cs.len() && !(cs[i] >= '0' && cs[i] <= '9')
        invariant
            i <= cs@.len(),
            cs@ == s@,
            from_first_digit(s@) == from_first_digit(cs@.skip(i as int)),
        decreases cs@.len() - i,
    {
        proof {
            assert(cs@.skip(i as int).drop_first() =~= cs@.skip(i + 1));
        }
        i = i + 1;
    }
    let mut d: Vec<char> = Vec::new();
    let mut k = i;
    while k < cs.len() && k - i < 4
        invariant
            i <= k <= cs@.len(),
            k <= i + 4,
            d@ == cs@.subrange(i as int, k as int),
        decreases cs@.len() - k,
    {
        d.push(cs[k]);
        k = k + 1;
        proof {
            assert(d@ =~= cs@.subrange(i as int, k as int));
        }
    }
    proof {
        let t = cs@.skip(i as int);
        if t.len() < 4 {
            assert(d@ =~= t);
        } else {
            assert(d@ =~= t.take(4));
        }
    }
    match crate::text::parse_i64(d.as_slice()) {
        Some(y) => {
            if y > 1900 && y < 2100 {
                Some(y)
            } else {
                None
            }
        },
        None => None,
    }
}

/// Which entries colour detection has to probe, entry by entry.
pub fn probes_needed(entries: &Vec<Entry>, cache: &ColorCache) -> (r: Vec<bool>)
    ensures
        r@.len() == entries@.len(),
        forall|k: int| 0 <= k < entries@.len() ==> r@[k] == needs_probe(#[trigger] entries@[k], cache@),
{
    let mut r: Vec<bool> = Vec::new();
    let mut k: usize = 0;
    while k < entries.len()
        invariant
            k <= entries@.len(),
            r@.len() == k,
            forall|j: int| 0 <= j < k ==> r@[j] == needs_probe(#[trigger] entries@[j], cache@),
        decreases entries@.len() - k,
    {
        let need = entries[k].color.is_none() && !cache.contains_key(&entries[k].nid);
        r.push(need);
        k = k + 1;
    }
    r
}

/// The cache after recording, in order, the detected colour of every entry
/// that needed a probe and whose probe gave one.
pub open spec fn detected(entries: Seq<Entry>, probes: Seq<Option<bool>>, cache: Map<i64, bool>, start: Map<i64, bool>) -> Map<i64, bool>
    decreases entries.len(),
{
    if entries.len() == 0 {
        cache
    } else {
        let n = entries.len() - 1;
        let c = detected(entries.drop_last(), probes.take(n), cache, start);
        if needs_probe(entries[n], start) && probes[n] is Some {
            c.insert(entries[n].nid, probes[n].unwrap())
        } else {
            c
        }
    }
}

/// How many of those probes gave a colour.
pub open spec fn detected_count(entries: Seq<Entry>, probes: Seq<Option<bool>>, start: Map<i64, bool>) -> nat
    decreases entries.len(),
{
    if entries.len() == 0 {
        0
    } else {
        let n = entries.len() - 1;
        detected_count(entries.drop_last(), probes.take(n), start) + if needs_probe(entries[n], start)
            && probes[n] is Some {
            1nat
        } else {
            0nat
        }
    }
}

/// How many entries need a probe.
pub open spec fn todo_count(entries: Seq<Entry>, start: Map<i64, bool>) -> nat
    decreases entries.len(),
{
    if entries.len() == 0 {
        0
    } else {
        todo_count(entries.drop_last(), start) + if needs_probe(entries.last(), start) { 1nat } else { 0nat }
    }
}

/// The progress reported while detecting: one mark per entry that needs a
/// probe, in order, each the detections so far and the number to probe.
pub open spec fn progress_upto(entries: Seq<Entry>, probes: Seq<Option<bool>>, start: Map<i64, bool>, total: int) -> Seq<(int, int)>
    decreases entries.len(),
{
    if entries.len() == 0 {
        Seq::empty()
    } else {
        let n = entries.len() - 1;
        let p = progress_upto(entries.drop_last(), probes.take(n), start, total);
        if needs_probe(entries[n], start) { p.push((detected_count(entries, probes, start) as int, total)) } else { p }
    }
}

/// Progress is reported exactly once per entry that needs a probe.
pub proof fn lemma_progress_len(entries: Seq<Entry>, probes: Seq<Option<bool>>, start: Map<i64, bool>, total: int)
    ensures
        progress_upto(entries, probes, start, total).len() == todo_count(entries, start),
    decreases entries.len(),
{
    if entries.len() > 0 {
        let n = entries.len() - 1;
        lemma_progress_len(entries.drop_last(), probes.take(n), start, total);
        assert(entries[n] == entries.last());
    }
}

/// The progress colour detection reports, once per entry it probes, in
/// order: `(detected so far, to probe)`; nothing when none needs a probe.
pub fn progress_marks(entries: &Vec<Entry>, cache: &ColorCache, probes: &Vec<Option<bool>>) -> (r: Vec<(usize, usize)>)
    requires
        probes@.len() == entries@.len(),
    ensures
        r@.len() == todo_count(entries@, cache@),
        r@.len() == progress_upto(entries@, probes@, cache@, todo_count(entries@, cache@) as int).len(),
        forall|m: int| 0 <= m < r@.len() ==> ((#[trigger] r@[m]).0 as int, r@[m].1 as int) == progress_upto(
            entries@,
            probes@,
            cache@,
            todo_count(entries@, cache@) as int,
        )[m],
{
    let need = probes_needed(entries, cache);
    let mut total: usize = 0;
    let mut i: usize = 0;
    while i < entries.len()
        invariant
            i <= entries@.len(),
            need@.len() == entries@.len(),
            forall|k: int| 0 <= k < entries@.len() ==> need@[k] == needs_probe(#[trigger] entries@[k], cache@),
            total == todo_count(entries@.take(i as int), cache@),
            total <= i,
        decreases entries@.len() - i,
    {
        proof {
            assert(entries@.take(i + 1).drop_last() =~= entries@.take(i as int));
            assert(entries@.take(i + 1).last() == entries@[i as int]);
        }
        if need[i] {
            total = total + 1;
        }
        i = i + 1;
    }
    assert(entries@.take(i as int) =~= entries@);
    let ghost tot = todo_count(entries@, cache@) as int;
    let mut marks: Vec<(usize, usize)> = Vec::new();
    let mut done: usize = 0;
    let mut i: usize = 0;
    while i < entries.len()
        invariant
            i <= entries@.len(),
            probes@.len() == entries@.len(),
            need@.len() == entries@.len(),
            forall|k: int| 0 <= k < entries@.len() ==> need@[k] == needs_probe(#[trigger] entries@[k], cache@),
            total as int == tot,
            done == detected_count(entries@.take(i as int), probes@.take(i as int), cache@),
            done <= i,
            marks@.len() == progress_upto(entries@.take(i as int), probes@.take(i as int), cache@, tot).len(),
            forall|m: int| 0 <= m < marks@.len() ==> ((#[trigger] marks@[m]).0 as int, marks@[m].1 as int) == progress_upto(
                entries@.take(i as int),
                probes@.take(i as int),
                cache@,
                tot,
            )[m],
        decreases entries@.len() - i,
    {
        let ghost e1 = entries@.take(i + 1);
        let ghost p1 = probes@.take(i + 1);
        proof {
            assert(e1.drop_last() =~= entries@.take(i as int));
            assert(p1.take(i as int) =~= probes@.take(i as int));
            assert(e1[i as int] == entries@[i as int]);
            assert(p1[i as int] == probes@[i as int]);
        }
        if need[i] && probes[i].is_some() {
            done = done + 1;
        }
        if need[i] {
            marks.push((done, total));
        }
        i = i + 1;
    }
    proof {
        assert(entries@.take(i as int) =~= entries@);
        assert(probes@.take(i as int) =~= probes@);
        lemma_progress_len(entries@, probes@, cache@, tot);
    }
    marks
}

/// Record the colours detected for the entries that needed a probe (`probes[i]`
/// is what the screenshot of `entries[i]` gave, `None` where it had none or
/// could not be read) and return how many were recorded. Which entries need
/// a probe is decided on the cache as it was on entry.
pub fn detect_color(entries: &Vec<Entry>, cache: &mut ColorCache, probes: &Vec<Option<bool>>) -> (n: usize)
    requires
        probes@.len() == entries@.len(),
    ensures
        final(cache)@ == detected(entries@, probes@, old(cache)@, old(cache)@),
        n == detected_count(entries@, probes@, old(cache)@),
{
    let ghost start = cache@;
    let mut todo: Vec<bool> = Vec::new();
    let mut i: usize = 0;
    while i < entries.len()
        invariant
            i <= entries@.len(),
            cache@ == start,
            todo@.len() == i,
            forall|j: int| 0 <= j < i ==> #[trigger] todo@[j] == needs_probe(entries@[j], start),
        decreases entries@.len() - i,
    {
        todo.push(entries[i].color.is_none() && !cache.contains_key(&entries[i].nid));
        i = i + 1;
    }
    let mut done: usize = 0;
    let mut k: usize = 0;
    while k < entries.len()
        invariant
            k <= entries@.len(),
            probes@.len() == entries@.len(),
            todo@.len() == entries@.len(),
            forall|j: int| 0 <= j < entries@.len() ==> #[trigger] todo@[j] == needs_probe(entries@[j], start),
            cache@ == detected(entries@.take(k as int), probes@.take(k as int), start, start),
            done == detected_count(entries@.take(k as int), probes@.take(k as int), start),
            done <= k,
        decreases entries@.len() - k,
    {
        proof {
            assert(entries@.take(k + 1).drop_last() =~= entries@.take(k as int));
            assert(probes@.take(k + 1).take(k as int) =~= probes@.take(k as int));
            assert(entries@.take(k + 1)[k as int] == entries@[k as int]);
            assert(probes@.take(k + 1)[k as int] == probes@[k as int]);
        }
        if todo[k] {
            match probes[k] {
                Some(col) => {
                    cache.insert(entries[k].nid, col);
                    done = done + 1;
                },
                None => {},
            }
        }
        k = k + 1;
    }
    proof {
        assert(entries@.take(k as int) =~= entries@);
        assert(probes@.take(k as int) =~= probes@);
    }
    done
}

// ---- filtering -------------------------------------------------------------

/// A query over the table: every set field must match.
#[derive(Clone, Default, Debug)]
pub struct Filter {
    pub kind: Option<Kind>,
    /// Case-insensitive substring of any architecture.
    pub arch: Option<String>,
    /// A supported-OS label that must be present.
    pub system: Option<String>,
    pub min_year: Option<i64>,
    pub max_year: Option<i64>,
    /// Case-insensitive substring of any category.
    pub category: Option<String>,
    pub color: Option<bool>,
    pub mouse: Option<bool>,
    /// `Some(true)`: only titles already in the library; `Some(false)`: only missing.
    pub in_macpack: Option<bool>,
    /// Case-insensitive substring of the title.
    pub search: Option<String>,
}

/// Some label of `list`, lowercased, holds `needle` lowercased.
pub open spec fn any_holds(list: Seq<String>, needle: Seq<char>) -> bool {
    exists|i: int| 0 <= i < list.len() && contains_seq(unicode_lower(#[trigger] list[i]@), unicode_lower(needle))
}

/// A set text field of the filter holds for `list`.
pub open spec fn text_ok(f: Option<String>, list: Seq<String>) -> bool {
    match f {
        Some(a) => any_holds(list, a@),
        None => true,
    }
}

/// The list holds the label itself.
pub open spec fn has_label(list: Seq<String>, label: Seq<char>) -> bool {
    exists|i: int| 0 <= i < list.len() && #[trigger] list[i]@ == label
}

/// Whether `e` meets every set field of `f`.
pub open spec fn filter_ok(f: Filter, e: Entry) -> bool {
    &&& (f.kind matches Some(k) ==> e.kind == k)
    &&& text_ok(f.arch, e.arch@)
    &&& (f.system matches Some(s) ==> has_label(e.systems@, s@))
    &&& text_ok(f.category, e.categories@)
    &&& (f.min_year matches Some(m) ==> (e.year matches Some(y) && y >= m))
    &&& (f.max_year matches Some(m) ==> (e.year matches Some(y) && y <= m))
    &&& (f.color matches Some(c) ==> e.color == Some(c))
    &&& (f.mouse matches Some(c) ==> e.mouse == Some(c))
    &&& (f.in_macpack matches Some(p) ==> e.in_macpack == p)
    &&& (f.search matches Some(q) ==> contains_seq(unicode_lower(e.title@), unicode_lower(q@)))
}

fn any_contains(list: &Vec<String>, needle: &str) -> (r: bool)
    ensures
        r == any_holds(list@, needle@),
{
    let n = to_lower(needle);
    let nc = chars_of(n.as_str());
    let mut i: usize = 0;
    while i < list.len()
        invariant
            i <= list@.len(),
            nc@ == unicode_lower(needle@),
            forall|j: int| 0 <= j < i ==> !contains_seq(unicode_lower(#[trigger] list@[j]@), unicode_lower(needle@)),
        decreases list@.len() - i,
    {
        let x = to_lower(list[i].as_str());
        let xc = chars_of(x.as_str());
        if contains_chars(xc.as_slice(), nc.as_slice()) {
            return true;
        }
        i = i + 1;
    }
    false
}

fn label_present(list: &Vec<String>, label: &str) -> (r: bool)
    ensures
        r == has_label(list@, label@),
{
    let mut i: usize = 0;
    while i < list.len()
        invariant
            i <= list@.len(),
            forall|j: int| 0 <= j < i ==> (#[trigger] list@[j])@ != label@,
        decreases list@.len() - i,
    {
        if same_str(list[i].as_str(), label) {
            return true;
        }
        i = i + 1;
    }
    false
}

fn text_field_ok(f: &Option<String>, list: &Vec<String>) -> (r: bool)
    ensures
        r == text_ok(*f, list@),
{
    match f {
        Some(a) => any_contains(list, a.as_str()),
        None => true,
    }
}

impl Filter {
    /// Whether `e` meets every set field.
    pub fn matches(&self, e: &Entry) -> (r: bool)
        ensures
            r == filter_ok(*self, *e),
    {
        match self.kind {
            Some(k) => {
                if e.kind != k {
                    return false;
                }
            },
            None => {},
        }
        if !text_field_ok(&self.arch, &e.arch) {
            return false;
        }
        match &self.system {
            Some(s) => {
                if !label_present(&e.systems, s.as_str()) {
                    return false;
                }
            },
            None => {},
        }
        if !text_field_ok(&self.category, &e.categories) {
            return false;
        }
        match self.min_year {
            Some(min) => {
                match e.year {
                    Some(y) => {
                        if y < min {
                            return false;
                        }
                    },
                    None => {
                        return false;
                    },
                }
            },
            None => {},
        }
        match self.max_year {
            Some(max) => {
                match e.year {
                    Some(y) => {
                        if y > max {
                            return false;
                        }
                    },
                    None => {
                        return false;
                    },
                }
            },
            None => {},
        }
        match self.color {
            Some(c) => {
                if e.color != Some(c) {
                    return false;
                }
            },
            None => {},
        }
        match self.mouse {
            Some(m) => {
                if e.mouse != Some(m) {
                    return false;
                }
            },
            None => {},
        }
        match self.in_macpack {
            Some(p) => {
                if e.in_macpack != p {
                    return false;
                }
            },
            None => {},
        }
        match &self.search {
            Some(q) => {
                let t = to_lower(e.title.as_str());
                let qq = to_lower(q.as_str());
                let tc = chars_of(t.as_str());
                let qc = chars_of(qq.as_str());
                if !contains_chars(tc.as_slice(), qc.as_slice()) {
                    return false;
                }
            },
            None => {},
        }
        true
    }
}

// ---- facets ----------------------------------------------------------------

/// Which of an entry's label lists a facet reads.
pub enum Facet {
    Categories,
    Arch,
    Systems,
}

/// The list of an entry a facet reads.
pub open spec fn facet_list(e: Entry, f: Facet) -> Seq<String> {
    match f {
        Facet::Categories => e.categories@,
        Facet::Arch => e.arch@,
        Facet::Systems => e.systems@,
    }
}

/// `s` is one of the facet's labels of some entry.
pub open spec fn occurs_in(entries: Seq<Entry>, f: Facet, s: Seq<char>) -> bool {
    exists|i: int, j: int|
        0 <= i < entries.len() && 0 <= j < facet_list(entries[i], f).len() && (#[trigger] facet_list(entries[i], f)[j])@ == s
}

fn distinct(entries: &Vec<Entry>, f: Facet) -> (r: Vec<String>)
    ensures
        forall|i: int, j: int| 0 <= i < j < r@.len() ==> key_lt(#[trigger] r@[i]@, #[trigger] r@[j]@),
        forall|s: Seq<char>| occurs_in(entries@, f, s) <==> exists|i: int| 0 <= i < r@.len() && (#[trigger] r@[i])@ == s,
{
    let mut set: Keyed<()> = Keyed::new();
    let mut i: usize = 0;
    while i < entries.len()
        invariant
            i <= entries@.len(),
            set.wf(),
            forall|s: Seq<char>| #![trigger lookup(set.entries@, s)]
                (lookup(set.entries@, s) is Some) <==> occurs_in(entries@.take(i as int), f, s),
        decreases entries@.len() - i,
    {
        let list = match f {
            Facet::Categories => &entries[i].categories,
            Facet::Arch => &entries[i].arch,
            Facet::Systems => &entries[i].systems,
        };
        let ghost before = set.entries@;
        let mut j: usize = 0;
        while j < list.len()
            invariant
                j <= list@.len(),
                i < entries@.len(),
                list@ == facet_list(entries@[i as int], f),
                set.wf(),
                forall|s: Seq<char>| #![trigger lookup(set.entries@, s)]
                    (lookup(set.entries@, s) is Some) <==> ((lookup(before, s) is Some) || exists|w: int|
                        0 <= w < j && (#[trigger] list@[w])@ == s),
            decreases list@.len() - j,
        {
            set.insert_absent(list[j].clone(), ());
            j = j + 1;
        }
        proof {
            let e1 = entries@.take(i + 1);
            assert forall|s: Seq<char>| #![trigger lookup(set.entries@, s)]
                (lookup(set.entries@, s) is Some) <==> occurs_in(e1, f, s) by {
                if occurs_in(e1, f, s) {
                    let (a, b) = choose|a: int, b: int|
                        0 <= a < e1.len() && 0 <= b < facet_list(e1[a], f).len() && (#[trigger] facet_list(e1[a], f)[b])@ == s;
                    if a < i {
                        assert(entries@.take(i as int)[a] == e1[a]);
                        assert(occurs_in(entries@.take(i as int), f, s));
                    } else {
                        assert(list@[b]@ == s);
                    }
                }
                if lookup(before, s) is Some {
                    assert(occurs_in(entries@.take(i as int), f, s));
                    let (a, b) = choose|a: int, b: int|
                        0 <= a < entries@.take(i as int).len() && 0 <= b < facet_list(entries@.take(i as int)[a], f).len()
                            && (#[trigger] facet_list(entries@.take(i as int)[a], f)[b])@ == s;
                    assert(e1[a] == entries@.take(i as int)[a]);
                    assert(facet_list(e1[a], f)[b]@ == s);
                }
                if exists|w: int| 0 <= w < list@.len() && (#[trigger] list@[w])@ == s {
                    let w = choose|w: int| 0 <= w < list@.len() && (#[trigger] list@[w])@ == s;
                    assert(e1[i as int] == entries@[i as int]);
                    assert(facet_list(e1[i as int], f)[w]@ == s);
                }
            }
        }
        i = i + 1;
    }
    let r = set.keys();
    proof {
        assert(entries@.take(i as int) =~= entries@);
        assert forall|a: int, b: int| 0 <= a < b < r@.len() implies key_lt(#[trigger] r@[a]@, #[trigger] r@[b]@) by {
            assert(r@[a]@ == set.entries@[a].0@);
            assert(r@[b]@ == set.entries@[b].0@);
        }
        assert forall|s: Seq<char>| occurs_in(entries@, f, s) <==> exists|a: int| 0 <= a < r@.len() && (#[trigger] r@[a])@ == s by {
            lemma_lookup_some_iff(set.entries@, s);
            assert(occurs_in(entries@, f, s) == (lookup(set.entries@, s) is Some));
            if exists|a: int| 0 <= a < set.entries@.len() && (#[trigger] set.entries@[a]).0@ == s {
                let a = choose|a: int| 0 <= a < set.entries@.len() && (#[trigger] set.entries@[a]).0@ == s;
                assert(r@[a]@ == s);
            }
            if exists|a: int| 0 <= a < r@.len() && (#[trigger] r@[a])@ == s {
                let a = choose|a: int| 0 <= a < r@.len() && (#[trigger] r@[a])@ == s;
                assert(set.entries@[a].0@ == s);
            }
        }
    }
    r
}

/// Distinct category names across the table, ascending.
pub fn categories(entries: &Vec<Entry>) -> (r: Vec<String>)
    ensures
        forall|i: int, j: int| 0 <= i < j < r@.len() ==> key_lt(#[trigger] r@[i]@, #[trigger] r@[j]@),
        forall|s: Seq<char>|
            occurs_in(entries@, Facet::Categories, s) <==> exists|i: int| 0 <= i < r@.len() && (#[trigger] r@[i])@ == s,
{
    distinct(entries, Facet::Categories)
}

/// Distinct architecture labels across the table, ascending.
pub fn architectures(entries: &Vec<Entry>) -> (r: Vec<String>)
    ensures
        forall|i: int, j: int| 0 <= i < j < r@.len() ==> key_lt(#[trigger] r@[i]@, #[trigger] r@[j]@),
        forall|s: Seq<char>| occurs_in(entries@, Facet::Arch, s) <==> exists|i: int| 0 <= i < r@.len() && (#[trigger] r@[i])@ == s,
{
    distinct(entries, Facet::Arch)
}

/// Distinct supported-OS labels across the table, ascending.
pub fn systems(entries: &Vec<Entry>) -> (r: Vec<String>)
    ensures
        forall|i: int, j: int| 0 <= i < j < r@.len() ==> key_lt(#[trigger] r@[i]@, #[trigger] r@[j]@),
        forall|s: Seq<char>|
            occurs_in(entries@, Facet::Systems, s) <==> exists|i: int| 0 <= i < r@.len() && (#[trigger] r@[i])@ == s,
{
    distinct(entries, Facet::Systems)
}

// ---- category tallies ------------------------------------------------------

/// How many of the labels `cs` are `c`.
pub open spec fn count_label(cs: Seq<String>, c: Seq<char>) -> nat
    decreases cs.len(),
{
    if cs.len() == 0 {
        0
    } else {
        count_label(cs.drop_last(), c) + if cs.last()@ == c { 1nat } else { 0nat }
    }
}

/// How many times `c` is listed among the entries' categories.
pub open spec fn cat_count(es: Seq<Entry>, c: Seq<char>) -> nat
    decreases es.len(),
{
    if es.len() == 0 {
        0
    } else {
        cat_count(es.drop_last(), c) + count_label(es.last().categories@, c)
    }
}

/// How many category labels the entries list in all.
pub open spec fn listed(es: Seq<Entry>) -> nat
    decreases es.len(),
{
    if es.len() == 0 {
        0
    } else {
        listed(es.drop_last()) + es.last().categories@.len()
    }
}

/// Tally `(a, n)` ranks before tally `(b, m)`: more listed first, then by
/// name.
pub open spec fn ranks_before(a: Seq<char>, n: int, b: Seq<char>, m: int) -> bool {
    n > m || (n == m && key_lt(a, b))
}

proof fn lemma_count_label_le(cs: Seq<String>, c: Seq<char>)
    ensures
        count_label(cs, c) <= cs.len(),
    decreases cs.len(),
{
    if cs.len() > 0 {
        lemma_count_label_le(cs.drop_last(), c);
    }
}

proof fn lemma_cat_count_le(es: Seq<Entry>, c: Seq<char>)
    ensures
        cat_count(es, c) <= listed(es),
    decreases es.len(),
{
    if es.len() > 0 {
        lemma_cat_count_le(es.drop_last(), c);
        lemma_count_label_le(es.last().categories@, c);
    }
}

/// How many times `name` is listed among the entries' categories.
fn tally(entries: &Vec<Entry>, name: &str) -> (n: usize)
    requires
        listed(entries@) <= usize::MAX,
    ensures
        n == cat_count(entries@, name@),
{
    let mut n: usize = 0;
    let mut i: usize = 0;
    while i < entries.len()
        invariant
            i <= entries@.len(),
            listed(entries@) <= usize::MAX,
            n == cat_count(entries@.take(i as int), name@),
        decreases entries@.len() - i,
    {
        let ghost done = entries@.take(i as int);
        let cats = &entries[i].categories;
        let mut j: usize = 0;
        while j < cats.len()
            invariant
                i < entries@.len(),
                cats@ == entries@[i as int].categories@,
                j <= cats@.len(),
                done == entries@.take(i as int),
                listed(entries@) <= usize::MAX,
                n == cat_count(done, name@) + count_label(cats@.take(j as int), name@),
            decreases cats@.len() - j,
        {
            proof {
                assert(cats@.take(j + 1).drop_last() =~= cats@.take(j as int));
                lemma_count_label_le(cats@.take(j + 1), name@);
                assert(entries@.take(i + 1).drop_last() =~= done);
                lemma_cat_count_le(entries@.take(i + 1), name@);
                lemma_listed_prefix(entries@, i + 1);
                assert(cat_count(entries@.take(i + 1), name@) == cat_count(done, name@) + count_label(cats@, name@));
                lemma_count_label_prefix(cats@, j + 1, name@);
            }
            if crate::text::same_str(cats[j].as_str(), name) {
                n = n + 1;
            }
            j = j + 1;
        }
        proof {
            assert(cats@.take(j as int) =~= cats@);
            assert(entries@.take(i + 1).drop_last() =~= done);
        }
        i = i + 1;
    }
    assert(entries@.take(i as int) =~= entries@);
    n
}

proof fn lemma_count_label_prefix(cs: Seq<String>, k: int, c: Seq<char>)
    requires
        0 <= k <= cs.len(),
    ensures
        count_label(cs.take(k), c) <= count_label(cs, c),
    decreases cs.len(),
{
    if k < cs.len() {
        assert(cs.drop_last().take(k) =~= cs.take(k));
        lemma_count_label_prefix(cs.drop_last(), k, c);
    } else {
        assert(cs.take(k) =~= cs);
    }
}

proof fn lemma_listed_prefix(es: Seq<Entry>, k: int)
    requires
        0 <= k <= es.len(),
    ensures
        listed(es.take(k)) <= listed(es),
    decreases es.len(),
{
    if k < es.len() {
        assert(es.drop_last().take(k) =~= es.take(k));
        lemma_listed_prefix(es.drop_last(), k);
    } else {
        assert(es.take(k) =~= es);
    }
}

/// The tallies are in rank order.
pub open spec fn ranked(r: Seq<(String, usize)>) -> bool {
    forall|p: int, q: int|
        0 <= p < q < r.len() ==> ranks_before((#[trigger] r[p]).0@, r[p].1 as int, (#[trigger] r[q]).0@, r[q].1 as int)
}

proof fn lemma_insert_ranked(old_r: Seq<(String, usize)>, pos: int, x: (String, usize))
    requires
        ranked(old_r),
        0 <= pos <= old_r.len(),
        forall|q: int| 0 <= q < pos ==> (#[trigger] old_r[q]).1 >= x.1,
        pos < old_r.len() ==> old_r[pos].1 < x.1,
        forall|q: int| 0 <= q < old_r.len() ==> key_lt((#[trigger] old_r[q]).0@, x.0@),
    ensures
        ranked(old_r.insert(pos, x)),
{
    let r = old_r.insert(pos, x);
    let c = x.1;
    assert forall|p: int, q: int| 0 <= p < q < r.len() implies ranks_before(
        (#[trigger] r[p]).0@,
        r[p].1 as int,
        (#[trigger] r[q]).0@,
        r[q].1 as int,
    ) by {
        if q < pos {
            assert(r[p] == old_r[p] && r[q] == old_r[q]);
        } else if q == pos {
            assert(r[p] == old_r[p]);
        } else if p == pos {
            assert(r[q] == old_r[q - 1]);
            if q - 1 > pos {
                assert(ranks_before(old_r[pos].0@, old_r[pos].1 as int, old_r[q - 1].0@, old_r[q - 1].1 as int));
            }
        } else if p < pos {
            assert(r[p] == old_r[p] && r[q] == old_r[q - 1]);
        } else {
            assert(r[p] == old_r[p - 1] && r[q] == old_r[q - 1]);
        }
    }
}

proof fn lemma_insert_members(old_r: Seq<(String, usize)>, pos: int, x: (String, usize))
    requires
        0 <= pos <= old_r.len(),
    ensures
        forall|p: int|
            0 <= p < old_r.insert(pos, x).len() ==> #[trigger] old_r.insert(pos, x)[p] == x || exists|q: int|
                0 <= q < old_r.len() && old_r.insert(pos, x)[p] == #[trigger] old_r[q],
        old_r.insert(pos, x)[pos] == x,
        forall|q: int|
            0 <= q < old_r.len() ==> exists|p: int|
                0 <= p < old_r.insert(pos, x).len() && #[trigger] old_r.insert(pos, x)[p] == #[trigger] old_r[q],
{
    let r = old_r.insert(pos, x);
    assert forall|p: int| 0 <= p < r.len() implies #[trigger] r[p] == x || exists|q: int|
        0 <= q < old_r.len() && r[p] == #[trigger] old_r[q] by {
        if p < pos {
            assert(r[p] == old_r[p]);
        } else if p > pos {
            assert(r[p] == old_r[p - 1]);
        }
    }
    assert forall|q: int| 0 <= q < old_r.len() implies exists|p: int| 0 <= p < r.len() && #[trigger] r[p] == #[trigger] old_r[q] by {
        if q < pos {
            assert(r[q] == old_r[q]);
        } else {
            assert(r[q + 1] == old_r[q]);
        }
    }
}

/// Put tally `x` in its place among ranked tallies whose names all sort
/// before its name.
fn insert_ranked(r: &mut Vec<(String, usize)>, x: (String, usize))
    requires
        ranked(old(r)@),
        forall|q: int| 0 <= q < old(r)@.len() ==> key_lt((#[trigger] old(r)@[q]).0@, x.0@),
    ensures
        ranked(final(r)@),
        final(r)@.len() == old(r)@.len() + 1,
        forall|p: int|
            0 <= p < final(r)@.len() ==> #[trigger] final(r)@[p] == x || exists|q: int|
                0 <= q < old(r)@.len() && final(r)@[p] == #[trigger] old(r)@[q],
        exists|p: int| 0 <= p < final(r)@.len() && #[trigger] final(r)@[p] == x,
        forall|q: int| 0 <= q < old(r)@.len() ==> exists|p: int| 0 <= p < final(r)@.len() && #[trigger] final(r)@[p] == #[trigger] old(r)@[q],
{
    let c = x.1;
    let mut pos: usize = 0;
    while pos < r.len() && r[pos].1 >= c
        invariant
            pos <= r@.len(),
            forall|q: int| 0 <= q < pos ==> (#[trigger] r@[q]).1 >= c,
        decreases r@.len() - pos,
    {
        pos = pos + 1;
    }
    let ghost old_r = r@;
    proof {
        lemma_insert_ranked(old_r, pos as int, x);
        lemma_insert_members(old_r, pos as int, x);
    }
    r.insert(pos, x);
    assert(r@ == old_r.insert(pos as int, x));
}

/// `s` is one of the first `i` names.
pub open spec fn among(names: Seq<String>, i: int, s: Seq<char>) -> bool {
    exists|a: int| 0 <= a < i && (#[trigger] names[a])@ == s
}

/// Every category listed among the entries with how many times it is
/// listed, most listed first and, among equals, by name.
pub fn category_counts(entries: &Vec<Entry>) -> (r: Vec<(String, usize)>)
    requires
        listed(entries@) <= usize::MAX,
    ensures
        ranked(r@),
        forall|p: int|
            0 <= p < r@.len() ==> occurs_in(entries@, Facet::Categories, (#[trigger] r@[p]).0@) && r@[p].1
                == cat_count(entries@, r@[p].0@),
        forall|s: Seq<char>|
            occurs_in(entries@, Facet::Categories, s) ==> exists|p: int| 0 <= p < r@.len() && (#[trigger] r@[p]).0@ == s,
{
    let names = categories(entries);
    let mut r: Vec<(String, usize)> = Vec::new();
    let mut i: usize = 0;
    while i < names.len()
        invariant
            i <= names@.len(),
            listed(entries@) <= usize::MAX,
            forall|a: int, b: int| 0 <= a < b < names@.len() ==> key_lt(#[trigger] names@[a]@, #[trigger] names@[b]@),
            forall|s: Seq<char>|
                occurs_in(entries@, Facet::Categories, s) <==> exists|a: int| 0 <= a < names@.len() && (#[trigger] names@[a])@ == s,
            ranked(r@),
            forall|p: int| 0 <= p < r@.len() ==> among(names@, i as int, (#[trigger] r@[p]).0@),
            forall|p: int| 0 <= p < r@.len() ==> (#[trigger] r@[p]).1 == cat_count(entries@, r@[p].0@),
            forall|a: int| 0 <= a < i ==> exists|p: int| 0 <= p < r@.len() && (#[trigger] r@[p]).0@ == (#[trigger] names@[a])@,
        decreases names@.len() - i,
    {
        let c = tally(entries, names[i].as_str());
        let ghost old_r = r@;
        let name_i = names[i].clone();
        proof {
            assert forall|q: int| 0 <= q < old_r.len() implies key_lt((#[trigger] old_r[q]).0@, name_i@) by {
                assert(among(names@, i as int, old_r[q].0@));
                let a = choose|a: int| 0 <= a < i && (#[trigger] names@[a])@ == old_r[q].0@;
                assert(key_lt(names@[a]@, names@[i as int]@));
            }
        }
        let x = (name_i, c);
        insert_ranked(&mut r, x);
        proof {
            assert forall|p: int| 0 <= p < r@.len() implies among(names@, i + 1, (#[trigger] r@[p]).0@)
                && r@[p].1 == cat_count(entries@, r@[p].0@) by {
                if r@[p] == x {
                    assert(names@[i as int]@ == r@[p].0@);
                } else {
                    let q = choose|q: int| 0 <= q < old_r.len() && r@[p] == #[trigger] old_r[q];
                    assert(among(names@, i as int, old_r[q].0@));
                    let a = choose|a: int| 0 <= a < i && (#[trigger] names@[a])@ == old_r[q].0@;
                    assert(names@[a]@ == r@[p].0@);
                }
            }
            assert forall|a: int| 0 <= a < i + 1 implies exists|p: int|
                0 <= p < r@.len() && (#[trigger] r@[p]).0@ == (#[trigger] names@[a])@ by {
                if a == i {
                    let p = choose|p: int| 0 <= p < r@.len() && #[trigger] r@[p] == x;
                    assert(r@[p].0@ == names@[a]@);
                } else {
                    let q = choose|q: int| 0 <= q < old_r.len() && (#[trigger] old_r[q]).0@ == names@[a]@;
                    let p = choose|p: int| 0 <= p < r@.len() && #[trigger] r@[p] == old_r[q];
                    assert(r@[p].0@ == names@[a]@);
                }
            }
        }
        i = i + 1;
    }
    proof {
        assert forall|p: int| 0 <= p < r@.len() implies occurs_in(entries@, Facet::Categories, (#[trigger] r@[p]).0@) by {
            assert(among(names@, i as int, r@[p].0@));
            let a = choose|a: int| 0 <= a < i && (#[trigger] names@[a])@ == r@[p].0@;
        }
        assert forall|s: Seq<char>| occurs_in(entries@, Facet::Categories, s) implies exists|p: int|
            0 <= p < r@.len() && (#[trigger] r@[p]).0@ == s by {
            let a = choose|a: int| 0 <= a < names@.len() && (#[trigger] names@[a])@ == s;
            assert(exists|p: int| 0 <= p < r@.len() && (#[trigger] r@[p]).0@ == names@[a]@);
        }
    }
    r
}

} // verus!
