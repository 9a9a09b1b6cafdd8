//! The paged catalog: which category pages a compiled catalog is laid out in.
//! Items are grouped by category in first-seen order (the categories coming
//! from the category database when one is given), the categories put in
//! taxonomy order when a taxonomy is given, the items of a category sorted by
//! name unless the category keeps its list order, and every category split
//! into pages of at most `MAX_CAT_ITEMS` items, each with a unique file slug.

use crate::catalog::{display_lt, is_list_ordered, slugify, cat_slug, OutItem, MAX_CAT_ITEMS};
use crate::keyed::key_lt;
use crate::text::{append, decimal, decimal_u64, same_str, views};
use vstd::prelude::*;

verus! {

/// The last entry of the category database for `id`: its categories.
pub open spec fn db_lookup(db: Seq<(String, Vec<String>)>, id: Seq<char>) -> Option<Seq<Seq<char>>>
    decreases db.len(),
{
    if db.len() == 0 {
        None
    } else if db.last().0@ == id {
        Some(views(db.last().1@))
    } else {
        db_lookup(db.drop_last(), id)
    }
}

/// The categories an item is filed under: its database entry when a database
/// is given (none when it has no entry), else its own categories.
pub open spec fn item_cats(items: Seq<OutItem>, db: Option<Seq<(String, Vec<String>)>>, i: int) -> Seq<Seq<char>> {
    match db {
        Some(d) => match db_lookup(d, items[i].id@) {
            Some(c) => c,
            None => Seq::empty(),
        },
        None => views(items[i].categories@),
    }
}

/// The first group named `c`.
pub open spec fn group_index(gs: Seq<(Seq<char>, Seq<int>)>, c: Seq<char>) -> Option<int>
    decreases gs.len(),
{
    if gs.len() == 0 {
        None
    } else {
        match group_index(gs.drop_last(), c) {
            Some(j) => Some(j),
            None => if gs.last().0 == c { Some(gs.len() - 1) } else { None },
        }
    }
}

/// Item `i` added to the group named `c`, a new group at the end when there
/// is none.
pub open spec fn add_to_group(gs: Seq<(Seq<char>, Seq<int>)>, c: Seq<char>, i: int) -> Seq<(Seq<char>, Seq<int>)> {
    match group_index(gs, c) {
        Some(j) => gs.update(j, (gs[j].0, gs[j].1.push(i))),
        None => gs.push((c, seq![i])),
    }
}

/// Item `i` added to each of the groups `cats`, in turn.
pub open spec fn add_to_groups(gs: Seq<(Seq<char>, Seq<int>)>, cats: Seq<Seq<char>>, i: int) -> Seq<(Seq<char>, Seq<int>)>
    decreases cats.len(),
{
    if cats.len() == 0 { gs } else { add_to_group(add_to_groups(gs, cats.drop_last(), i), cats.last(), i) }
}

/// The groups of the first `k` items, categories in first-seen order.
pub open spec fn groups_upto(items: Seq<OutItem>, db: Option<Seq<(String, Vec<String>)>>, k: int) -> Seq<(Seq<char>, Seq<int>)>
    decreases k,
{
    if k <= 0 { Seq::empty() } else { add_to_groups(groups_upto(items, db, k - 1), item_cats(items, db, k - 1), k - 1) }
}

/// The groups as plain values.
pub open spec fn group_views(names: Seq<String>, members: Seq<Vec<usize>>) -> Seq<(Seq<char>, Seq<int>)> {
    Seq::new(names.len(), |j: int| (names[j]@, members[j]@.map_values(|x: usize| x as int)))
}

/// The database entry for `id`: its categories.
fn db_get(db: &Vec<(String, Vec<String>)>, id: &str) -> (r: Option<Vec<String>>)
    ensures
        match r {
            Some(v) => db_lookup(db@, id@) == Some(views(v@)),
            None => db_lookup(db@, id@) is None,
        },
{
    let mut j: usize = db.len();
    assert(db@.take(j as int) =~= db@);
    while j > 0
        invariant
            j <= db@.len(),
            db_lookup(db@, id@) == db_lookup(db@.take(j as int), id@),
        decreases j,
    {
        proof {
            assert(db@.take(j as int).drop_last() =~= db@.take(j - 1));
            assert(db@.take(j as int).last() == db@[j - 1]);
        }
        if same_str(db[j - 1].0.as_str(), id) {
            return Some(crate::config::copy_strings(&db[j - 1].1));
        }
        j = j - 1;
    }
    assert(db@.take(0) =~= Seq::<(String, Vec<String>)>::empty());
    None
}

/// The categories item `i` is filed under.
fn cats_of(items: &Vec<OutItem>, db: Option<&Vec<(String, Vec<String>)>>, i: usize) -> (r: Vec<String>)
    requires
        i < items@.len(),
    ensures
        views(r@) == item_cats(items@, match db {
            Some(d) => Some(d@),
            None => None,
        }, i as int),
{
    match db {
        Some(d) => match db_get(d, items[i].id.as_str()) {
            Some(v) => v,
            None => {
                let v: Vec<String> = Vec::new();
                assert(views(v@) =~= Seq::<Seq<char>>::empty());
                v
            },
        },
        None => crate::config::copy_strings(&items[i].categories),
    }
}

/// The first group named `c`.
fn find_group(names: &Vec<String>, c: &str, Ghost(members): Ghost<Seq<Vec<usize>>>) -> (r: Option<usize>)
    requires
        members.len() == names@.len(),
    ensures
        match r {
            Some(j) => group_index(group_views(names@, members), c@) == Some(j as int) && j < names@.len(),
            None => group_index(group_views(names@, members), c@) is None,
        },
{
    let ghost gs = group_views(names@, members);
    let mut j: usize = 0;
    while j < names.len()
        invariant
            j <= names@.len(),
            members.len() == names@.len(),
            gs == group_views(names@, members),
            group_index(gs.take(j as int), c@) is None,
        decreases names@.len() - j,
    {
        proof {
            assert(gs.take(j + 1).drop_last() =~= gs.take(j as int));
            assert(gs.take(j + 1).last() == gs[j as int]);
        }
        if same_str(names[j].as_str(), c) {
            proof {
                lemma_group_index_prefix(gs, j + 1, c@);
            }
            return Some(j);
        }
        proof {
            lemma_group_index_prefix(gs, j + 1, c@);
        }
        j = j + 1;
    }
    assert(gs.take(j as int) =~= gs);
    None
}

/// A group found by name is in range and has that name.
proof fn lemma_group_index_bounds(gs: Seq<(Seq<char>, Seq<int>)>, c: Seq<char>)
    ensures
        group_index(gs, c) matches Some(j) ==> 0 <= j < gs.len() && gs[j].0 == c,
    decreases gs.len(),
{
    if gs.len() > 0 {
        lemma_group_index_bounds(gs.drop_last(), c);
    }
}

/// Looking a name up in a prefix: found there means found at the same place
/// in the whole.
proof fn lemma_group_index_prefix(gs: Seq<(Seq<char>, Seq<int>)>, k: int, c: Seq<char>)
    requires
        0 <= k <= gs.len(),
    ensures
        group_index(gs.take(k), c) is Some ==> group_index(gs, c) == group_index(gs.take(k), c),
    decreases gs.len(),
{
    if k < gs.len() {
        assert(gs.drop_last().take(k) =~= gs.take(k));
        lemma_group_index_prefix(gs.drop_last(), k, c);
    } else {
        assert(gs.take(k) =~= gs);
    }
}

/// Add item `i` to the group named `c`.
fn add_item(names: &mut Vec<String>, members: &mut Vec<Vec<usize>>, c: &String, i: usize)
    requires
        old(members)@.len() == old(names)@.len(),
    ensures
        final(members)@.len() == final(names)@.len(),
        group_views(final(names)@, final(members)@) == add_to_group(group_views(old(names)@, old(members)@), c@, i as int),
{
    let ghost gs = group_views(names@, members@);
    match find_group(names, c.as_str(), Ghost(members@)) {
        Some(j) => {
            proof {
                lemma_group_index_bounds(gs, c@);
            }
            let mut m: Vec<usize> = Vec::new();
            members.set_and_swap(j, &mut m);
            let ghost mv = m@;
            m.push(i);
            members.set(j, m);
            proof {
                assert(mv.push(i).map_values(|x: usize| x as int) =~= gs[j as int].1.push(i as int));
                assert(group_views(names@, members@) =~= gs.update(j as int, (gs[j as int].0, gs[j as int].1.push(i as int))));
            }
        },
        None => {
            names.push(c.clone());
            let mut m: Vec<usize> = Vec::new();
            m.push(i);
            members.push(m);
            proof {
                assert(group_views(names@, members@)[gs.len() as int].1 =~= seq![i as int]);
                assert(group_views(names@, members@) =~= gs.push((c@, seq![i as int])));
            }
        },
    }
}

/// Group the items by category, categories in first-seen order.
fn group_items(items: &Vec<OutItem>, db: Option<&Vec<(String, Vec<String>)>>) -> (r: (Vec<String>, Vec<Vec<usize>>))
    ensures
        r.1@.len() == r.0@.len(),
        group_views(r.0@, r.1@) == groups_upto(items@, match db {
            Some(d) => Some(d@),
            None => None,
        }, items@.len() as int),
{
    let ghost dbv = match db {
        Some(d) => Some(d@),
        None => None,
    };
    let mut names: Vec<String> = Vec::new();
    let mut members: Vec<Vec<usize>> = Vec::new();
    assert(group_views(names@, members@) =~= groups_upto(items@, dbv, 0));
    let n = items.len();
    let mut i: usize = 0;
    while i < n
        invariant
            i <= n,
            n == items@.len(),
            dbv == match db {
                Some(d) => Some(d@),
                None => None::<Seq<(String, Vec<String>)>>,
            },
            members@.len() == names@.len(),
            group_views(names@, members@) == groups_upto(items@, dbv, i as int),
        decreases n - i,
    {
        let cats = cats_of(items, db, i);
        let ghost g0 = groups_upto(items@, dbv, i as int);
        let mut q: usize = 0;
        while q < cats.len()
            invariant
                q <= cats@.len(),
                members@.len() == names@.len(),
                views(cats@) == item_cats(items@, dbv, i as int),
                group_views(names@, members@) == add_to_groups(g0, views(cats@).take(q as int), i as int),
            decreases cats@.len() - q,
        {
            proof {
                assert(views(cats@).take(q + 1).drop_last() =~= views(cats@).take(q as int));
                assert(views(cats@).take(q + 1).last() == cats@[q as int]@);
            }
            add_item(&mut names, &mut members, &cats[q], i);
            q = q + 1;
        }
        assert(views(cats@).take(q as int) =~= views(cats@));
        i = i + 1;
    }
    (names, members)
}

/// Indices as integers.
pub open spec fn ints(v: Seq<usize>) -> Seq<int> {
    v.map_values(|x: usize| x as int)
}

/// Where `x` goes in `s`: before the first element whose key `x`'s key comes
/// before in display order, at the end when there is none (so equal keys
/// keep their order).
pub open spec fn ins_pos(s: Seq<int>, x: int, keys: Seq<Seq<char>>, order: Seq<String>) -> int
    decreases s.len(),
{
    if s.len() == 0 {
        0
    } else {
        let p = ins_pos(s.drop_last(), x, keys, order);
        if p < s.len() - 1 {
            p
        } else if display_lt(order, keys[x], keys[s.last()]) {
            s.len() - 1
        } else {
            s.len() as int
        }
    }
}

/// `s` sorted by the keys of its elements in display order (alphabetical
/// when `order` is empty), equal keys keeping their order: each element in
/// turn inserted after those it does not come before.
pub open spec fn sort_by_keys(s: Seq<int>, keys: Seq<Seq<char>>, order: Seq<String>) -> Seq<int>
    decreases s.len(),
{
    if s.len() == 0 {
        Seq::empty()
    } else {
        let t = sort_by_keys(s.drop_last(), keys, order);
        t.insert(ins_pos(t, s.last(), keys, order), s.last())
    }
}

proof fn lemma_ins_pos_range(s: Seq<int>, x: int, keys: Seq<Seq<char>>, order: Seq<String>)
    ensures
        0 <= ins_pos(s, x, keys, order) <= s.len(),
    decreases s.len(),
{
    if s.len() > 0 {
        lemma_ins_pos_range(s.drop_last(), x, keys, order);
    }
}

proof fn lemma_sort_len(s: Seq<int>, keys: Seq<Seq<char>>, order: Seq<String>)
    ensures
        sort_by_keys(s, keys, order).len() == s.len(),
        forall|v: int| #[trigger] sort_by_keys(s, keys, order).contains(v) ==> s.contains(v),
    decreases s.len(),
{
    if s.len() > 0 {
        let t = sort_by_keys(s.drop_last(), keys, order);
        lemma_sort_len(s.drop_last(), keys, order);
        lemma_ins_pos_range(t, s.last(), keys, order);
        let p = ins_pos(t, s.last(), keys, order);
        assert forall|v: int| #[trigger] t.insert(p, s.last()).contains(v) implies s.contains(v) by {
            let j = choose|j: int| 0 <= j < t.insert(p, s.last()).len() && t.insert(p, s.last())[j] == v;
            if j < p {
                assert(t[j] == v);
                assert(t.contains(v));
                let m = choose|m: int| 0 <= m < s.drop_last().len() && s.drop_last()[m] == v;
                assert(s[m] == v);
            } else if j == p {
                assert(s[s.len() - 1] == v);
            } else {
                assert(t[j - 1] == v);
                assert(t.contains(v));
                let m = choose|m: int| 0 <= m < s.drop_last().len() && s.drop_last()[m] == v;
                assert(s[m] == v);
            }
        }
    }
}

/// Whether the key of `x` comes before that of `y` in display order.
fn display_before_at(order: &Vec<String>, keys: &Vec<String>, x: usize, y: usize) -> (r: bool)
    requires
        x < keys@.len(),
        y < keys@.len(),
    ensures
        r == display_lt(order@, views(keys@)[x as int], views(keys@)[y as int]),
{
    crate::catalog::display_before(order, keys[x].as_str(), keys[y].as_str())
}

/// The scan for the insertion place stops at the first element the new one
/// comes before.
proof fn lemma_ins_pos_stop(t: Seq<int>, x: int, keys: Seq<Seq<char>>, order: Seq<String>, p: int)
    requires
        0 <= p <= t.len(),
        ins_pos(t.take(p), x, keys, order) == p,
        p == t.len() || display_lt(order, keys[x], keys[t[p]]),
    ensures
        ins_pos(t, x, keys, order) == p,
{
    lemma_ins_pos_stays(t, x, keys, order, p, t.len() as int);
    assert(t.take(t.len() as int) =~= t);
}

proof fn lemma_ins_pos_stays(t: Seq<int>, x: int, keys: Seq<Seq<char>>, order: Seq<String>, p: int, m: int)
    requires
        0 <= p <= m <= t.len(),
        ins_pos(t.take(p), x, keys, order) == p,
        p == t.len() || display_lt(order, keys[x], keys[t[p]]),
    ensures
        ins_pos(t.take(m), x, keys, order) == p,
    decreases m - p,
{
    if m > p {
        lemma_ins_pos_stays(t, x, keys, order, p, m - 1);
        assert(t.take(m).drop_last() =~= t.take(m - 1));
        assert(t.take(m).last() == t[m - 1]);
    }
}

/// `s` sorted by the keys of its elements in display order, equal keys
/// keeping their order.
fn sort_indices(s: &Vec<usize>, keys: &Vec<String>, order: &Vec<String>) -> (r: Vec<usize>)
    requires
        forall|j: int| 0 <= j < s@.len() ==> (#[trigger] s@[j]) < keys@.len(),
    ensures
        ints(r@) == sort_by_keys(ints(s@), views(keys@), order@),
        r@.len() == s@.len(),
{
    let ghost kv = views(keys@);
    let mut out: Vec<usize> = Vec::new();
    let mut i: usize = 0;
    while i < s.len()
        invariant
            i <= s@.len(),
            kv == views(keys@),
            forall|j: int| 0 <= j < s@.len() ==> (#[trigger] s@[j]) < keys@.len(),
            ints(out@) == sort_by_keys(ints(s@).take(i as int), kv, order@),
            forall|j: int| 0 <= j < out@.len() ==> (#[trigger] out@[j]) < keys@.len(),
        decreases s@.len() - i,
    {
        let x = s[i];
        let ghost t = ints(out@);
        let mut p: usize = 0;
        let ghost xi = x as int;
        while p < out.len() && !display_before_at(order, keys, x, out[p])
            invariant
                p <= out@.len(),
                x < keys@.len(),
                xi == x as int,
                kv == views(keys@),
                t == ints(out@),
                forall|j: int| 0 <= j < out@.len() ==> (#[trigger] out@[j]) < keys@.len(),
                ins_pos(t.take(p as int), xi, kv, order@) == p,
            decreases out@.len() - p,
        {
            proof {
                assert(t.take(p + 1).drop_last() =~= t.take(p as int));
                assert(t.take(p + 1).last() == out@[p as int] as int);
                assert(t[p as int] == out@[p as int] as int);
                assert(!display_lt(order@, kv[xi], kv[t[p as int]]));
                assert(ins_pos(t.take(p + 1), xi, kv, order@) == p + 1);
            }
            p = p + 1;
        }
        proof {
            lemma_ins_pos_stop(t, xi, kv, order@, p as int);
            assert(ints(s@).take(i + 1).drop_last() =~= ints(s@).take(i as int));
            assert(ints(s@).take(i + 1).last() == xi);
        }
        let ghost ov = out@;
        out.insert(p, x);
        proof {
            assert(ints(out@) =~= t.insert(p as int, xi));
            assert forall|j: int| 0 <= j < out@.len() implies (#[trigger] out@[j]) < keys@.len() by {
                if j < p {
                    assert(out@[j] == ov[j]);
                } else if j > p {
                    assert(out@[j] == ov[j - 1]);
                }
            }
        }
        i = i + 1;
    }
    assert(ints(s@).take(i as int) =~= ints(s@));
    proof {
        lemma_sort_len(ints(s@), kv, order@);
    }
    out
}

/// `0, 1, …, n - 1`.
pub open spec fn iota(n: int) -> Seq<int> {
    Seq::new(n as nat, |i: int| i)
}

/// The names of the groups.
pub open spec fn names_of(gs: Seq<(Seq<char>, Seq<int>)>) -> Seq<Seq<char>> {
    Seq::new(gs.len(), |j: int| gs[j].0)
}

/// The groups picked out in the order of `perm`.
pub open spec fn permuted(gs: Seq<(Seq<char>, Seq<int>)>, perm: Seq<int>) -> Seq<(Seq<char>, Seq<int>)> {
    Seq::new(perm.len(), |k: int| gs[perm[k]])
}

/// The groups in display order: sorted by the taxonomy order when one is
/// given (categories it does not list after, alphabetically), else as found.
pub open spec fn ordered_groups(gs: Seq<(Seq<char>, Seq<int>)>, order: Option<Seq<String>>) -> Seq<(Seq<char>, Seq<int>)> {
    match order {
        Some(o) => permuted(gs, sort_by_keys(iota(gs.len() as int), names_of(gs), o)),
        None => gs,
    }
}

/// A category keeping its list order (recommendation lists).
pub open spec fn list_ordered(name: Seq<char>) -> bool {
    crate::text::lower_seq(name) == crate::text::lower_seq("Recommended"@) || crate::text::lower_seq(name)
        == crate::text::lower_seq("Staff Picks"@)
}

/// The groups with their items sorted by lowercased name (`keys`), equal
/// names keeping their order, except in list-ordered categories.
pub open spec fn arranged(gs: Seq<(Seq<char>, Seq<int>)>, keys: Seq<Seq<char>>) -> Seq<(Seq<char>, Seq<int>)> {
    Seq::new(
        gs.len(),
        |j: int|
            (gs[j].0, if list_ordered(gs[j].0) { gs[j].1 } else { sort_by_keys(gs[j].1, keys, Seq::empty()) }),
    )
}

/// The lowercased names of the items.
pub open spec fn name_keys(items: Seq<OutItem>) -> Seq<Seq<char>> {
    Seq::new(items.len(), |i: int| crate::text::unicode_lower(items[i].name@))
}

/// Put the groups in taxonomy order.
fn order_groups(names: &Vec<String>, members: &Vec<Vec<usize>>, order: &Vec<String>) -> (r: (Vec<String>, Vec<Vec<usize>>))
    requires
        members@.len() == names@.len(),
    ensures
        r.1@.len() == r.0@.len(),
        group_views(r.0@, r.1@) == ordered_groups(group_views(names@, members@), Some(order@)),
{
    let ghost gs = group_views(names@, members@);
    let n = names.len();
    let mut idx: Vec<usize> = Vec::new();
    let mut i: usize = 0;
    while i < n
        invariant
            i <= n,
            n == names@.len(),
            ints(idx@) == iota(i as int),
            forall|j: int| 0 <= j < idx@.len() ==> (#[trigger] idx@[j]) < n,
        decreases n - i,
    {
        let ghost before = idx@;
        idx.push(i);
        assert(ints(idx@) =~= ints(before).push(i as int));
        assert(iota(i + 1) =~= iota(i as int).push(i as int));
        i = i + 1;
    }
    assert(views(names@) =~= names_of(gs));
    let perm = sort_indices(&idx, names, order);
    let ghost pv = sort_by_keys(iota(n as int), names_of(gs), order@);
    proof {
        lemma_sort_len(iota(n as int), names_of(gs), order@);
        assert forall|k: int| 0 <= k < perm@.len() implies (#[trigger] perm@[k]) < n by {
            assert(pv[k] == perm@[k] as int);
            assert(pv.contains(pv[k]));
            assert(iota(n as int).contains(pv[k]));
        }
    }
    let mut on: Vec<String> = Vec::new();
    let mut om: Vec<Vec<usize>> = Vec::new();
    let mut k: usize = 0;
    while k < perm.len()
        invariant
            k <= perm@.len(),
            n == names@.len(),
            members@.len() == n,
            gs == group_views(names@, members@),
            ints(perm@) == pv,
            forall|j: int| 0 <= j < perm@.len() ==> (#[trigger] perm@[j]) < n,
            on@.len() == k,
            om@.len() == k,
            group_views(on@, om@) == permuted(gs, pv.take(k as int)),
        decreases perm@.len() - k,
    {
        let j = perm[k];
        let ghost on0 = on@;
        let ghost om0 = om@;
        on.push(names[j].clone());
        om.push(members[j].clone());
        k = k + 1;
        proof {
            assert(om@[k - 1]@ =~= members@[j as int]@);
            assert(pv[k - 1] == j as int);
            assert(group_views(on@, om@)[k - 1] == gs[j as int]);
            assert(group_views(on0, om0) == permuted(gs, pv.take(k - 1)));
            assert forall|q: int| 0 <= q < k - 1 implies group_views(on@, om@)[q] == permuted(gs, pv.take(k as int))[q] by {
                assert(on@[q] == on0[q]);
                assert(om@[q] == om0[q]);
                assert(group_views(on@, om@)[q] == group_views(on0, om0)[q]);
                assert(permuted(gs, pv.take(k - 1))[q] == gs[pv[q]]);
                assert(permuted(gs, pv.take(k as int))[q] == gs[pv[q]]);
            }
            assert(permuted(gs, pv.take(k as int))[k - 1] == gs[pv[k - 1]]);
            assert(group_views(on@, om@) =~= permuted(gs, pv.take(k as int)));
        }
    }
    assert(pv.take(k as int) =~= pv);
    (on, om)
}

/// Every item a group holds is below `n`.
pub open spec fn members_below(gs: Seq<(Seq<char>, Seq<int>)>, n: int) -> bool {
    forall|j: int, q: int| 0 <= j < gs.len() && 0 <= q < gs[j].1.len() ==> 0 <= #[trigger] gs[j].1[q] < n
}

proof fn lemma_add_below(gs: Seq<(Seq<char>, Seq<int>)>, cats: Seq<Seq<char>>, i: int, n: int)
    requires
        members_below(gs, n),
        0 <= i < n,
    ensures
        members_below(add_to_groups(gs, cats, i), n),
    decreases cats.len(),
{
    if cats.len() > 0 {
        let g0 = add_to_groups(gs, cats.drop_last(), i);
        lemma_add_below(gs, cats.drop_last(), i, n);
        lemma_group_index_bounds(g0, cats.last());
        let g1 = add_to_groups(gs, cats, i);
        assert forall|j: int, q: int| 0 <= j < g1.len() && 0 <= q < g1[j].1.len() implies 0 <= #[trigger] g1[j].1[q] < n by {
            match group_index(g0, cats.last()) {
                Some(m) => {
                    if j != m {
                        assert(g1[j] == g0[j]);
                    } else if q < g0[m].1.len() {
                        assert(g1[j].1[q] == g0[m].1[q]);
                    }
                },
                None => {
                    if j < g0.len() {
                        assert(g1[j] == g0[j]);
                    }
                },
            }
        }
    }
}

proof fn lemma_groups_below(items: Seq<OutItem>, db: Option<Seq<(String, Vec<String>)>>, k: int)
    requires
        0 <= k,
    ensures
        members_below(groups_upto(items, db, k), k),
    decreases k,
{
    if k > 0 {
        lemma_groups_below(items, db, k - 1);
        let g = groups_upto(items, db, k - 1);
        assert forall|j: int, q: int| 0 <= j < g.len() && 0 <= q < g[j].1.len() implies 0 <= #[trigger] g[j].1[q] < k by {
            assert(g[j].1[q] < k - 1);
        }
        lemma_add_below(g, item_cats(items, db, k - 1), k - 1, k);
    }
}

/// Sort each group's items by name, except in list-ordered categories.
fn arrange(names: &Vec<String>, members: &Vec<Vec<usize>>, keys: &Vec<String>) -> (r: Vec<Vec<usize>>)
    requires
        members@.len() == names@.len(),
        members_below(group_views(names@, members@), keys@.len() as int),
    ensures
        r@.len() == names@.len(),
        group_views(names@, r@) == arranged(group_views(names@, members@), views(keys@)),
{
    let ghost gs = group_views(names@, members@);
    let empty: Vec<String> = Vec::new();
    let mut out: Vec<Vec<usize>> = Vec::new();
    let mut j: usize = 0;
    while j < names.len()
        invariant
            j <= names@.len(),
            members@.len() == names@.len(),
            gs == group_views(names@, members@),
            members_below(gs, keys@.len() as int),
            empty@ == Seq::<String>::empty(),
            out@.len() == j,
            forall|q: int| 0 <= q < j ==> #[trigger] ints(out@[q]@) == arranged(gs, views(keys@))[q].1,
        decreases names@.len() - j,
    {
        assert(gs[j as int].1 == ints(members@[j as int]@));
        if is_list_ordered(names[j].as_str()) {
            out.push(members[j].clone());
            assert(out@[j as int]@ =~= members@[j as int]@);
        } else {
            proof {
                assert forall|q: int| 0 <= q < members@[j as int]@.len() implies (#[trigger] members@[j as int]@[q]) < keys@.len() by {
                    assert(gs[j as int].1[q] == members@[j as int]@[q] as int);
                }
            }
            out.push(sort_indices(&members[j], keys, &empty));
        }
        j = j + 1;
    }
    assert forall|q: int| 0 <= q < names@.len() implies #[trigger] group_views(names@, out@)[q] == arranged(gs, views(keys@))[q] by {
        assert(ints(out@[q]@) == arranged(gs, views(keys@))[q].1);
        assert(gs[q].0 == names@[q]@);
    }
    assert(group_views(names@, out@) =~= arranged(gs, views(keys@)));
    out
}

/// The name of page `p` of a category: the category's own name for the
/// first, then "name (2)", "name (3)", ….
pub open spec fn page_name(name: Seq<char>, p: int) -> Seq<char> {
    if p == 0 { name } else { name + " ("@ + decimal(p + 1) + ")"@ }
}

/// The number of pages `len` items fill.
pub open spec fn page_total(len: int) -> int {
    (len + 127) / 128
}

/// The items on page `p`.
pub open spec fn chunk_of(m: Seq<int>, p: int) -> Seq<int> {
    m.subrange(128 * p, if 128 * p + 128 < m.len() { 128 * p + 128 } else { m.len() as int })
}

/// The pages of one group: name, items, and whether the list order is kept.
pub open spec fn group_pages(g: (Seq<char>, Seq<int>)) -> Seq<(Seq<char>, Seq<int>, bool)> {
    Seq::new(page_total(g.1.len() as int) as nat, |p: int| (page_name(g.0, p), chunk_of(g.1, p), list_ordered(g.0)))
}

/// The pages of the first `k` groups.
pub open spec fn pages_upto(gs: Seq<(Seq<char>, Seq<int>)>, k: int) -> Seq<(Seq<char>, Seq<int>, bool)>
    decreases k,
{
    if k <= 0 { Seq::empty() } else { pages_upto(gs, k - 1) + group_pages(gs[k - 1]) }
}

/// The page slug numbered `n`: "slug-n".
pub open spec fn slug_cand(base: Seq<char>, n: int) -> Seq<char> {
    base + "-"@ + decimal(n)
}

/// The first number from `n` whose numbered slug is not taken, looking at
/// most `fuel` numbers past `n`.
pub open spec fn free_from(base: Seq<char>, used: Seq<Seq<char>>, n: int, fuel: nat) -> int
    decreases fuel,
{
    if fuel == 0 || !used.contains(slug_cand(base, n)) { n } else { free_from(base, used, n + 1, (fuel - 1) as nat) }
}

/// The slug of a page: its name's slug, numbered from 2 when that is taken.
pub open spec fn unique_slug_of(name: Seq<char>, used: Seq<Seq<char>>) -> Seq<char> {
    let base = cat_slug(name);
    if !used.contains(base) { base } else { slug_cand(base, free_from(base, used, 2, used.len())) }
}

/// The slugs of the first `k` pages, each unique among those before it.
pub open spec fn slugs_upto(pages: Seq<(Seq<char>, Seq<int>, bool)>, k: int) -> Seq<Seq<char>>
    decreases k,
{
    if k <= 0 {
        Seq::empty()
    } else {
        let before = slugs_upto(pages, k - 1);
        before.push(unique_slug_of(pages[k - 1].0, before))
    }
}

fn contains_str(v: &Vec<String>, s: &str) -> (r: bool)
    ensures
        r == views(v@).contains(s@),
{
    let mut i: usize = 0;
    while i < v.len()
        invariant
            i <= v@.len(),
            forall|j: int| 0 <= j < i ==> v@[j]@ != s@,
        decreases v@.len() - i,
    {
        if same_str(v[i].as_str(), s) {
            assert(views(v@)[i as int] == s@);
            return true;
        }
        i = i + 1;
    }
    proof {
        if views(v@).contains(s@) {
            let j = choose|j: int| 0 <= j < views(v@).len() && views(v@)[j] == s@;
            assert(v@[j]@ == s@);
        }
    }
    false
}

/// The slug numbered `n`.
fn slug_cand_exec(base: &String, n: u128) -> (r: String)
    ensures
        r@ == slug_cand(base@, n as int),
{
    let mut r = base.clone();
    append(&mut r, "-");
    append(&mut r, crate::text::decimal_u128(n).as_str());
    r
}

/// A slug for the page `name` not among `used`: the name's slug, or that
/// slug numbered from 2.
fn unique_slug(name: &str, used: &Vec<String>) -> (r: String)
    ensures
        r@ == unique_slug_of(name@, views(used@)),
{
    let base = slugify(name);
    if !contains_str(used, base.as_str()) {
        return base;
    }
    let mut n: u128 = 2;
    let l: usize = used.len();
    let mut fuel: usize = l;
    while fuel > 0 && contains_str(used, slug_cand_exec(&base, n).as_str())
        invariant
            l == used@.len(),
            fuel <= used@.len(),
            n == 2 + (used@.len() - fuel),
            base@ == cat_slug(name@),
            free_from(base@, views(used@), 2, used@.len() as nat) == free_from(base@, views(used@), n as int, fuel as nat),
        decreases fuel,
    {
        n = n + 1;
        fuel = fuel - 1;
    }
    slug_cand_exec(&base, n)
}

/// One page of the paged catalog.
#[derive(Clone, Debug)]
pub struct Page {
    /// The page's display name: the category's, numbered from the second page.
    pub name: String,
    /// The page file's slug, unique among the pages.
    pub slug: String,
    /// The items on the page, as indices into the compiled items.
    pub items: Vec<usize>,
    /// Whether the category keeps its list order.
    pub ordered: bool,
}

/// The pages as plain values: name, items, list order kept. A page's slug
/// is derived from these (and the slugs before it), so it is stated apart,
/// by `page_slugs`; every contract that speaks of the pages states both.
pub open spec fn page_views(ps: Seq<Page>) -> Seq<(Seq<char>, Seq<int>, bool)> {
    Seq::new(ps.len(), |k: int| (ps[k].name@, ints(ps[k].items@), ps[k].ordered))
}

/// The slugs of the pages.
pub open spec fn page_slugs(ps: Seq<Page>) -> Seq<Seq<char>> {
    Seq::new(ps.len(), |k: int| ps[k].slug@)
}

proof fn lemma_slugs_prefix(a: Seq<(Seq<char>, Seq<int>, bool)>, b: Seq<(Seq<char>, Seq<int>, bool)>, k: int)
    requires
        0 <= k <= a.len(),
        k <= b.len(),
        a.take(k) == b.take(k),
    ensures
        slugs_upto(a, k) == slugs_upto(b, k),
    decreases k,
{
    if k > 0 {
        assert(a.take(k - 1) =~= a.take(k).take(k - 1));
        assert(b.take(k - 1) =~= b.take(k).take(k - 1));
        lemma_slugs_prefix(a, b, k - 1);
        assert(a[k - 1] == a.take(k)[k - 1]);
        assert(b[k - 1] == b.take(k)[k - 1]);
    }
}

/// The items `m[lo..hi]`.
fn copy_range(m: &Vec<usize>, lo: usize, hi: usize) -> (r: Vec<usize>)
    requires
        lo <= hi <= m@.len(),
    ensures
        ints(r@) == ints(m@).subrange(lo as int, hi as int),
{
    let mut r: Vec<usize> = Vec::new();
    let mut q = lo;
    while q < hi
        invariant
            lo <= q <= hi <= m@.len(),
            r@ == m@.subrange(lo as int, q as int),
        decreases hi - q,
    {
        r.push(m[q]);
        q = q + 1;
        assert(r@ =~= m@.subrange(lo as int, q as int));
    }
    assert(ints(r@) =~= ints(m@).subrange(lo as int, hi as int));
    r
}

/// The name of page `p` of category `name`.
fn page_name_exec(name: &String, p: usize) -> (r: String)
    requires
        p < usize::MAX,
    ensures
        r@ == page_name(name@, p as int),
{
    if p == 0 {
        name.clone()
    } else {
        let mut r = name.clone();
        append(&mut r, " (");
        append(&mut r, crate::text::decimal_u128((p + 1) as u128).as_str());
        append(&mut r, ")");
        r
    }
}

/// Split every group into pages of at most `MAX_CAT_ITEMS` items, each with
/// a slug unique among the pages.
fn paginate(names: &Vec<String>, members: &Vec<Vec<usize>>) -> (r: Vec<Page>)
    requires
        members@.len() == names@.len(),
    ensures
        page_views(r@) == pages_upto(group_views(names@, members@), names@.len() as int),
        page_slugs(r@) == slugs_upto(page_views(r@), r@.len() as int),
{
    let ghost gs = group_views(names@, members@);
    let mut out: Vec<Page> = Vec::new();
    let mut used: Vec<String> = Vec::new();
    let mut j: usize = 0;
    while j < names.len()
        invariant
            j <= names@.len(),
            members@.len() == names@.len(),
            gs == group_views(names@, members@),
            page_views(out@) == pages_upto(gs, j as int),
            page_slugs(out@) == slugs_upto(page_views(out@), out@.len() as int),
            views(used@) == page_slugs(out@),
        decreases names@.len() - j,
    {
        let m = &members[j];
        let len = m.len();
        let total = len / 128 + if len % 128 == 0 { 0 } else { 1 };
        assert(total as int == page_total(len as int));
        let ordered = is_list_ordered(names[j].as_str());
        let ghost g = gs[j as int];
        let ghost base = pages_upto(gs, j as int);
        assert(g.1 == ints(m@));
        let mut p: usize = 0;
        while p < total
            invariant
                p <= total,
                total as int == page_total(len as int),
                len == m@.len(),
                j < names@.len(),
                m == members@[j as int],
                g == gs[j as int],
                g.1 == ints(m@),
                gs == group_views(names@, members@),
                ordered == list_ordered(g.0),
                page_views(out@) == base + group_pages(g).take(p as int),
                page_slugs(out@) == slugs_upto(page_views(out@), out@.len() as int),
                views(used@) == page_slugs(out@),
            decreases total - p,
        {
            assert(128 * p < len) by (nonlinear_arith)
                requires
                    p < total,
                    total as int == (len as int + 127) / 128;
            let lo = 128 * p;
            let hi = if len - lo > 128 { lo + 128 } else { len };
            let name = page_name_exec(&names[j], p);
            let slug = unique_slug(name.as_str(), &used);
            let items = copy_range(m, lo, hi);
            let ghost pv0 = page_views(out@);
            let ghost ps0 = page_slugs(out@);
            let ghost u0 = used@;
            used.push(slug.clone());
            out.push(Page { name, slug, items, ordered });
            proof {
                assert(chunk_of(g.1, p as int) == ints(m@).subrange(lo as int, hi as int));
                let x = (page_name(g.0, p as int), chunk_of(g.1, p as int), list_ordered(g.0));
                assert(page_views(out@) =~= pv0.push(x));
                assert(group_pages(g).take(p + 1) =~= group_pages(g).take(p as int).push(x));
                assert(page_views(out@) =~= base + group_pages(g).take(p + 1));
                assert(page_views(out@).take(pv0.len() as int) =~= pv0);
                assert(pv0.take(pv0.len() as int) =~= pv0);
                lemma_slugs_prefix(page_views(out@), pv0, pv0.len() as int);
                assert(page_slugs(out@) =~= ps0.push(out@[out@.len() - 1].slug@));
                assert(views(used@) =~= views(u0).push(out@[out@.len() - 1].slug@));
            }
            p = p + 1;
        }
        proof {
            assert(group_pages(g).take(p as int) =~= group_pages(g));
        }
        j = j + 1;
    }
    out
}

/// The pages a compiled catalog is laid out in: name, items, list order kept.
pub open spec fn planned(items: Seq<OutItem>, db: Option<Seq<(String, Vec<String>)>>, order: Option<Seq<String>>) -> Seq<
    (Seq<char>, Seq<int>, bool),
> {
    let gs = ordered_groups(groups_upto(items, db, items.len() as int), order);
    let ar = arranged(gs, name_keys(items));
    pages_upto(ar, ar.len() as int)
}

proof fn lemma_permuted_below(gs: Seq<(Seq<char>, Seq<int>)>, o: Seq<String>, n: int)
    requires
        members_below(gs, n),
    ensures
        members_below(ordered_groups(gs, Some(o)), n),
        ordered_groups(gs, Some(o)).len() == gs.len(),
{
    let perm = sort_by_keys(iota(gs.len() as int), names_of(gs), o);
    lemma_sort_len(iota(gs.len() as int), names_of(gs), o);
    let pg = permuted(gs, perm);
    assert forall|j: int, q: int| 0 <= j < pg.len() && 0 <= q < pg[j].1.len() implies 0 <= #[trigger] pg[j].1[q] < n by {
        assert(perm.contains(perm[j]));
        assert(iota(gs.len() as int).contains(perm[j]));
        assert(pg[j] == gs[perm[j]]);
    }
}

/// The lowercased names of the items.
fn lower_names(items: &Vec<OutItem>) -> (r: Vec<String>)
    ensures
        views(r@) == name_keys(items@),
{
    let mut r: Vec<String> = Vec::new();
    let mut i: usize = 0;
    while i < items.len()
        invariant
            i <= items@.len(),
            r@.len() == i,
            forall|j: int| 0 <= j < i ==> (#[trigger] r@[j])@ == crate::text::unicode_lower(items@[j].name@),
        decreases items@.len() - i,
    {
        r.push(crate::text::to_lower(items[i].name.as_str()));
        i = i + 1;
    }
    assert(views(r@) =~= name_keys(items@));
    r
}

/// Lay a compiled catalog out in pages. Items are grouped by category in
/// first-seen order, a category's members coming from the category database
/// (`db`, the last entry for an id winning; no entry, no categories) when one
/// is given, else from the items' own categories. With a taxonomy `order` the
/// categories follow it (unlisted ones after, alphabetically). Within a
/// category, items sort by lowercased name (equal names keeping their order)
/// unless the category keeps its list order (Recommended, Staff Picks). Each
/// category splits into pages of at most `MAX_CAT_ITEMS` items, the second
/// page on named "name (2)" and so on; every page gets a slug unique among
/// the pages. Also returns the number of categories.
pub fn plan_pages(items: &Vec<OutItem>, db: Option<&Vec<(String, Vec<String>)>>, order: Option<&Vec<String>>) -> (r: (
    Vec<Page>,
    usize,
))
    ensures
        ({
            let dbv = match db {
                Some(d) => Some(d@),
                None => None,
            };
            let ov = match order {
                Some(o) => Some(o@),
                None => None,
            };
            &&& r.1 == groups_upto(items@, dbv, items@.len() as int).len()
            &&& page_views(r.0@) == planned(items@, dbv, ov)
            &&& page_slugs(r.0@) == slugs_upto(planned(items@, dbv, ov), r.0@.len() as int)
        }),
{
    let ghost dbv = match db {
        Some(d) => Some(d@),
        None => None,
    };
    let ghost ov = match order {
        Some(o) => Some(o@),
        None => None,
    };
    let (names0, members0) = group_items(items, db);
    let ngroups = names0.len();
    proof {
        lemma_groups_below(items@, dbv, items@.len() as int);
    }
    let (names, members) = match order {
        Some(o) => {
            let r = order_groups(&names0, &members0, o);
            proof {
                lemma_permuted_below(group_views(names0@, members0@), o@, items@.len() as int);
            }
            r
        },
        None => (names0, members0),
    };
    let keys = lower_names(items);
    assert(keys@.len() == views(keys@).len());
    assert(group_views(names@, members@) == ordered_groups(groups_upto(items@, dbv, items@.len() as int), ov));
    assert(members_below(group_views(names@, members@), keys@.len() as int));
    let arranged_members = arrange(&names, &members, &keys);
    let pages = paginate(&names, &arranged_members);
    (pages, ngroups)
}

/// The categories item `i` is listed with on its page: those it is filed
/// under, at most the device's eight.
pub fn page_categories(items: &Vec<OutItem>, db: Option<&Vec<(String, Vec<String>)>>, i: usize) -> (r: Vec<String>)
    requires
        i < items@.len(),
    ensures
        ({
            let c = item_cats(items@, match db {
                Some(d) => Some(d@),
                None => None,
            }, i as int);
            views(r@) == if c.len() > 8 { c.take(8) } else { c }
        }),
{
    let mut c = cats_of(items, db, i);
    let ghost full = views(c@);
    c.truncate(crate::catalog::MAX_ITEM_CATS);
    assert(views(c@) =~= if full.len() > 8 { full.take(8) } else { full });
    c
}

/// The indices of the first `k` items that carry a launch hotkey.
pub open spec fn hotkeyed_upto(items: Seq<OutItem>, k: int) -> Seq<int>
    decreases k,
{
    if k <= 0 {
        Seq::empty()
    } else if items[k - 1].hotkey is Some {
        hotkeyed_upto(items, k - 1).push(k - 1)
    } else {
        hotkeyed_upto(items, k - 1)
    }
}

/// The items that carry a launch hotkey, in order, so a hotkey launches
/// without loading a page.
pub fn hotkey_items(items: &Vec<OutItem>) -> (r: Vec<usize>)
    ensures
        ints(r@) == hotkeyed_upto(items@, items@.len() as int),
{
    let mut r: Vec<usize> = Vec::new();
    let mut i: usize = 0;
    while i < items.len()
        invariant
            i <= items@.len(),
            ints(r@) == hotkeyed_upto(items@, i as int),
        decreases items@.len() - i,
    {
        if items[i].hotkey.is_some() {
            let ghost before = r@;
            r.push(i);
            assert(ints(r@) =~= ints(before).push(i as int));
        }
        i = i + 1;
    }
    r
}

/// The largest of the first `k` pages, the first of equal sizes: name and
/// item count (nothing and zero before any).
pub open spec fn biggest_upto(ps: Seq<(Seq<char>, Seq<int>, bool)>, k: int) -> (Seq<char>, int)
    decreases k,
{
    if k <= 0 {
        (Seq::empty(), 0)
    } else {
        let b = biggest_upto(ps, k - 1);
        if ps[k - 1].1.len() > b.1 { (ps[k - 1].0, ps[k - 1].1.len() as int) } else { b }
    }
}

/// The report of a paged generation: the categories, pages and items, how
/// many items carry a hotkey, the largest page (the first of equal sizes),
/// and the compile warnings.
pub fn paged_report(items: &Vec<OutItem>, pages: &Vec<Page>, categories: usize, warnings: Vec<String>) -> (r: crate::catalog::PagedReport)
    ensures
        r.categories == categories,
        r.pages == pages@.len(),
        r.items == items@.len(),
        r.hotkeys == hotkeyed_upto(items@, items@.len() as int).len(),
        r.biggest_page.0@ == biggest_upto(page_views(pages@), pages@.len() as int).0,
        r.biggest_page.1 == biggest_upto(page_views(pages@), pages@.len() as int).1,
        r.warnings@ == warnings@,
{
    let hk = hotkey_items(items);
    assert(hk@.len() == ints(hk@).len());
    let mut best_name = String::new();
    let mut best: usize = 0;
    let mut k: usize = 0;
    while k < pages.len()
        invariant
            k <= pages@.len(),
            best_name@ == biggest_upto(page_views(pages@), k as int).0,
            best == biggest_upto(page_views(pages@), k as int).1,
        decreases pages@.len() - k,
    {
        let c = pages[k].items.len();
        assert(page_views(pages@)[k as int].1.len() == c);
        if c > best {
            best = c;
            best_name = pages[k].name.clone();
        }
        k = k + 1;
    }
    crate::catalog::PagedReport {
        categories,
        pages: pages.len(),
        items: items.len(),
        hotkeys: hk.len(),
        biggest_page: (best_name, best),
        warnings,
    }
}

proof fn lemma_nat_digits_len(n: nat)
    ensures
        crate::text::nat_digits(n).len() >= 1,
        n >= 10 ==> crate::text::nat_digits(n).len() >= 2,
    decreases n,
{
    if n >= 10 {
        lemma_nat_digits_len(n / 10);
    }
}

/// Different numbers are written differently.
proof fn lemma_nat_digits_injective(a: nat, b: nat)
    requires
        crate::text::nat_digits(a) == crate::text::nat_digits(b),
    ensures
        a == b,
    decreases a + b,
{
    let da = crate::text::nat_digits(a);
    let db = crate::text::nat_digits(b);
    lemma_nat_digits_len(a);
    lemma_nat_digits_len(b);
    if a < 10 && b < 10 {
        assert(da[0] == ((a + 48) as char));
        assert(db[0] == ((b + 48) as char));
        assert(((a + 48) as char) as u32 == a + 48);
        assert(((b + 48) as char) as u32 == b + 48);
    } else if a >= 10 && b >= 10 {
        let pa = crate::text::nat_digits(a / 10);
        let pb = crate::text::nat_digits(b / 10);
        assert(da.last() == ((a % 10) + 48) as char);
        assert(db.last() == ((b % 10) + 48) as char);
        assert((((a % 10) + 48) as char) as u32 == (a % 10) + 48);
        assert((((b % 10) + 48) as char) as u32 == (b % 10) + 48);
        assert(da.drop_last() =~= pa);
        assert(db.drop_last() =~= pb);
        lemma_nat_digits_injective(a / 10, b / 10);
    }
}

/// Different numbers give different numbered slugs.
proof fn lemma_slug_cand_injective(base: Seq<char>, n: int, m: int)
    requires
        0 <= n,
        0 <= m,
        slug_cand(base, n) == slug_cand(base, m),
    ensures
        n == m,
{
    reveal_strlit("-");
    let k: int = base.len() as int + 1;
    assert(slug_cand(base, n).skip(k) =~= decimal(n));
    assert(slug_cand(base, m).skip(k) =~= decimal(m));
    lemma_nat_digits_injective(n as nat, m as nat);
}

/// A list without repeats, all of whose items `s` holds, is no longer than `s`.
proof fn lemma_pigeonhole(s: Seq<Seq<char>>, xs: Seq<Seq<char>>)
    requires
        xs.no_duplicates(),
        forall|i: int| 0 <= i < xs.len() ==> s.contains(#[trigger] xs[i]),
    ensures
        xs.len() <= s.len(),
    decreases s.len(),
{
    if s.len() == 0 {
        if xs.len() > 0 {
            assert(s.contains(xs[0]));
        }
    } else {
        let v = s.last();
        let rest = s.drop_last();
        if xs.contains(v) {
            let j = choose|j: int| 0 <= j < xs.len() && xs[j] == v;
            let ys = xs.remove(j);
            assert forall|i: int| 0 <= i < ys.len() implies rest.contains(#[trigger] ys[i]) by {
                let x = ys[i];
                if i < j {
                    assert(x == xs[i]);
                } else {
                    assert(x == xs[i + 1]);
                }
                assert(x != v);
                assert(s.contains(x));
                let q = choose|q: int| 0 <= q < s.len() && s[q] == x;
                assert(rest[q] == x);
            }
            assert forall|a: int, b: int| 0 <= a < b < ys.len() implies ys[a] != ys[b] by {
                let ia = if a < j { a } else { a + 1 };
                let ib = if b < j { b } else { b + 1 };
                assert(ys[a] == xs[ia]);
                assert(ys[b] == xs[ib]);
            }
            lemma_pigeonhole(rest, ys);
        } else {
            assert forall|i: int| 0 <= i < xs.len() implies rest.contains(#[trigger] xs[i]) by {
                let x = xs[i];
                assert(s.contains(x));
                let q = choose|q: int| 0 <= q < s.len() && s[q] == x;
                assert(x != v);
                assert(rest[q] == x);
            }
            lemma_pigeonhole(rest, xs);
        }
    }
}

/// The numbered slugs from `n` up to `n + c - 1`.
pub open spec fn cands_from(base: Seq<char>, n: int, c: nat) -> Seq<Seq<char>> {
    Seq::new(c, |i: int| slug_cand(base, n + i))
}

/// The search for a free numbered slug ends at one that is not taken.
proof fn lemma_free_from(base: Seq<char>, used: Seq<Seq<char>>, n: int, fuel: nat)
    requires
        2 <= n,
        forall|i: int| 0 <= i < n - 2 ==> used.contains(#[trigger] slug_cand(base, 2 + i)),
        n - 2 + fuel == used.len(),
    ensures
        !used.contains(slug_cand(base, free_from(base, used, n, fuel))),
    decreases fuel,
{
    if fuel > 0 && used.contains(slug_cand(base, n)) {
        assert forall|i: int| 0 <= i < n + 1 - 2 implies used.contains(#[trigger] slug_cand(base, 2 + i)) by {
            if i == n - 2 {
                assert(2 + i == n);
            }
        }
        lemma_free_from(base, used, n + 1, (fuel - 1) as nat);
    } else if fuel == 0 {
        if used.contains(slug_cand(base, n)) {
            let xs = cands_from(base, 2, (used.len() + 1) as nat);
            assert forall|a: int, b: int| 0 <= a < b < xs.len() implies xs[a] != xs[b] by {
                if xs[a] == xs[b] {
                    lemma_slug_cand_injective(base, 2 + a, 2 + b);
                }
            }
            assert forall|i: int| 0 <= i < xs.len() implies used.contains(#[trigger] xs[i]) by {
                if i < n - 2 {
                    assert(xs[i] == slug_cand(base, 2 + i));
                } else {
                    assert(2 + i == n);
                }
            }
            lemma_pigeonhole(used, xs);
        }
    }
}

/// A page's slug is not among the slugs before it.
proof fn lemma_unique_slug_fresh(name: Seq<char>, used: Seq<Seq<char>>)
    ensures
        !used.contains(unique_slug_of(name, used)),
{
    let base = cat_slug(name);
    if used.contains(base) {
        lemma_free_from(base, used, 2, used.len());
    }
}

/// Every page of a paged catalog gets its own slug: no two pages share one.
pub proof fn lemma_slugs_distinct(pages: Seq<(Seq<char>, Seq<int>, bool)>, k: int)
    requires
        0 <= k,
    ensures
        slugs_upto(pages, k).no_duplicates(),
        slugs_upto(pages, k).len() == k,
    decreases k,
{
    if k > 0 {
        lemma_slugs_distinct(pages, k - 1);
        let before = slugs_upto(pages, k - 1);
        lemma_unique_slug_fresh(pages[k - 1].0, before);
        let now = slugs_upto(pages, k);
        assert forall|a: int, b: int| 0 <= a < b < now.len() implies now[a] != now[b] by {
            if b == k - 1 {
                assert(before.contains(now[a]));
            } else {
                assert(now[a] == before[a] && now[b] == before[b]);
            }
        }
    }
}

/// Every page holds between one and `MAX_CAT_ITEMS` items.
pub proof fn lemma_pages_fit(gs: Seq<(Seq<char>, Seq<int>)>, k: int)
    requires
        0 <= k <= gs.len(),
    ensures
        forall|q: int| 0 <= q < pages_upto(gs, k).len() ==> 1 <= (#[trigger] pages_upto(gs, k)[q]).1.len() <= 128,
    decreases k,
{
    if k > 0 {
        lemma_pages_fit(gs, k - 1);
        let a = pages_upto(gs, k - 1);
        let g = gs[k - 1];
        let b = group_pages(g);
        assert forall|q: int| 0 <= q < (a + b).len() implies 1 <= (#[trigger] (a + b)[q]).1.len() <= 128 by {
            if q >= a.len() {
                let p = q - a.len();
                assert((a + b)[q] == b[p]);
                assert(128 * p < g.1.len()) by (nonlinear_arith)
                    requires
                        0 <= p < (g.1.len() + 127) / 128;
            } else {
                assert((a + b)[q] == a[q]);
            }
        }
    }
}

} // verus!
