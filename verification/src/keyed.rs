//! A string-keyed registry held in key order, the shape of the JSON objects
//! the tool keeps its donors, templates and targets in: one entry per key,
//! keys ascending, a later insert of a key replacing its value.

use crate::text::chars_of;
use vstd::prelude::*;

verus! {

/// Lexicographic order of character sequences (the order of `String` keys
/// in a `BTreeMap`: code point by code point, a prefix first).
pub open spec fn key_lt(a: Seq<char>, b: Seq<char>) -> bool
    decreases a.len(),
{
    if a.len() == 0 {
        b.len() > 0
    } else if b.len() == 0 {
        false
    } else if a[0] != b[0] {
        a[0] < b[0]
    } else {
        key_lt(a.drop_first(), b.drop_first())
    }
}

pub proof fn lemma_key_lt_trans(a: Seq<char>, b: Seq<char>, c: Seq<char>)
    requires
        key_lt(a, b),
        key_lt(b, c),
    ensures
        key_lt(a, c),
    decreases a.len(),
{
    if a.len() > 0 && b.len() > 0 && c.len() > 0 && a[0] == b[0] && b[0] == c[0] {
        lemma_key_lt_trans(a.drop_first(), b.drop_first(), c.drop_first());
    }
}

pub proof fn lemma_key_lt_total(a: Seq<char>, b: Seq<char>)
    ensures
        key_lt(a, b) || key_lt(b, a) || a == b,
        !(key_lt(a, b) && key_lt(b, a)),
        !key_lt(a, a),
    decreases a.len(),
{
    if a.len() > 0 && b.len() > 0 && a[0] == b[0] {
        lemma_key_lt_total(a.drop_first(), b.drop_first());
        if a.drop_first() == b.drop_first() {
            assert(a =~= seq![a[0]] + a.drop_first());
            assert(b =~= seq![b[0]] + b.drop_first());
        }
    }
    if a.len() > 0 {
        lemma_key_lt_total(a.drop_first(), a.drop_first());
    }
    if a.len() == 0 && b.len() == 0 {
        assert(a =~= b);
    }
}

/// Keys ascending, hence distinct.
pub open spec fn sorted_keys<T>(e: Seq<(String, T)>) -> bool {
    forall|i: int, j: int| 0 <= i < j < e.len() ==> key_lt(#[trigger] e[i].0@, #[trigger] e[j].0@)
}

/// The value under `k`, if any (the first entry with that key).
pub open spec fn lookup<T>(e: Seq<(String, T)>, k: Seq<char>) -> Option<T>
    decreases e.len(),
{
    if e.len() == 0 {
        None
    } else if e[0].0@ == k {
        Some(e[0].1)
    } else {
        lookup(e.drop_first(), k)
    }
}

/// `top` laid over `base`: the value of `top` under `k` if it has one, else
/// that of `base`.
pub open spec fn overlay<T>(base: Seq<(String, T)>, top: Seq<(String, T)>, k: Seq<char>) -> Option<T> {
    match lookup(top, k) {
        Some(v) => Some(v),
        None => lookup(base, k),
    }
}

proof fn lemma_lookup_push<T>(e: Seq<(String, T)>, x: (String, T), k: Seq<char>)
    ensures
        lookup(e.push(x), k) == (match lookup(e, k) {
            Some(v) => Some(v),
            None => if x.0@ == k { Some(x.1) } else { None },
        }),
    decreases e.len(),
{
    if e.len() > 0 {
        assert(e.push(x)[0] == e[0]);
        assert(e.push(x).drop_first() =~= e.drop_first().push(x));
        lemma_lookup_push(e.drop_first(), x, k);
    } else {
        assert(e.push(x)[0] == x);
        assert(e.push(x).drop_first() =~= Seq::<(String, T)>::empty());
        assert(lookup(e.push(x).drop_first(), k) is None);
        assert(lookup(e, k) is None);
    }
}

/// In a registry with distinct keys, the prefix ending at entry `i` looks a key
/// up as the shorter prefix does, unless the key is that of entry `i`.
pub proof fn lemma_take_push_lookup<T>(t: Seq<(String, T)>, i: int, k: Seq<char>)
    requires
        sorted_keys(t),
        0 <= i < t.len(),
    ensures
        lookup(t.take(i + 1), k) == (if t[i].0@ == k { Some(t[i].1) } else { lookup(t.take(i), k) }),
{
    assert(t.take(i + 1) =~= t.take(i).push(t[i]));
    lemma_lookup_push(t.take(i), t[i], k);
    if t[i].0@ == k {
        assert forall|j: int| 0 <= j < t.take(i).len() implies (#[trigger] t.take(i)[j]).0@ != k by {
            assert(t.take(i)[j] == t[j]);
            lemma_key_lt_total(t[j].0@, k);
        }
        lemma_lookup_absent(t.take(i), k);
    }
}

/// A key has a value exactly where some entry carries it.
pub proof fn lemma_lookup_some_iff<T>(e: Seq<(String, T)>, k: Seq<char>)
    ensures
        (lookup(e, k) is Some) <==> (exists|j: int| 0 <= j < e.len() && (#[trigger] e[j]).0@ == k),
    decreases e.len(),
{
    if e.len() > 0 {
        lemma_lookup_some_iff(e.drop_first(), k);
        if exists|j: int| 0 <= j < e.len() && (#[trigger] e[j]).0@ == k {
            let j = choose|j: int| 0 <= j < e.len() && (#[trigger] e[j]).0@ == k;
            if j > 0 {
                assert(e.drop_first()[j - 1] == e[j]);
            }
        }
        if exists|j: int| 0 <= j < e.drop_first().len() && (#[trigger] e.drop_first()[j]).0@ == k {
            let j = choose|j: int| 0 <= j < e.drop_first().len() && (#[trigger] e.drop_first()[j]).0@ == k;
            assert(e[j + 1] == e.drop_first()[j]);
        }
    }
}

/// The first entry carrying a key gives its value.
pub proof fn lemma_lookup_index<T>(e: Seq<(String, T)>, k: Seq<char>, i: int)
    requires
        0 <= i < e.len(),
        e[i].0@ == k,
        forall|j: int| 0 <= j < i ==> (#[trigger] e[j]).0@ != k,
    ensures
        lookup(e, k) == Some(e[i].1),
    decreases i,
{
    if i > 0 {
        lemma_lookup_index(e.drop_first(), k, i - 1);
    }
}

/// A key no entry carries has no value.
pub proof fn lemma_lookup_absent<T>(e: Seq<(String, T)>, k: Seq<char>)
    requires
        forall|j: int| 0 <= j < e.len() ==> (#[trigger] e[j]).0@ != k,
    ensures
        lookup(e, k) is None,
    decreases e.len(),
{
    if e.len() > 0 {
        lemma_lookup_absent(e.drop_first(), k);
    }
}

/// `key_lt` on two strings.
pub fn string_lt(a: &str, b: &str) -> (r: bool)
    ensures
        r == key_lt(a@, b@),
{
    let x = chars_of(a);
    let y = chars_of(b);
    let mut i: usize = 0;
    assert(x@.subrange(0, x@.len() as int) =~= x@);
    assert(y@.subrange(0, y@.len() as int) =~= y@);
    while i < x.len() && i < y.len() && x[i] == y[i]
        invariant
            i <= x@.len(),
            i <= y@.len(),
            key_lt(x@, y@) == key_lt(x@.subrange(i as int, x@.len() as int), y@.subrange(i as int, y@.len() as int)),
        decreases x@.len() - i,
    {
        assert(x@.subrange(i as int, x@.len() as int).drop_first() =~= x@.subrange(i + 1, x@.len() as int));
        assert(y@.subrange(i as int, y@.len() as int).drop_first() =~= y@.subrange(i + 1, y@.len() as int));
        i = i + 1;
    }
    if i == x.len() {
        i < y.len()
    } else if i == y.len() {
        false
    } else {
        x[i] < y[i]
    }
}

/// A registry: `(key, value)` entries, keys ascending.
#[derive(Clone, Debug)]
pub struct Keyed<T> {
    pub entries: Vec<(String, T)>,
}

impl<T> Keyed<T> {
    /// Keys ascending.
    pub open spec fn wf(&self) -> bool {
        sorted_keys(self.entries@)
    }

    /// The empty registry.
    pub fn new() -> (r: Self)
        ensures
            r.wf(),
            r.entries@.len() == 0,
    {
        Keyed { entries: Vec::new() }
    }

    /// The value under `key`.
    pub fn get(&self, key: &str) -> (r: Option<&T>)
        ensures
            match r {
                Some(v) => lookup(self.entries@, key@) == Some(*v),
                None => lookup(self.entries@, key@) is None,
            },
    {
        let mut i: usize = 0;
        while i < self.entries.len()
            invariant
                i <= self.entries@.len(),
                forall|j: int| 0 <= j < i ==> (#[trigger] self.entries@[j]).0@ != key@,
            decreases self.entries@.len() - i,
        {
            if crate::text::same_str(self.entries[i].0.as_str(), key) {
                proof {
                    lemma_lookup_index(self.entries@, key@, i as int);
                }
                return Some(&self.entries[i].1);
            }
            i = i + 1;
        }
        proof {
            lemma_lookup_absent(self.entries@, key@);
        }
        None
    }

    /// The keys, in order.
    pub fn keys(&self) -> (r: Vec<String>)
        ensures
            r@.len() == self.entries@.len(),
            forall|j: int| 0 <= j < r@.len() ==> (#[trigger] r@[j])@ == self.entries@[j].0@,
    {
        let mut r: Vec<String> = Vec::new();
        let mut i: usize = 0;
        while i < self.entries.len()
            invariant
                i <= self.entries@.len(),
                r@.len() == i,
                forall|j: int| 0 <= j < i ==> (#[trigger] r@[j])@ == self.entries@[j].0@,
            decreases self.entries@.len() - i,
        {
            let k = self.entries[i].0.clone();
            r.push(k);
            i = i + 1;
        }
        r
    }

    /// The value under `key`, found by bisection over the ascending keys.
    pub fn search(&self, key: &str) -> (r: Option<&T>)
        requires
            self.wf(),
        ensures
            match r {
                Some(v) => lookup(self.entries@, key@) == Some(*v),
                None => lookup(self.entries@, key@) is None,
            },
    {
        let ghost e = self.entries@;
        let mut lo: usize = 0;
        let mut hi: usize = self.entries.len();
        while lo < hi
            invariant
                lo <= hi <= e.len(),
                e == self.entries@,
                sorted_keys(e),
                forall|j: int| 0 <= j < lo ==> key_lt((#[trigger] e[j]).0@, key@),
                forall|j: int| hi <= j < e.len() ==> key_lt(key@, (#[trigger] e[j]).0@),
            decreases hi - lo,
        {
            let mid = lo + (hi - lo) / 2;
            let k = self.entries[mid].0.as_str();
            if string_lt(k, key) {
                proof {
                    assert forall|j: int| 0 <= j <= mid implies key_lt((#[trigger] e[j]).0@, key@) by {
                        if j < mid {
                            lemma_key_lt_trans(e[j].0@, e[mid as int].0@, key@);
                        }
                    }
                }
                lo = mid + 1;
            } else if string_lt(key, k) {
                proof {
                    assert forall|j: int| mid <= j < e.len() implies key_lt(key@, (#[trigger] e[j]).0@) by {
                        if j > mid {
                            lemma_key_lt_trans(key@, e[mid as int].0@, e[j].0@);
                        }
                    }
                }
                hi = mid;
            } else {
                proof {
                    lemma_key_lt_total(e[mid as int].0@, key@);
                    assert forall|j: int| 0 <= j < mid implies (#[trigger] e[j]).0@ != key@ by {
                        lemma_key_lt_total(e[j].0@, key@);
                    }
                    lemma_lookup_index(e, key@, mid as int);
                }
                return Some(&self.entries[mid].1);
            }
        }
        proof {
            assert forall|j: int| 0 <= j < e.len() implies (#[trigger] e[j]).0@ != key@ by {
                lemma_key_lt_total(e[j].0@, key@);
            }
            lemma_lookup_absent(e, key@);
        }
        None
    }

    /// Set the value under `key` only where it has none yet.
    pub fn insert_absent(&mut self, key: String, val: T)
        requires
            old(self).wf(),
        ensures
            final(self).wf(),
            forall|k: Seq<char>| #[trigger] lookup(final(self).entries@, k) == match lookup(old(self).entries@, k) {
                Some(v) => Some(v),
                None => if k == key@ { Some(val) } else { None },
            },
    {
        let present = self.search(key.as_str()).is_some();
        if !present {
            let ghost kv = key@;
            self.insert(key, val);
            proof {
                assert forall|k: Seq<char>| #[trigger] lookup(self.entries@, k) == match lookup(old(self).entries@, k) {
                    Some(v) => Some(v),
                    None => if k == kv { Some(val) } else { None },
                } by {
                    if k != kv {
                        assert(lookup(self.entries@, k) == lookup(old(self).entries@, k));
                        if lookup(old(self).entries@, k) is None {
                        }
                    }
                }
            }
        }
    }

    /// Whether the registry has no entries.
    pub fn is_empty(&self) -> (r: bool)
        ensures
            r == (self.entries@.len() == 0),
    {
        self.entries.len() == 0
    }

    /// Every entry of `top` laid over this registry: a key of `top` takes its
    /// value from `top`, every other key keeps its value here.
    pub fn extend(&mut self, top: Keyed<T>)
        requires
            old(self).wf(),
            top.wf(),
        ensures
            final(self).wf(),
            forall|k: Seq<char>| #[trigger] lookup(final(self).entries@, k) == overlay(old(self).entries@, top.entries@, k),
    {
        let ghost e0 = self.entries@;
        let ghost t = top.entries@;
        let mut rest = top.entries;
        let ghost mut done: int = 0;
        while rest.len() > 0
            invariant
                self.wf(),
                0 <= done <= t.len(),
                rest@ == t.skip(done),
                sorted_keys(t),
                forall|k: Seq<char>| #[trigger] lookup(self.entries@, k) == overlay(e0, t.take(done), k),
            decreases rest@.len(),
        {
            let ghost before = self.entries@;
            let (k, v) = rest.remove(0);
            proof {
                assert(t[done] == (k, v));
            }
            let ghost kv = k@;
            self.insert(k, v);
            proof {
                lemma_take_push_lookup(t, done, kv);
                assert forall|q: Seq<char>| #[trigger] lookup(self.entries@, q) == overlay(e0, t.take(done + 1), q) by {
                    lemma_take_push_lookup(t, done, q);
                }
                done = done + 1;
                assert(rest@ =~= t.skip(done));
            }
        }
        proof {
            assert(t.take(done) =~= t);
        }
    }

    /// Set the value under `key`, replacing any value it had; every other key
    /// keeps its value and the keys stay ascending.
    pub fn insert(&mut self, key: String, val: T)
        requires
            old(self).wf(),
        ensures
            final(self).wf(),
            lookup(final(self).entries@, key@) == Some(val),
            forall|k: Seq<char>| k != key@ ==> lookup(final(self).entries@, k) == lookup(old(self).entries@, k),
    {
        let ghost e0 = self.entries@;
        let mut p: usize = 0;
        while p < self.entries.len() && string_lt(self.entries[p].0.as_str(), key.as_str())
            invariant
                p <= self.entries@.len(),
                self.entries@ == e0,
                sorted_keys(e0),
                forall|j: int| 0 <= j < p ==> key_lt((#[trigger] e0[j]).0@, key@),
            decreases self.entries@.len() - p,
        {
            p = p + 1;
        }
        proof {
            assert forall|j: int| p <= j < e0.len() implies !key_lt((#[trigger] e0[j]).0@, key@) by {
                if j > p {
                    lemma_key_lt_total(e0[p as int].0@, key@);
                    if key_lt(e0[j].0@, key@) {
                        lemma_key_lt_trans(e0[p as int].0@, e0[j].0@, key@);
                    }
                }
            }
        }
        let same = p < self.entries.len() && crate::text::same_str(self.entries[p].0.as_str(), key.as_str());
        let ghost kv = key@;
        if same {
            let ghost old_key = e0[p as int].0;
            self.entries.set(p, (key, val));
            proof {
                let e1 = self.entries@;
                assert(e1 =~= e0.update(p as int, (e1[p as int].0, val)));
                assert forall|i: int, j: int| 0 <= i < j < e1.len() implies key_lt(#[trigger] e1[i].0@, #[trigger] e1[j].0@) by {
                    assert(e1[i].0@ == e0[i].0@);
                    assert(e1[j].0@ == e0[j].0@);
                }
                assert forall|j: int| 0 <= j < p implies (#[trigger] e1[j]).0@ != kv by {
                    lemma_key_lt_total(e0[j].0@, kv);
                }
                lemma_lookup_index(e1, kv, p as int);
                assert forall|k: Seq<char>| k != kv implies lookup(e1, k) == lookup(e0, k) by {
                    assert forall|i: int| 0 <= i < e0.len() && e0[i].0@ == k implies (#[trigger] e0[i]).1 == e1[i].1 by {
                        if i == p {
                            assert(e0[i].0@ == old_key@);
                        }
                    }
                    lemma_lookup_same(e0, e1, k);
                }
            }
        } else {
            self.entries.insert(p, (key, val));
            proof {
                let e1 = self.entries@;
                assert(e1.len() == e0.len() + 1);
                assert forall|j: int| p < j < e1.len() implies key_lt(kv, (#[trigger] e1[j]).0@) by {
                    assert(e1[j] == e0[j - 1]);
                    lemma_key_lt_total(e0[j - 1].0@, kv);
                    if j - 1 == p {
                    } else {
                        lemma_key_lt_total(e0[p as int].0@, kv);
                        lemma_key_lt_trans(kv, e0[p as int].0@, e0[j - 1].0@);
                    }
                }
                assert forall|i: int, j: int| 0 <= i < j < e1.len() implies key_lt(#[trigger] e1[i].0@, #[trigger] e1[j].0@) by {
                    if j < p {
                        assert(e1[i] == e0[i] && e1[j] == e0[j]);
                    } else if j == p {
                        assert(e1[i] == e0[i]);
                    } else if i < p {
                        assert(e1[i] == e0[i]);
                        assert(key_lt(kv, e1[j].0@));
                        lemma_key_lt_trans(e0[i].0@, kv, e1[j].0@);
                    } else if i == p {
                    } else {
                        assert(e1[i] == e0[i - 1] && e1[j] == e0[j - 1]);
                    }
                }
                assert forall|j: int| 0 <= j < p implies (#[trigger] e1[j]).0@ != kv by {
                    assert(e1[j] == e0[j]);
                    lemma_key_lt_total(e0[j].0@, kv);
                }
                lemma_lookup_index(e1, kv, p as int);
                assert forall|k: Seq<char>| k != kv implies lookup(e1, k) == lookup(e0, k) by {
                    lemma_lookup_insert(e0, e1, p as int, k);
                }
            }
        }
    }
}

proof fn lemma_lookup_same<T>(e0: Seq<(String, T)>, e1: Seq<(String, T)>, k: Seq<char>)
    requires
        e0.len() == e1.len(),
        forall|i: int| 0 <= i < e0.len() ==> (#[trigger] e0[i]).0@ == e1[i].0@,
        forall|i: int| 0 <= i < e0.len() && e0[i].0@ == k ==> (#[trigger] e0[i]).1 == e1[i].1,
    ensures
        lookup(e1, k) == lookup(e0, k),
    decreases e0.len(),
{
    if e0.len() > 0 {
        lemma_lookup_same(e0.drop_first(), e1.drop_first(), k);
    }
}

proof fn lemma_lookup_insert<T>(e0: Seq<(String, T)>, e1: Seq<(String, T)>, p: int, k: Seq<char>)
    requires
        0 <= p <= e0.len(),
        e1.len() == e0.len() + 1,
        forall|i: int| 0 <= i < p ==> e1[i] == #[trigger] e0[i],
        forall|i: int| p < i < e1.len() ==> #[trigger] e1[i] == e0[i - 1],
        e1[p].0@ != k,
    ensures
        lookup(e1, k) == lookup(e0, k),
    decreases p,
{
    if p == 0 {
        assert(e1.drop_first() =~= e0);
    } else {
        assert(e1[0] == e0[0]);
        lemma_lookup_insert(e0.drop_first(), e1.drop_first(), p - 1, k);
    }
}

} // verus!
