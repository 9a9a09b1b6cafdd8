//! Classic Mac resource-fork writer: build a resource fork from an arbitrary
//! set of `(type, id, data)` resources across several types.
//!
//! Data starts at the conventional 256-byte offset; resources carry no names
//! and zero attributes. Types are emitted in first-seen order, and within a
//! type the resources keep their given order.

use crate::bytes::{be16_bytes, be32_bytes, push_all, push_be16, push_be32, push_zeros, zeros};
use vstd::prelude::*;

verus! {

/// A four-char resource type (OSType), e.g. `*b"PICT"`.
pub type OsType = [u8; 4];

/// One resource to place in the fork. `data` is the raw resource body.
pub struct Res<'a> {
    pub tag: OsType,
    pub id: i16,
    pub data: &'a [u8],
}

impl<'a> Res<'a> {
    pub fn new(tag: OsType, id: i16, data: &'a [u8]) -> (r: Self)
        ensures
            r.tag == tag,
            r.id == id,
            r.data@ == data@,
    {
        Res { tag, id, data }
    }
}

/// Offset of the data section from the start of the fork.
pub const DATA_OFF: usize = 256;

/// The type list begins 28 bytes into the map.
pub const TYPE_LIST_OFF: u16 = 28;

/// Bytes per reference-list entry.
pub const REF_ENTRY_LEN: usize = 12;

/// Whether two resource types are the same four bytes.
pub fn same_tag(a: &OsType, b: &OsType) -> (r: bool)
    ensures
        r == (a@ == b@),
{
    let r = a[0] == b[0] && a[1] == b[1] && a[2] == b[2] && a[3] == b[3];
    proof {
        if r {
            assert(a@ =~= b@);
        }
    }
    r
}

/// The distinct types of `rs`, in first-seen order.
pub open spec fn types_of(rs: Seq<Res>) -> Seq<Seq<u8>>
    decreases rs.len(),
{
    if rs.len() == 0 {
        Seq::empty()
    } else {
        let t = types_of(rs.drop_last());
        if t.contains(rs.last().tag@) {
            t
        } else {
            t.push(rs.last().tag@)
        }
    }
}

/// The indices `i < n` whose resource has type `t`, in increasing order.
pub open spec fn members(rs: Seq<Res>, t: Seq<u8>, n: int) -> Seq<int>
    decreases n,
{
    if n <= 0 {
        Seq::empty()
    } else {
        let p = members(rs, t, n - 1);
        if rs[n - 1].tag@ == t {
            p.push(n - 1)
        } else {
            p
        }
    }
}

/// The order resources are written in: grouped by type (types in first-seen
/// order), given order within a type. `k` is the number of types covered.
pub open spec fn order_upto(rs: Seq<Res>, k: int) -> Seq<int>
    decreases k,
{
    if k <= 0 {
        Seq::empty()
    } else {
        order_upto(rs, k - 1) + members(rs, types_of(rs)[k - 1], rs.len() as int)
    }
}

/// The full write order.
pub open spec fn order_of(rs: Seq<Res>) -> Seq<int> {
    order_upto(rs, types_of(rs).len() as int)
}

/// One data-section entry: the body length (truncated to 32 bits), then the body.
pub open spec fn chunk(r: Res) -> Seq<u8> {
    be32_bytes(r.data@.len() as int % 0x1_0000_0000) + r.data@
}

/// The data section holding the first `k` resources of `ord`.
pub open spec fn data_upto(rs: Seq<Res>, ord: Seq<int>, k: int) -> Seq<u8>
    decreases k,
{
    if k <= 0 {
        Seq::empty()
    } else {
        data_upto(rs, ord, k - 1) + chunk(rs[ord[k - 1]])
    }
}

/// One reference-list entry: id, no name, no attributes, 3-byte data offset
/// `d`, reserved handle.
pub open spec fn ref_entry(id: i16, d: int) -> Seq<u8> {
    be16_bytes(id as int % 0x10000) + seq![0xFFu8, 0xFFu8, 0u8] + seq![
        ((d / 0x10000) % 256) as u8,
        ((d / 256) % 256) as u8,
        (d % 256) as u8,
    ] + seq![0u8, 0u8, 0u8, 0u8]
}

/// The reference entries for the first `k` resources of `ord`; each names the
/// offset of its data-section entry.
pub open spec fn refs_upto(rs: Seq<Res>, ord: Seq<int>, k: int) -> Seq<u8>
    decreases k,
{
    if k <= 0 {
        Seq::empty()
    } else {
        refs_upto(rs, ord, k - 1) + ref_entry(rs[ord[k - 1]].id, data_upto(rs, ord, k - 1).len() as int)
    }
}

/// The 16-bit value a (possibly negative or large) count is written as.
pub open spec fn wrap16(x: int) -> int {
    x % 0x10000
}

/// One type-list entry for the `k`-th type: tag, count - 1, offset of its
/// reference list from the start of the type list.
pub open spec fn type_entry(rs: Seq<Res>, k: int) -> Seq<u8> {
    let types = types_of(rs);
    types[k] + be16_bytes(wrap16(members(rs, types[k], rs.len() as int).len() - 1))
        + be16_bytes(wrap16(2 + 8 * types.len() as int + 12 * order_upto(rs, k).len() as int))
}

/// The type entries for the first `k` types.
pub open spec fn type_entries_upto(rs: Seq<Res>, k: int) -> Seq<u8>
    decreases k,
{
    if k <= 0 {
        Seq::empty()
    } else {
        type_entries_upto(rs, k - 1) + type_entry(rs, k - 1)
    }
}

/// The type list followed by every reference list.
pub open spec fn type_list(rs: Seq<Res>) -> Seq<u8> {
    let types = types_of(rs);
    let ord = order_of(rs);
    be16_bytes(wrap16(types.len() - 1)) + type_entries_upto(rs, types.len() as int)
        + refs_upto(rs, ord, ord.len() as int)
}

/// The resource map: reserved header copy, type-list offset, name-list offset,
/// then the type list.
pub open spec fn map_of(rs: Seq<Res>) -> Seq<u8> {
    zeros(24) + be16_bytes(28) + be16_bytes(wrap16(28 + type_list(rs).len() as int)) + type_list(rs)
}

/// The data section.
pub open spec fn data_of(rs: Seq<Res>) -> Seq<u8> {
    let ord = order_of(rs);
    data_upto(rs, ord, ord.len() as int)
}

/// The whole fork: header (data offset, map offset, data length, map length),
/// padding to 256 bytes, data section, map.
pub open spec fn fork_of(rs: Seq<Res>) -> Seq<u8> {
    let d = data_of(rs).len() as int;
    let m = map_of(rs).len() as int;
    be32_bytes(256) + be32_bytes((256 + d) % 0x1_0000_0000) + be32_bytes(d % 0x1_0000_0000)
        + be32_bytes(m % 0x1_0000_0000) + zeros(240) + data_of(rs) + map_of(rs)
}

/// The total number of bytes the fork occupies, bounded for arithmetic.
pub open spec fn fits_in_memory(rs: Seq<Res>) -> bool {
    &&& data_of(rs).len() + 20 * rs.len() + 0x1000 <= usize::MAX
}

} // verus!

verus! {

/// The views of a list of types.
pub open spec fn tag_views(ts: Seq<OsType>) -> Seq<Seq<u8>> {
    ts.map_values(|t: OsType| t@)
}

/// A list of indices as integers.
pub open spec fn as_ints(v: Seq<usize>) -> Seq<int> {
    v.map_values(|x: usize| x as int)
}

/// The number of resources among the first `m` of type `t`.
pub open spec fn count_of(rs: Seq<Res>, t: Seq<u8>, m: int) -> int {
    members(rs, t, m).len() as int
}

/// Sum of the per-type counts over `ts`.
pub open spec fn sum_counts(rs: Seq<Res>, ts: Seq<Seq<u8>>, m: int) -> int
    decreases ts.len(),
{
    if ts.len() == 0 {
        0
    } else {
        sum_counts(rs, ts.drop_last(), m) + count_of(rs, ts.last(), m)
    }
}

/// Every member index is in range and members are strictly increasing.
pub proof fn lemma_members_bounds(rs: Seq<Res>, t: Seq<u8>, m: int)
    requires
        0 <= m <= rs.len(),
    ensures
        members(rs, t, m).len() <= m,
        forall|j: int| 0 <= j < members(rs, t, m).len() ==> 0 <= #[trigger] members(rs, t, m)[j] < m,
        forall|j: int| 0 <= j < members(rs, t, m).len() ==> rs[#[trigger] members(rs, t, m)[j]].tag@ == t,
    decreases m,
{
    if m > 0 {
        lemma_members_bounds(rs, t, m - 1);
    }
}

/// A type that does not occur among the first `m` resources has no members there.
pub proof fn lemma_members_empty(rs: Seq<Res>, t: Seq<u8>, m: int)
    requires
        0 <= m <= rs.len(),
        forall|i: int| 0 <= i < m ==> rs[i].tag@ != t,
    ensures
        members(rs, t, m).len() == 0,
    decreases m,
{
    if m > 0 {
        lemma_members_empty(rs, t, m - 1);
    }
}

/// The types of a prefix are exactly the tags occurring in it, without repeats.
pub proof fn lemma_types_of_prefix(rs: Seq<Res>, m: int)
    requires
        0 <= m <= rs.len(),
    ensures
        types_of(rs.take(m)).no_duplicates(),
        forall|i: int| 0 <= i < m ==> types_of(rs.take(m)).contains(#[trigger] rs[i].tag@),
        forall|t: Seq<u8>| types_of(rs.take(m)).contains(t) ==> exists|i: int| 0 <= i < m && rs[i].tag@ == t,
        sum_counts(rs, types_of(rs.take(m)), m) == m,
    decreases m,
{
    if m > 0 {
        lemma_types_of_prefix(rs, m - 1);
        let p = rs.take(m);
        assert(p.drop_last() =~= rs.take(m - 1));
        let prev = types_of(rs.take(m - 1));
        let x = rs[m - 1].tag@;
        lemma_sum_counts_step(rs, prev, m - 1);
        if prev.contains(x) {
            assert(types_of(p) == prev);
            assert forall|i: int| 0 <= i < m implies types_of(p).contains(#[trigger] rs[i].tag@) by {
                if i < m - 1 {
                    assert(prev.contains(rs[i].tag@));
                }
            }
            lemma_sum_counts_contains(rs, prev, m - 1, x);
        } else {
            assert(types_of(p) == prev.push(x));
            assert forall|i: int| 0 <= i < m implies types_of(p).contains(#[trigger] rs[i].tag@) by {
                if i < m - 1 {
                    assert(prev.contains(rs[i].tag@));
                    let k = choose|k: int| 0 <= k < prev.len() && prev[k] == rs[i].tag@;
                    assert(prev.push(x)[k] == rs[i].tag@);
                } else {
                    assert(prev.push(x)[prev.len() as int] == x);
                }
            }
            assert forall|t: Seq<u8>| types_of(p).contains(t) implies exists|i: int| 0 <= i < m && rs[i].tag@ == t by {
                let k = choose|k: int| 0 <= k < prev.push(x).len() && prev.push(x)[k] == t;
                if k < prev.len() {
                    assert(prev.contains(t));
                } else {
                    assert(rs[m - 1].tag@ == t);
                }
            }
            assert forall|i: int| 0 <= i < m - 1 implies rs[i].tag@ != x by {
                assert(prev.contains(rs[i].tag@));
            }
            lemma_members_empty(rs, x, m - 1);
            lemma_sum_counts_absent(rs, prev, m - 1, x);
            assert(prev.push(x).drop_last() =~= prev);
        }
    }
}

/// Extending the prefix by one resource adds one to exactly the matching count.
pub proof fn lemma_sum_counts_step(rs: Seq<Res>, ts: Seq<Seq<u8>>, m: int)
    requires
        0 <= m < rs.len(),
    ensures
        ts.contains(rs[m].tag@) && ts.no_duplicates() ==> sum_counts(rs, ts, m + 1) == sum_counts(rs, ts, m) + 1,
        !ts.contains(rs[m].tag@) ==> sum_counts(rs, ts, m + 1) == sum_counts(rs, ts, m),
    decreases ts.len(),
{
    if ts.len() > 0 {
        let init = ts.drop_last();
        lemma_sum_counts_step(rs, init, m);
        if ts.no_duplicates() {
            assert(init.no_duplicates());
            if ts.last() == rs[m].tag@ {
                assert(!init.contains(rs[m].tag@));
            }
        }
        if ts.contains(rs[m].tag@) && ts.last() != rs[m].tag@ {
            let k = choose|k: int| 0 <= k < ts.len() && ts[k] == rs[m].tag@;
            assert(init[k] == rs[m].tag@);
        }
        if init.contains(rs[m].tag@) {
            let k = choose|k: int| 0 <= k < init.len() && init[k] == rs[m].tag@;
            assert(ts[k] == rs[m].tag@);
        }
    }
}

/// Helper for the case where the new tag is already listed.
pub proof fn lemma_sum_counts_contains(rs: Seq<Res>, ts: Seq<Seq<u8>>, m: int, x: Seq<u8>)
    requires
        0 <= m < rs.len(),
        x == rs[m].tag@,
        ts.contains(x),
        ts.no_duplicates(),
    ensures
        sum_counts(rs, ts, m + 1) == sum_counts(rs, ts, m) + 1,
{
    lemma_sum_counts_step(rs, ts, m);
}

/// Helper for the case where the new tag is new.
pub proof fn lemma_sum_counts_absent(rs: Seq<Res>, ts: Seq<Seq<u8>>, m: int, x: Seq<u8>)
    requires
        0 <= m < rs.len(),
        x == rs[m].tag@,
        !ts.contains(x),
        members(rs, x, m).len() == 0,
    ensures
        sum_counts(rs, ts.push(x), m + 1) == sum_counts(rs, ts, m) + 1,
{
    lemma_sum_counts_step(rs, ts, m);
    assert(ts.push(x).drop_last() =~= ts);
}

/// The write order covers each resource: its length is the number of resources.
pub proof fn lemma_order_len(rs: Seq<Res>, k: int)
    requires
        0 <= k <= types_of(rs).len(),
    ensures
        order_upto(rs, k).len() == sum_counts(rs, types_of(rs).take(k), rs.len() as int),
        forall|j: int| 0 <= j < order_upto(rs, k).len() ==> 0 <= #[trigger] order_upto(rs, k)[j] < rs.len(),
    decreases k,
{
    if k > 0 {
        lemma_order_len(rs, k - 1);
        let t = types_of(rs)[k - 1];
        lemma_members_bounds(rs, t, rs.len() as int);
        assert(types_of(rs).take(k).drop_last() =~= types_of(rs).take(k - 1));
        let a = order_upto(rs, k - 1);
        let b = members(rs, t, rs.len() as int);
        assert forall|j: int| 0 <= j < (a + b).len() implies 0 <= #[trigger] (a + b)[j] < rs.len() by {
            if j >= a.len() {
                assert((a + b)[j] == b[j - a.len()]);
            }
        }
    }
}

/// The full order has one entry per resource.
pub proof fn lemma_order_of_len(rs: Seq<Res>)
    ensures
        order_of(rs).len() == rs.len(),
        forall|j: int| 0 <= j < order_of(rs).len() ==> 0 <= #[trigger] order_of(rs)[j] < rs.len(),
{
    let n = types_of(rs).len() as int;
    lemma_order_len(rs, n);
    lemma_types_of_prefix(rs, rs.len() as int);
    assert(rs.take(rs.len() as int) =~= rs);
    assert(types_of(rs).take(n) =~= types_of(rs));
}

/// The data section grows monotonically with the number of entries.
pub proof fn lemma_data_upto_mono(rs: Seq<Res>, ord: Seq<int>, j: int, k: int)
    requires
        0 <= j <= k,
    ensures
        data_upto(rs, ord, j).len() <= data_upto(rs, ord, k).len(),
        data_upto(rs, ord, j).is_prefix_of(data_upto(rs, ord, k)),
    decreases k,
{
    if j < k {
        lemma_data_upto_mono(rs, ord, j, k - 1);
    }
}

/// The types list has no more entries than there are resources.
pub proof fn lemma_types_len(rs: Seq<Res>)
    ensures
        types_of(rs).len() <= rs.len(),
    decreases rs.len(),
{
    if rs.len() > 0 {
        lemma_types_len(rs.drop_last());
    }
}

} // verus!

verus! {

/// A 16-bit truncation of a small count, as the map writes it.
fn wrap_u16(x: usize) -> (r: u16)
    ensures
        r as int == x as int % 0x10000,
{
    (x % 0x10000) as u16
}

/// Build a complete classic resource fork holding `resources`. Types are
/// emitted in first-seen order; within a type, resources keep their given
/// order. An empty input yields a valid fork with an empty type list.
pub fn build(resources: &[Res]) -> (out: Vec<u8>)
    requires
        fits_in_memory(resources@),
    ensures
        out@ == fork_of(resources@),
{
    let ghost rs = resources@;
    let n = resources.len();
    // Distinct types in first-seen order.
    let mut types: Vec<OsType> = Vec::new();
    let mut i: usize = 0;
    while i < n
        invariant
            i <= n,
            n == rs.len(),
            rs == resources@,
            tag_views(types@) == types_of(rs.take(i as int)),
        decreases n - i,
    {
        let mut found = false;
        let mut j: usize = 0;
        while j < types.len()
            invariant
                j <= types.len(),
                i < n,
                n == rs.len(),
                rs == resources@,
                found == tag_views(types@).take(j as int).contains(resources@[i as int].tag@),
            decreases types.len() - j,
        {
            let s = same_tag(&types[j], &resources[i].tag);
            proof {
                let tv = tag_views(types@);
                assert(tv[j as int] == types@[j as int]@);
                assert(tv.take(j as int + 1) =~= tv.take(j as int).push(tv[j as int]));
                let x = resources@[i as int].tag@;
                if tv.take(j as int).contains(x) {
                    let k = choose|k: int| 0 <= k < j && #[trigger] tv.take(j as int)[k] == x;
                    assert(tv.take(j as int + 1)[k] == x);
                    assert(tv.take(j as int + 1).contains(x));
                }
                if s {
                    assert(tv.take(j as int + 1)[j as int] == x);
                    assert(tv.take(j as int + 1).contains(x));
                }
                if tv.take(j as int + 1).contains(resources@[i as int].tag@) {
                    let k = choose|k: int| 0 <= k <= j && #[trigger] tv.take(j as int + 1)[k] == resources@[i as int].tag@;
                    if k < j {
                        assert(tv.take(j as int)[k] == resources@[i as int].tag@);
                        assert(tv.take(j as int).contains(x));
                    } else {
                        assert(s);
                    }
                }
            }
            found = found || s;
            j = j + 1;
        }
        proof {
            assert(tag_views(types@).take(types@.len() as int) =~= tag_views(types@));
            assert(rs.take(i as int + 1).drop_last() =~= rs.take(i as int));
        }
        if !found {
            types.push(resources[i].tag);
            proof {
                assert(tag_views(types@) =~= types_of(rs.take(i as int)).push(resources@[i as int].tag@));
            }
        }
        i = i + 1;
    }
    proof {
        assert(rs.take(n as int) =~= rs);
        lemma_types_len(rs);
        lemma_order_of_len(rs);
    }
    let ghost tys = types_of(rs);
    let nt = types.len();
    // Global order = grouped by type; counts per type.
    let mut order: Vec<usize> = Vec::new();
    let mut counts: Vec<usize> = Vec::new();
    let mut ti: usize = 0;
    while ti < nt
        invariant
            ti <= nt,
            nt == tys.len(),
            n == rs.len(),
            rs == resources@,
            tys == types_of(rs),
            tag_views(types@) == tys,
            as_ints(order@) == order_upto(rs, ti as int),
            counts@.len() == ti,
            forall|k: int| 0 <= k < ti ==> counts@[k] == members(rs, tys[k], n as int).len(),
            fits_in_memory(rs),
        decreases nt - ti,
    {
        let before = order.len();
        let mut i: usize = 0;
        while i < n
            invariant
                i <= n,
                ti < nt,
                nt == tys.len(),
                n == rs.len(),
                rs == resources@,
                tys == types_of(rs),
                tag_views(types@) == tys,
                before as int == order_upto(rs, ti as int).len(),
                as_ints(order@) == order_upto(rs, ti as int) + members(rs, tys[ti as int], i as int),
                fits_in_memory(rs),
            decreases n - i,
        {
            proof {
                lemma_order_len(rs, ti as int);
                lemma_members_bounds(rs, tys[ti as int], i as int);
                lemma_types_of_prefix(rs, n as int);
                assert(rs.take(n as int) =~= rs);
                lemma_order_len(rs, ti as int + 1);
                assert(types_of(rs).take(ti as int + 1).drop_last() =~= types_of(rs).take(ti as int));
            }
            assert(tag_views(types@)[ti as int] == types@[ti as int]@);
            if same_tag(&resources[i].tag, &types[ti]) {
                let ghost old_order = order@;
                order.push(i);
                proof {
                    assert(as_ints(order@) =~= as_ints(old_order).push(i as int));
                    assert(as_ints(order@) =~= order_upto(rs, ti as int) + members(rs, tys[ti as int], i as int + 1));
                }
            } else {
                proof {
                    assert(members(rs, tys[ti as int], i as int + 1) == members(rs, tys[ti as int], i as int));
                }
            }
            i = i + 1;
        }
        proof {
            lemma_members_bounds(rs, tys[ti as int], n as int);
        }
        counts.push(order.len() - before);
        ti = ti + 1;
        proof {
            assert(as_ints(order@) =~= order_upto(rs, ti as int));
        }
    }
    let ghost ord = order_of(rs);
    proof {
        assert(as_ints(order@) == ord);
    }
    // Data section: [u32 length][body] per resource, in write order; remember
    // each entry's offset from the start of the data section.
    let mut data: Vec<u8> = Vec::new();
    let mut offs: Vec<usize> = Vec::new();
    let mut p: usize = 0;
    while p < order.len()
        invariant
            p <= order.len(),
            order.len() == n,
            n == rs.len(),
            rs == resources@,
            as_ints(order@) == ord,
            ord == order_of(rs),
            forall|j: int| 0 <= j < ord.len() ==> 0 <= #[trigger] ord[j] < rs.len(),
            data@ == data_upto(rs, ord, p as int),
            offs@.len() == p,
            forall|q: int| 0 <= q < p ==> offs@[q] == data_upto(rs, ord, q).len(),
            fits_in_memory(rs),
        decreases order.len() - p,
    {
        let i = order[p];
        assert(ord[p as int] == i as int);
        proof {
            lemma_data_upto_mono(rs, ord, p as int + 1, ord.len() as int);
        }
        offs.push(data.len());
        let len = resources[i].data.len();
        let l32 = len as u32;
        assert(l32 as int == len as int % 0x1_0000_0000) by (bit_vector)
            requires
                l32 == len as u32;
        push_be32(&mut data, l32);
        push_all(&mut data, resources[i].data);
        p = p + 1;
        proof {
            assert(data@ =~= data_upto(rs, ord, p as int));
        }
    }
    // Type list: [u16 nTypes-1] then one 8-byte entry per type; the reference
    // lists follow.
    let mut tl: Vec<u8> = Vec::new();
    let nt_m1: u16 = if nt == 0 { 0xFFFF } else { wrap_u16(nt - 1) };
    push_be16(&mut tl, nt_m1);
    let ghost hdr = be16_bytes(wrap16(tys.len() - 1));
    assert(tl@ == hdr);
    proof {
        assert forall|q: int| 0 <= q <= nt implies #[trigger] order_upto(rs, q).len() <= n by {
            lemma_sum_prefix_le(rs, tys, q, n as int);
        }
        assert forall|q: int| 0 <= q < nt implies order_upto(rs, q + 1).len() == order_upto(rs, q).len() + counts@[q] by {
            assert(order_upto(rs, q + 1) == order_upto(rs, q) + members(rs, tys[q], n as int));
        }
    }
    let mut ref_off: usize = 2 + nt * 8;
    let mut k: usize = 0;
    while k < nt
        invariant
            k <= nt,
            nt == tys.len(),
            nt <= n,
            n == rs.len(),
            rs == resources@,
            tys == types_of(rs),
            tag_views(types@) == tys,
            counts@.len() == nt,
            forall|q: int| 0 <= q < nt ==> counts@[q] == members(rs, tys[q], n as int).len(),
            ref_off == 2 + 8 * nt + 12 * order_upto(rs, k as int).len(),
            tl@ == hdr + type_entries_upto(rs, k as int),
            tl@.len() == 2 + 8 * k,
            forall|q: int| 0 <= q <= nt ==> #[trigger] order_upto(rs, q).len() <= n,
            forall|q: int| 0 <= q < nt ==> order_upto(rs, q + 1).len() == order_upto(rs, q).len() + counts@[q],
            fits_in_memory(rs),
        decreases nt - k,
    {
        assert(order_upto(rs, k as int + 1).len() <= n);
        assert(tag_views(types@)[k as int] == types@[k as int]@);
        let t = types[k];
        push_all(&mut tl, &t);
        let c = counts[k];
        let c_m1: u16 = if c == 0 { 0xFFFF } else { wrap_u16(c - 1) };
        push_be16(&mut tl, c_m1);
        push_be16(&mut tl, wrap_u16(ref_off));
        ref_off = ref_off + c * REF_ENTRY_LEN;
        proof {
            assert(t@ == tys[k as int]);
            assert(tl@ =~= hdr + type_entries_upto(rs, k as int + 1));
        }
        k = k + 1;
    }
    // Reference lists, grouped by type in the same order as the data section.
    let ghost tl_types = tl@;
    let mut p: usize = 0;
    while p < order.len()
        invariant
            p <= order.len(),
            order.len() == n,
            n == rs.len(),
            rs == resources@,
            as_ints(order@) == ord,
            forall|j: int| 0 <= j < ord.len() ==> 0 <= #[trigger] ord[j] < rs.len(),
            offs@.len() == n,
            forall|q: int| 0 <= q < n ==> offs@[q] == data_upto(rs, ord, q).len(),
            tl@ == tl_types + refs_upto(rs, ord, p as int),
            tl_types.len() == 2 + 8 * nt,
            nt <= n,
            fits_in_memory(rs),
        decreases order.len() - p,
    {
        let i = order[p];
        assert(ord[p as int] == i as int);
        let id = resources[i].id;
        let idu = id as u16;
        assert(idu as int == id as int % 0x10000) by (bit_vector)
            requires
                idu == id as u16;
        push_be16(&mut tl, idu);
        tl.push(0xFFu8);
        tl.push(0xFFu8);
        tl.push(0u8);
        let d = offs[p];
        tl.push(((d / 0x10000) % 256) as u8);
        tl.push(((d / 256) % 256) as u8);
        tl.push((d % 256) as u8);
        tl.push(0u8);
        tl.push(0u8);
        tl.push(0u8);
        tl.push(0u8);
        p = p + 1;
        proof {
            assert(tl@ =~= tl_types + refs_upto(rs, ord, p as int));
        }
    }
    proof {
        lemma_refs_len(rs, ord, n as int);
    }
    assert(tl@ =~= type_list(rs));
    let name_list_off = wrap_u16(28 + tl.len());
    let mut map: Vec<u8> = Vec::new();
    push_zeros(&mut map, 24);
    push_be16(&mut map, TYPE_LIST_OFF);
    push_be16(&mut map, name_list_off);
    push_all(&mut map, tl.as_slice());
    assert(map@ =~= map_of(rs));
    let data_len = data.len();
    assert(data@ =~= data_of(rs));
    let map_off = DATA_OFF + data_len;
    let mo32 = map_off as u32;
    let dl32 = data_len as u32;
    let ml = map.len();
    let ml32 = ml as u32;
    assert(mo32 as int == map_off as int % 0x1_0000_0000 && dl32 as int == data_len as int % 0x1_0000_0000
        && ml32 as int == ml as int % 0x1_0000_0000) by (bit_vector)
        requires
            mo32 == map_off as u32,
            dl32 == data_len as u32,
            ml32 == ml as u32;
    let mut out: Vec<u8> = Vec::new();
    push_be32(&mut out, DATA_OFF as u32);
    push_be32(&mut out, mo32);
    push_be32(&mut out, dl32);
    push_be32(&mut out, ml32);
    push_zeros(&mut out, DATA_OFF - 16);
    push_all(&mut out, data.as_slice());
    push_all(&mut out, map.as_slice());
    assert(out@ =~= fork_of(rs));
    out
}

/// A prefix of the per-type counts sums to no more than the resource count.
pub proof fn lemma_sum_prefix_le(rs: Seq<Res>, tys: Seq<Seq<u8>>, k: int, n: int)
    requires
        tys == types_of(rs),
        0 <= k <= tys.len(),
        n == rs.len(),
    ensures
        order_upto(rs, k).len() <= n,
    decreases tys.len() - k,
{
    lemma_order_len(rs, k);
    if k < tys.len() {
        lemma_sum_prefix_le(rs, tys, k + 1, n);
    } else {
        lemma_order_of_len(rs);
    }
}

/// Each reference entry is twelve bytes.
pub proof fn lemma_refs_len(rs: Seq<Res>, ord: Seq<int>, k: int)
    requires
        0 <= k,
    ensures
        refs_upto(rs, ord, k).len() == 12 * k,
    decreases k,
{
    if k > 0 {
        lemma_refs_len(rs, ord, k - 1);
    }
}

} // verus!
