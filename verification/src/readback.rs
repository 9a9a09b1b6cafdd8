//! Reading back a written resource fork: the map reader returns, for each
//! type, exactly the resources the writer was given, in their order.

use crate::bytes::{as_i16, be16_at, be16_bytes, be24_at, be32_at, be32_bytes, zeros};
use crate::icons::{be16_opt, be24_opt, be32_opt, first_with_id, ref_item, ref_items, resources_in, type_items, types_items};
use crate::resfork::{
    chunk, data_of, data_upto, fork_of, lemma_data_upto_mono, lemma_members_bounds, lemma_members_empty,
    lemma_order_len, lemma_order_of_len, lemma_refs_len, lemma_sum_prefix_le, lemma_types_len,
    lemma_types_of_prefix, map_of, members, order_of, order_upto, ref_entry, refs_upto, type_entries_upto,
    type_entry, type_list, types_of, wrap16, Res,
};
use vstd::prelude::*;

verus! {

/// The resources at indices `m` of `rs`, as `(id, body)`.
pub open spec fn items_at(rs: Seq<Res>, m: Seq<int>) -> Seq<(i16, Seq<u8>)> {
    Seq::new(m.len(), |j: int| (rs[m[j]].id, rs[m[j]].data@))
}

/// The resources of type `t`, in their given order, as `(id, body)`.
pub open spec fn written_of_type(rs: Seq<Res>, t: Seq<u8>) -> Seq<(i16, Seq<u8>)> {
    items_at(rs, members(rs, t, rs.len() as int))
}

/// Every offset and count of the fork fits its field: data offsets in 24
/// bits, the type list and reference lists within 16-bit offsets.
pub open spec fn fork_fields_fit(rs: Seq<Res>) -> bool {
    &&& data_of(rs).len() < 0x100_0000
    &&& 28 + type_list(rs).len() < 0x10000
}

/// `x` sits in `f` at `off`.
pub open spec fn placed(f: Seq<u8>, off: int, x: Seq<u8>) -> bool {
    &&& 0 <= off
    &&& off + x.len() <= f.len()
    &&& forall|i: int| 0 <= i < x.len() ==> f[off + i] == #[trigger] x[i]
}

proof fn lemma_placed_reads(f: Seq<u8>, off: int, x: Seq<u8>, j: int)
    requires
        placed(f, off, x),
        0 <= j,
    ensures
        j + 2 <= x.len() ==> be16_at(f, off + j) == be16_at(x, j),
        j + 3 <= x.len() ==> be24_at(f, off + j) == be24_at(x, j),
        j + 4 <= x.len() ==> be32_at(f, off + j) == be32_at(x, j),
{
    if j + 2 <= x.len() {
        assert(f[off + j] == x[j]);
        assert(f[off + j + 1] == x[j + 1]);
    }
    if j + 3 <= x.len() {
        assert(f[off + j + 2] == x[j + 2]);
    }
    if j + 4 <= x.len() {
        assert(f[off + j + 3] == x[j + 3]);
    }
}

proof fn lemma_placed_sub(f: Seq<u8>, off: int, x: Seq<u8>, j: int, n: int)
    requires
        placed(f, off, x),
        0 <= j,
        0 <= n,
        j + n <= x.len(),
    ensures
        f.subrange(off + j, off + j + n) == x.subrange(j, j + n),
        placed(f, off + j, x.subrange(j, j + n)),
{
    let a = f.subrange(off + j, off + j + n);
    let b = x.subrange(j, j + n);
    assert forall|i: int| 0 <= i < n implies #[trigger] a[i] == b[i] by {
        assert(f[off + j + i] == x[j + i]);
    }
    assert(a =~= b);
    assert forall|i: int| 0 <= i < n implies f[off + j + i] == #[trigger] x.subrange(j, j + n)[i] by {
        assert(f[off + j + i] == x[j + i]);
    }
}

proof fn lemma_placed_concat(f: Seq<u8>, off: int, a: Seq<u8>, b: Seq<u8>)
    requires
        placed(f, off, a + b),
    ensures
        placed(f, off, a),
        placed(f, off + a.len(), b),
{
    assert forall|i: int| 0 <= i < a.len() implies f[off + i] == #[trigger] a[i] by {
        assert((a + b)[i] == a[i]);
    }
    assert forall|i: int| 0 <= i < b.len() implies f[off + a.len() + i] == #[trigger] b[i] by {
        assert((a + b)[a.len() + i] == b[i]);
    }
}

/// The 256-byte header of the fork of `rs`.
pub open spec fn fork_header(rs: Seq<Res>) -> Seq<u8> {
    let d = data_of(rs).len() as int;
    let m = map_of(rs).len() as int;
    be32_bytes(256) + be32_bytes((256 + d) % 0x1_0000_0000) + be32_bytes(d % 0x1_0000_0000) + be32_bytes(
        m % 0x1_0000_0000,
    ) + zeros(240)
}

/// The 28 bytes before the type list in the map of `rs`.
pub open spec fn map_header(rs: Seq<Res>) -> Seq<u8> {
    zeros(24) + be16_bytes(28) + be16_bytes(wrap16(28 + type_list(rs).len() as int))
}

proof fn lemma_header(rs: Seq<Res>)
    requires
        fork_fields_fit(rs),
    ensures
        fork_header(rs).len() == 256,
        be32_at(fork_header(rs), 0) == 256,
        be32_at(fork_header(rs), 4) == 256 + data_of(rs).len(),
{
    let d = data_of(rs).len() as int;
    let m = map_of(rs).len() as int;
    lemma_header_values(d, m);
}

#[verifier::spinoff_prover]
proof fn lemma_header_values(d: int, m: int)
    requires
        0 <= d < 0x100_0000,
        0 <= m,
    ensures
        ({
            let h = be32_bytes(256) + be32_bytes((256 + d) % 0x1_0000_0000) + be32_bytes(d % 0x1_0000_0000)
                + be32_bytes(m % 0x1_0000_0000) + zeros(240);
            &&& h.len() == 256
            &&& be32_at(h, 0) == 256
            &&& be32_at(h, 4) == 256 + d
        }),
{
    let a = be32_bytes(256);
    let b = be32_bytes(256 + d);
    let rest = be32_bytes(d % 0x1_0000_0000) + be32_bytes(m % 0x1_0000_0000) + zeros(240);
    assert((256 + d) % 0x1_0000_0000 == 256 + d);
    crate::bytes::lemma_be32_roundtrip(256);
    crate::bytes::lemma_be32_roundtrip(256 + d);
    let h = a + b + rest;
    assert(h == be32_bytes(256) + be32_bytes((256 + d) % 0x1_0000_0000) + be32_bytes(d % 0x1_0000_0000)
        + be32_bytes(m % 0x1_0000_0000) + zeros(240));
    assert(h[0] == a[0] && h[1] == a[1] && h[2] == a[2] && h[3] == a[3]);
    assert(h[4] == b[0] && h[5] == b[1] && h[6] == b[2] && h[7] == b[3]);
}

proof fn lemma_map_header(rs: Seq<Res>)
    ensures
        map_header(rs).len() == 28,
        be16_at(map_header(rs), 24) == 28,
        map_of(rs) == map_header(rs) + type_list(rs),
{
    let mh = map_header(rs);
    assert(mh[24] == 0 && mh[25] == 28);
    assert(map_of(rs) =~= mh + type_list(rs));
}

/// The layout of a written fork.
proof fn lemma_layout(rs: Seq<Res>)
    requires
        fork_fields_fit(rs),
    ensures
        ({
            let f = fork_of(rs);
            let d = data_of(rs);
            let tl = type_list(rs);
            &&& placed(f, 256, d)
            &&& placed(f, 256 + d.len() as int + 28, tl)
            &&& f.len() == 256 + d.len() as int + 28 + tl.len()
            &&& be32_at(f, 0) == 256
            &&& be32_at(f, 4) == 256 + d.len() as int
            &&& be16_at(f, 256 + d.len() as int + 24) == 28
        }),
{
    let f = fork_of(rs);
    let d = data_of(rs);
    let h = fork_header(rs);
    let mh = map_header(rs);
    let tl = type_list(rs);
    lemma_header(rs);
    lemma_map_header(rs);
    assert(f =~= h + d + (mh + tl));
    assert(placed(f, 0, h + d + (mh + tl)));
    lemma_placed_concat(f, 0, h + d, mh + tl);
    lemma_placed_concat(f, 0, h, d);
    lemma_placed_concat(f, 256 + d.len() as int, mh, tl);
    lemma_placed_reads(f, 0, h, 0);
    lemma_placed_reads(f, 0, h, 4);
    lemma_placed_reads(f, 256 + d.len() as int, mh, 24);
}


proof fn lemma_refs_prefix(rs: Seq<Res>, ord: Seq<int>, j: int, k: int)
    requires
        0 <= j <= k,
    ensures
        refs_upto(rs, ord, j).is_prefix_of(refs_upto(rs, ord, k)),
    decreases k,
{
    if j < k {
        lemma_refs_prefix(rs, ord, j, k - 1);
    }
}

proof fn lemma_order_prefix(rs: Seq<Res>, j: int, k: int)
    requires
        0 <= j <= k,
    ensures
        order_upto(rs, j).is_prefix_of(order_upto(rs, k)),
    decreases k,
{
    if j < k {
        lemma_order_prefix(rs, j, k - 1);
    }
}

/// Reading an id and a 24-bit offset back from a reference entry.
proof fn lemma_ref_entry_reads(id: i16, d: int)
    requires
        0 <= d < 0x100_0000,
    ensures
        ref_entry(id, d).len() == 12,
        0 <= be16_at(ref_entry(id, d), 0) < 0x10000,
        as_i16(be16_at(ref_entry(id, d), 0)) == id,
        be24_at(ref_entry(id, d), 5) == d,
{
    let e = ref_entry(id, d);
    let v = id as int % 0x10000;
    assert(e[0] == ((v / 256) % 256) as u8);
    assert(e[1] == (v % 256) as u8);
    assert(be16_at(e, 0) == v);
    assert(e[5] == ((d / 0x10000) % 256) as u8);
    assert(e[6] == ((d / 256) % 256) as u8);
    assert(e[7] == (d % 256) as u8);
    let x = d as u32;
    assert(((x / 0x10000) % 256) * 0x10000 + ((x / 256) % 256) * 256 + x % 256 == x) by (bit_vector)
        requires
            x < 0x100_0000;
}

/// The `p`-th reference entry sits 12 `p` bytes into the reference lists.
proof fn lemma_ref_placed(rs: Seq<Res>, ord: Seq<int>, p: int, n: int)
    requires
        0 <= p < n,
    ensures
        placed(refs_upto(rs, ord, n), 12 * p, ref_entry(rs[ord[p]].id, data_upto(rs, ord, p).len() as int)),
{
    let e = ref_entry(rs[ord[p]].id, data_upto(rs, ord, p).len() as int);
    let a = refs_upto(rs, ord, p);
    let all = refs_upto(rs, ord, n);
    lemma_refs_prefix(rs, ord, p + 1, n);
    lemma_refs_len(rs, ord, p);
    assert(refs_upto(rs, ord, p + 1) == a + e);
    assert forall|i: int| 0 <= i < e.len() implies all[12 * p + i] == #[trigger] e[i] by {
        assert((a + e)[a.len() + i] == e[i]);
    }
}

/// The `p`-th data entry sits at the length of the entries before it.
proof fn lemma_chunk_placed(rs: Seq<Res>, ord: Seq<int>, p: int, n: int)
    requires
        0 <= p < n,
    ensures
        placed(data_upto(rs, ord, n), data_upto(rs, ord, p).len() as int, chunk(rs[ord[p]])),
{
    let c = chunk(rs[ord[p]]);
    let a = data_upto(rs, ord, p);
    let all = data_upto(rs, ord, n);
    lemma_data_upto_mono(rs, ord, p + 1, n);
    assert(data_upto(rs, ord, p + 1) == a + c);
    assert forall|i: int| 0 <= i < c.len() implies all[a.len() + i] == #[trigger] c[i] by {
        assert((a + c)[a.len() + i] == c[i]);
    }
}

proof fn lemma_types_tags(rs: Seq<Res>)
    ensures
        types_of(rs).no_duplicates(),
        forall|k: int| 0 <= k < types_of(rs).len() ==> (#[trigger] types_of(rs)[k]).len() == 4,
        forall|i: int| 0 <= i < rs.len() ==> types_of(rs).contains(#[trigger] rs[i].tag@),
{
    let n = rs.len() as int;
    lemma_types_of_prefix(rs, n);
    assert(rs.take(n) =~= rs);
    assert forall|k: int| 0 <= k < types_of(rs).len() implies (#[trigger] types_of(rs)[k]).len() == 4 by {
        let t = types_of(rs)[k];
        assert(types_of(rs).contains(t));
        let i = choose|i: int| 0 <= i < n && rs[i].tag@ == t;
        assert(rs[i].tag@.len() == 4);
    }
}

proof fn lemma_type_entries_len(rs: Seq<Res>, k: int)
    requires
        0 <= k <= types_of(rs).len(),
    ensures
        type_entries_upto(rs, k).len() == 8 * k,
    decreases k,
{
    if k > 0 {
        lemma_type_entries_len(rs, k - 1);
        lemma_types_tags(rs);
        assert(types_of(rs)[k - 1].len() == 4);
    }
}

proof fn lemma_type_entries_prefix(rs: Seq<Res>, j: int, k: int)
    requires
        0 <= j <= k,
    ensures
        type_entries_upto(rs, j).is_prefix_of(type_entries_upto(rs, k)),
    decreases k,
{
    if j < k {
        lemma_type_entries_prefix(rs, j, k - 1);
    }
}

/// The `k`-th type entry sits 8 `k` bytes into the type entries.
proof fn lemma_type_entry_placed(rs: Seq<Res>, k: int)
    requires
        0 <= k < types_of(rs).len(),
    ensures
        placed(type_entries_upto(rs, types_of(rs).len() as int), 8 * k, type_entry(rs, k)),
{
    let nt = types_of(rs).len() as int;
    let e = type_entry(rs, k);
    let a = type_entries_upto(rs, k);
    let all = type_entries_upto(rs, nt);
    lemma_type_entries_prefix(rs, k + 1, nt);
    lemma_type_entries_len(rs, k);
    assert(type_entries_upto(rs, k + 1) == a + e);
    assert forall|i: int| 0 <= i < e.len() implies all[8 * k + i] == #[trigger] e[i] by {
        assert((a + e)[a.len() + i] == e[i]);
    }
}

/// Where the parts of a written fork of `rs` sit in `f`: the data section,
/// the type-list header, the type entries and the reference lists; with the
/// header fields and the bounds the reader relies on.
#[verifier::opaque]
spec fn parts_at(f: Seq<u8>, rs: Seq<Res>) -> bool {
    let d = data_of(rs);
    let nt = types_of(rs).len() as int;
    let ord = order_of(rs);
    let tla = 256 + d.len() as int + 28;
    &&& placed(f, 256, d)
    &&& placed(f, tla + 2, type_entries_upto(rs, nt))
    &&& placed(f, tla + 2 + 8 * nt, refs_upto(rs, ord, rs.len() as int))
    &&& f.len() == tla + 2 + 8 * nt + 12 * rs.len()
    &&& be32_at(f, 0) == 256
    &&& be32_at(f, 4) == 256 + d.len() as int
    &&& be16_at(f, 256 + d.len() as int + 24) == 28
    &&& be16_at(f, tla) == wrap16(nt - 1)
    &&& d.len() < 0x100_0000
    &&& 2 + 8 * nt + 12 * rs.len() < 0x10000
}

proof fn lemma_fork_parts(rs: Seq<Res>)
    requires
        fork_fields_fit(rs),
    ensures
        parts_at(fork_of(rs), rs),
{
    reveal(parts_at);
    let f = fork_of(rs);
    let d = data_of(rs);
    let nt = types_of(rs).len() as int;
    let ord = order_of(rs);
    let tla = 256 + d.len() as int + 28;
    let h = be16_bytes(wrap16(nt - 1));
    let te = type_entries_upto(rs, nt);
    let rf = refs_upto(rs, ord, ord.len() as int);
    lemma_layout(rs);
    lemma_order_of_len(rs);
    lemma_type_entries_len(rs, nt);
    lemma_refs_len(rs, ord, ord.len() as int);
    assert(type_list(rs) == h + te + rf);
    lemma_placed_concat(f, tla, h + te, rf);
    lemma_placed_concat(f, tla, h, te);
    lemma_placed_reads(f, tla, h, 0);
    crate::bytes::lemma_be16_roundtrip(wrap16(nt - 1));
}

/// A reference entry and its data entry, placed, read back as one item.
proof fn lemma_ref_item_read(f: Seq<u8>, base: int, p: int, id: i16, dp: int, body: Seq<u8>)
    requires
        0 <= dp < 0x100_0000,
        body.len() < 0x1_0000_0000,
        placed(f, base + 12 * p, ref_entry(id, dp)),
        placed(f, 256 + dp, be32_bytes(body.len() as int) + body),
    ensures
        ref_item(f, 256, base, p) == seq![(id, body)],
{
    let e = ref_entry(id, dp);
    let re = base + 12 * p;
    lemma_ref_entry_reads(id, dp);
    lemma_placed_reads(f, re, e, 0);
    lemma_placed_reads(f, re, e, 5);
    let len = body.len() as int;
    let c = be32_bytes(len) + body;
    let abs = 256 + dp;
    lemma_placed_reads(f, abs, c, 0);
    crate::bytes::lemma_be32_roundtrip(len);
    assert(c[0] == be32_bytes(len)[0] && c[1] == be32_bytes(len)[1] && c[2] == be32_bytes(len)[2]
        && c[3] == be32_bytes(len)[3]);
    assert(be32_at(c, 0) == len);
    lemma_placed_sub(f, abs, c, 4, len);
    assert(c.subrange(4, 4 + len) =~= body);
    assert(as_i16(be16_at(f, re)) as i16 == id);
}

/// A resource whose data and reference lists are placed reads back from its
/// reference entry.
#[verifier::spinoff_prover]
#[verifier::rlimit(30)]
proof fn lemma_ref_item_in(f: Seq<u8>, rs: Seq<Res>, ord: Seq<int>, n: int, base: int, p: int)
    requires
        0 <= p < n,
        placed(f, 256, data_upto(rs, ord, n)),
        data_upto(rs, ord, n).len() < 0x100_0000,
        placed(f, base, refs_upto(rs, ord, n)),
    ensures
        ref_item(f, 256, base, p) == seq![(rs[ord[p]].id, rs[ord[p]].data@)],
{
    let dsec = data_upto(rs, ord, n);
    let r = rs[ord[p]];
    let dp = data_upto(rs, ord, p).len() as int;
    let e = ref_entry(r.id, dp);
    lemma_data_upto_mono(rs, ord, p + 1, n);
    lemma_ref_placed(rs, ord, p, n);
    let rf = refs_upto(rs, ord, n);
    lemma_placed_sub(f, base, rf, 12 * p, 12);
    lemma_ref_entry_reads(r.id, dp);
    assert(rf.subrange(12 * p, 12 * p + 12) =~= e);
    let c = chunk(r);
    let len = r.data@.len() as int;
    lemma_chunk_placed(rs, ord, p, n);
    assert(data_upto(rs, ord, p + 1) == data_upto(rs, ord, p) + c);
    assert(len % 0x1_0000_0000 == len);
    assert forall|i: int| 0 <= i < c.len() implies f[256 + dp + i] == #[trigger] c[i] by {
        assert(dsec[dp + i] == c[i]);
        assert(f[256 + (dp + i)] == dsec[dp + i]);
    }
    lemma_ref_item_read(f, base, p, r.id, dp, r.data@);
}

/// A run of reference entries reads back as the resources they name.
proof fn lemma_ref_items_in(f: Seq<u8>, rs: Seq<Res>, ord: Seq<int>, n: int, base: int, q: int, m: Seq<int>, c: int)
    requires
        0 <= q,
        0 <= c <= m.len(),
        q + m.len() <= n,
        forall|j: int| 0 <= j < m.len() ==> ord[q + j] == #[trigger] m[j],
        placed(f, 256, data_upto(rs, ord, n)),
        data_upto(rs, ord, n).len() < 0x100_0000,
        placed(f, base, refs_upto(rs, ord, n)),
    ensures
        ref_items(f, 256, base + 12 * q, c) == items_at(rs, m.take(c)),
    decreases c,
{
    if c > 0 {
        lemma_ref_items_in(f, rs, ord, n, base, q, m, c - 1);
        lemma_ref_item_in(f, rs, ord, n, base, q + c - 1);
        assert(ref_item(f, 256, base + 12 * q, c - 1) == ref_item(f, 256, base, q + c - 1));
        assert(ord[q + (c - 1)] == m[c - 1]);
        assert(ref_items(f, 256, base + 12 * q, c) =~= items_at(rs, m.take(c)));
    } else {
        assert(items_at(rs, m.take(0)) =~= Seq::<(i16, Seq<u8>)>::empty());
    }
}

proof fn lemma_members_nonempty(rs: Seq<Res>, t: Seq<u8>, m: int, i: int)
    requires
        0 <= i < m <= rs.len(),
        rs[i].tag@ == t,
    ensures
        members(rs, t, m).len() >= 1,
    decreases m,
{
    if i < m - 1 {
        lemma_members_nonempty(rs, t, m - 1, i);
    }
}

/// Type `k` has at least one resource, and its resources stand together in
/// the write order right after those of the earlier types.
proof fn lemma_type_order(rs: Seq<Res>, k: int)
    requires
        0 <= k < types_of(rs).len(),
    ensures
        ({
            let m = members(rs, types_of(rs)[k], rs.len() as int);
            let q = order_upto(rs, k).len() as int;
            &&& m.len() >= 1
            &&& q + m.len() <= rs.len()
            &&& forall|j: int| 0 <= j < m.len() ==> order_of(rs)[q + j] == #[trigger] m[j]
        }),
{
    let tys = types_of(rs);
    let nt = tys.len() as int;
    let n = rs.len() as int;
    let t = tys[k];
    let m = members(rs, t, n);
    let q = order_upto(rs, k).len() as int;
    assert(tys.contains(t));
    lemma_types_of_prefix(rs, n);
    assert(rs.take(n) =~= rs);
    let i = choose|i: int| 0 <= i < n && rs[i].tag@ == t;
    lemma_members_nonempty(rs, t, n, i);
    lemma_sum_prefix_le(rs, tys, k + 1, n);
    lemma_order_prefix(rs, k + 1, nt);
    assert(order_upto(rs, k + 1) == order_upto(rs, k) + m);
    assert forall|j: int| 0 <= j < m.len() implies order_of(rs)[q + j] == #[trigger] m[j] by {
        assert(order_upto(rs, k + 1)[q + j] == m[j]);
    }
}

/// An eight-byte entry of a tag and two 16-bit values, read back.
proof fn lemma_entry8_reads(f: Seq<u8>, e: int, t: Seq<u8>, cv: int, rv: int)
    requires
        t.len() == 4,
        0 <= cv < 0x10000,
        0 <= rv < 0x10000,
        placed(f, e, t + be16_bytes(cv) + be16_bytes(rv)),
    ensures
        e + 8 <= f.len(),
        f.subrange(e, e + 4) == t,
        be16_at(f, e + 4) == cv,
        be16_at(f, e + 6) == rv,
{
    let te = t + be16_bytes(cv) + be16_bytes(rv);
    lemma_placed_sub(f, e, te, 0, 4);
    assert(te.subrange(0, 4) =~= t);
    crate::bytes::lemma_be16_roundtrip(cv);
    crate::bytes::lemma_be16_roundtrip(rv);
    lemma_placed_reads(f, e, te, 4);
    lemma_placed_reads(f, e, te, 6);
    assert(te[4] == be16_bytes(cv)[0] && te[5] == be16_bytes(cv)[1]);
    assert(te[6] == be16_bytes(rv)[0] && te[7] == be16_bytes(rv)[1]);
}

/// What the reader finds in the `k`-th type entry: the tag, the count less
/// one and the offset of the type's reference list.
proof fn lemma_type_entry_reads(f: Seq<u8>, rs: Seq<Res>, tla: int, k: int)
    requires
        0 <= k < types_of(rs).len(),
        0 <= tla,
        placed(f, tla + 2, type_entries_upto(rs, types_of(rs).len() as int)),
        2 + 8 * types_of(rs).len() + 12 * rs.len() < 0x10000,
    ensures
        ({
            let e = tla + 2 + 8 * k;
            let m = members(rs, types_of(rs)[k], rs.len() as int);
            let q = order_upto(rs, k).len() as int;
            &&& e + 8 <= f.len()
            &&& f.subrange(e, e + 4) == types_of(rs)[k]
            &&& be16_at(f, e + 4) == m.len() - 1
            &&& be16_at(f, e + 6) == 2 + 8 * types_of(rs).len() + 12 * q
        }),
{
    let tys = types_of(rs);
    let nt = tys.len() as int;
    let t = tys[k];
    let m = members(rs, t, rs.len() as int);
    let q = order_upto(rs, k).len() as int;
    let e = tla + 2 + 8 * k;
    let cv = m.len() - 1;
    let rv = 2 + 8 * nt + 12 * q;
    lemma_type_order(rs, k);
    lemma_types_tags(rs);
    assert(wrap16(cv) == cv);
    assert(wrap16(rv) == rv);
    let te = type_entry(rs, k);
    assert(te == t + be16_bytes(cv) + be16_bytes(rv));
    lemma_type_entry_placed(rs, k);
    lemma_placed_sub(f, tla + 2, type_entries_upto(rs, nt), 8 * k, 8);
    assert(type_entries_upto(rs, nt).subrange(8 * k, 8 * k + 8) =~= te);
    lemma_entry8_reads(f, e, t, cv, rv);
}

/// The reader's view of one type entry, given what the entry holds.
proof fn lemma_type_items_shape(
    f: Seq<u8>,
    want: Seq<u8>,
    tla: int,
    k: int,
    t: Seq<u8>,
    cv: int,
    rv: int,
    found: Seq<(i16, Seq<u8>)>,
)
    requires
        0 <= tla,
        0 <= k,
        tla + 2 + 8 * k + 8 <= f.len(),
        f.subrange(tla + 2 + 8 * k, tla + 2 + 8 * k + 4) == t,
        be16_at(f, tla + 2 + 8 * k + 4) == cv,
        be16_at(f, tla + 2 + 8 * k + 6) == rv,
        t == want ==> ref_items(f, 256, tla + rv, cv + 1) == found,
    ensures
        type_items(f, want, 256, tla, k) == if t == want { found } else { Seq::<(i16, Seq<u8>)>::empty() },
{
}

/// The `k`-th type entry of a fork whose parts are placed reads back as the
/// resources of that type when it is the wanted one, and as nothing otherwise.
proof fn lemma_type_items_in(f: Seq<u8>, rs: Seq<Res>, want: Seq<u8>, tla: int, k: int)
    requires
        0 <= k < types_of(rs).len(),
        0 <= tla,
        placed(f, 256, data_of(rs)),
        data_of(rs).len() < 0x100_0000,
        placed(f, tla + 2, type_entries_upto(rs, types_of(rs).len() as int)),
        placed(f, tla + 2 + 8 * types_of(rs).len(), refs_upto(rs, order_of(rs), rs.len() as int)),
        2 + 8 * types_of(rs).len() + 12 * rs.len() < 0x10000,
    ensures
        type_items(f, want, 256, tla, k) == if types_of(rs)[k] == want {
            written_of_type(rs, want)
        } else {
            Seq::<(i16, Seq<u8>)>::empty()
        },
{
    let nt = types_of(rs).len() as int;
    let n = rs.len() as int;
    let t = types_of(rs)[k];
    let m = members(rs, t, n);
    let q = order_upto(rs, k).len() as int;
    let rv = 2 + 8 * nt + 12 * q;
    lemma_type_entry_reads(f, rs, tla, k);
    lemma_type_order(rs, k);
    lemma_order_of_len(rs);
    assert(data_of(rs) == data_upto(rs, order_of(rs), n));
    lemma_ref_items_in(f, rs, order_of(rs), n, tla + 2 + 8 * nt, q, m, m.len() as int);
    assert(m.take(m.len() as int) =~= m);
    assert(tla + rv == tla + 2 + 8 * nt + 12 * q);
    lemma_type_items_shape(f, want, tla, k, t, m.len() - 1, rv, items_at(rs, m));
}

/// The first `k` type entries read back as the wanted type's resources when
/// that type is among them, and as nothing otherwise.
proof fn lemma_types_items_in(f: Seq<u8>, rs: Seq<Res>, want: Seq<u8>, tla: int, k: int)
    requires
        0 <= k <= types_of(rs).len(),
        0 <= tla,
        placed(f, 256, data_of(rs)),
        data_of(rs).len() < 0x100_0000,
        placed(f, tla + 2, type_entries_upto(rs, types_of(rs).len() as int)),
        placed(f, tla + 2 + 8 * types_of(rs).len(), refs_upto(rs, order_of(rs), rs.len() as int)),
        2 + 8 * types_of(rs).len() + 12 * rs.len() < 0x10000,
    ensures
        types_items(f, want, 256, tla, k) == if types_of(rs).take(k).contains(want) {
            written_of_type(rs, want)
        } else {
            Seq::<(i16, Seq<u8>)>::empty()
        },
    decreases k,
{
    let tys = types_of(rs);
    if k > 0 {
        lemma_types_items_in(f, rs, want, tla, k - 1);
        lemma_type_items_in(f, rs, want, tla, k - 1);
        lemma_types_tags(rs);
        let before = tys.take(k - 1);
        let now = tys.take(k);
        assert(now =~= before.push(tys[k - 1]));
        if tys[k - 1] == want {
            assert(now[k - 1] == want);
            assert(now.contains(want));
            if before.contains(want) {
                let j = choose|j: int| 0 <= j < before.len() && before[j] == want;
                assert(tys[j] == tys[k - 1]);
            }
        } else {
            if now.contains(want) {
                let j = choose|j: int| 0 <= j < now.len() && now[j] == want;
                assert(j < k - 1);
                assert(before[j] == want);
            }
            if before.contains(want) {
                let j = choose|j: int| 0 <= j < before.len() && before[j] == want;
                assert(now[j] == want);
            }
        }
        let s0 = types_items(f, want, 256, tla, k - 1);
        let s1 = type_items(f, want, 256, tla, k - 1);
        assert(types_items(f, want, 256, tla, k) == s0 + s1);
        assert(s0 + Seq::<(i16, Seq<u8>)>::empty() =~= s0);
        assert(Seq::<(i16, Seq<u8>)>::empty() + s1 =~= s1);
    } else {
        assert(tys.take(0) =~= Seq::<Seq<u8>>::empty());
    }
}

/// Past the end of the fork, type entries read back as nothing.
proof fn lemma_types_items_past_end(f: Seq<u8>, want: Seq<u8>, tla: int, k: int)
    requires
        0 <= tla,
        f.len() <= tla + 2,
        0 <= k,
    ensures
        types_items(f, want, 256, tla, k) == Seq::<(i16, Seq<u8>)>::empty(),
    decreases k,
{
    if k > 0 {
        lemma_types_items_past_end(f, want, tla, k - 1);
        assert(type_items(f, want, 256, tla, k - 1) == Seq::<(i16, Seq<u8>)>::empty());
        assert(types_items(f, want, 256, tla, k) =~= Seq::<(i16, Seq<u8>)>::empty());
    }
}

/// The reader's view of a whole fork, given its header, map header and type
/// count.
proof fn lemma_resources_in_shape(f: Seq<u8>, want: Seq<u8>, dlen: int, ntm1: int, found: Seq<(i16, Seq<u8>)>)
    requires
        0 <= dlen,
        256 + dlen + 28 + 2 <= f.len(),
        be32_at(f, 0) == 256,
        be32_at(f, 4) == 256 + dlen,
        be16_at(f, 256 + dlen + 24) == 28,
        be16_at(f, 256 + dlen + 28) == ntm1,
        types_items(f, want, 256, 256 + dlen + 28, ntm1 + 1) == found,
    ensures
        resources_in(f, want) == found,
{
}

/// A type that was not given has nothing written.
proof fn lemma_written_absent(rs: Seq<Res>, want: Seq<u8>)
    requires
        !types_of(rs).contains(want),
    ensures
        written_of_type(rs, want) == Seq::<(i16, Seq<u8>)>::empty(),
{
    let n = rs.len() as int;
    lemma_types_tags(rs);
    assert forall|i: int| 0 <= i < n implies rs[i].tag@ != want by {
        assert(types_of(rs).contains(rs[i].tag@));
    }
    lemma_members_empty(rs, want, n);
    assert(written_of_type(rs, want) =~= Seq::<(i16, Seq<u8>)>::empty());
}

/// With some type given, the type entries of a fork whose parts are placed
/// read back as the wanted type's resources.
#[verifier::spinoff_prover]
proof fn lemma_fork_types_items_some(f: Seq<u8>, rs: Seq<Res>, want: Seq<u8>)
    requires
        parts_at(f, rs),
        types_of(rs).len() > 0,
    ensures
        ({
            let tla = 256 + data_of(rs).len() as int + 28;
            types_items(f, want, 256, tla, wrap16(types_of(rs).len() - 1) + 1) == written_of_type(rs, want)
        }),
{
    reveal(parts_at);
    let tys = types_of(rs);
    let nt = tys.len() as int;
    let tla = 256 + data_of(rs).len() as int + 28;
    lemma_order_of_len(rs);
    if !tys.contains(want) {
        lemma_written_absent(rs, want);
    }
    assert(wrap16(nt - 1) == nt - 1);
    lemma_types_items_in(f, rs, want, tla, nt);
    assert(tys.take(nt) =~= tys);
}

/// With no type given, the fork's type list reads back nothing, as nothing
/// of any type was written.
#[verifier::spinoff_prover]
proof fn lemma_fork_types_items_none(f: Seq<u8>, rs: Seq<Res>, want: Seq<u8>)
    requires
        parts_at(f, rs),
        types_of(rs).len() == 0,
    ensures
        ({
            let tla = 256 + data_of(rs).len() as int + 28;
            types_items(f, want, 256, tla, wrap16(types_of(rs).len() - 1) + 1) == written_of_type(rs, want)
        }),
{
    let tys = types_of(rs);
    let nt = tys.len() as int;
    let tla = 256 + data_of(rs).len() as int + 28;
    lemma_written_absent(rs, want);
    lemma_types_tags(rs);
    if rs.len() > 0 {
        assert(tys.contains(rs[0].tag@));
    }
    reveal(parts_at);
    lemma_types_items_past_end(f, want, tla, wrap16(nt - 1) + 1);
}

/// The type entries of a fork whose parts are placed read back as the wanted
/// type's resources.
proof fn lemma_fork_types_items(f: Seq<u8>, rs: Seq<Res>, want: Seq<u8>)
    requires
        parts_at(f, rs),
    ensures
        ({
            let tla = 256 + data_of(rs).len() as int + 28;
            types_items(f, want, 256, tla, wrap16(types_of(rs).len() - 1) + 1) == written_of_type(rs, want)
        }),
{
    if types_of(rs).len() > 0 {
        lemma_fork_types_items_some(f, rs, want);
    } else {
        lemma_fork_types_items_none(f, rs, want);
    }
}

/// A written fork reads back: for every resource type, the map reader finds
/// exactly the resources the writer was given of that type, with their ids
/// and bodies, in their given order (and nothing for a type that was not
/// given). This holds whenever every offset and count fits its field.
pub proof fn lemma_fork_reads_back(rs: Seq<Res>, want: Seq<u8>)
    requires
        fork_fields_fit(rs),
    ensures
        resources_in(fork_of(rs), want) == written_of_type(rs, want),
{
    let f = fork_of(rs);
    lemma_fork_parts(rs);
    lemma_fork_types_items(f, rs, want);
    lemma_parts_reads(f, rs, want);
}

proof fn lemma_data_len_field(rs: Seq<Res>)
    requires
        fork_fields_fit(rs),
    ensures
        be32_at(fork_of(rs), 8) == data_of(rs).len(),
{
    let f = fork_of(rs);
    let d = data_of(rs).len() as int;
    assert(d % 0x1_0000_0000 == d);
    crate::bytes::lemma_be32_roundtrip(d);
    let c = be32_bytes(d);
    let h = fork_header(rs);
    assert(f =~= h + data_of(rs) + map_of(rs));
    assert(h.subrange(8, 12) =~= c);
    assert(f[8] == c[0] && f[9] == c[1] && f[10] == c[2] && f[11] == c[3]);
}

proof fn lemma_parts_header(f: Seq<u8>, rs: Seq<Res>)
    requires
        parts_at(f, rs),
    ensures
        be32_at(f, 0) == 256,
        be32_at(f, 4) == 256 + data_of(rs).len(),
        be16_at(f, 256 + data_of(rs).len() as int + 24) == 28,
        be16_at(f, 256 + data_of(rs).len() as int + 28) == wrap16(types_of(rs).len() - 1),
{
    reveal(parts_at);
}

/// The header of a written fork: data at offset 256, the map right after
/// the data (its offset is 256 plus the data length stored next), the type
/// list 28 bytes into the map, and the type count less one at its start.
/// This holds whenever every offset and count fits its field.
pub proof fn lemma_fork_header(rs: Seq<Res>)
    requires
        fork_fields_fit(rs),
    ensures
        be32_at(fork_of(rs), 0) == 256,
        be32_at(fork_of(rs), 8) == data_of(rs).len(),
        be32_at(fork_of(rs), 4) == 256 + be32_at(fork_of(rs), 8),
        be16_at(fork_of(rs), be32_at(fork_of(rs), 4) + 24) == 28,
        be16_at(fork_of(rs), be32_at(fork_of(rs), 4) + 28) == wrap16(types_of(rs).len() - 1),
{
    lemma_fork_parts(rs);
    lemma_parts_header(fork_of(rs), rs);
    lemma_data_len_field(rs);
}

/// No two resources share both a type and an id.
pub open spec fn distinct_keys(rs: Seq<Res>) -> bool {
    forall|a: int, b: int|
        0 <= a < b < rs.len() ==> !((#[trigger] rs[a]).tag@ == (#[trigger] rs[b]).tag@ && rs[a].id == rs[b].id)
}

proof fn lemma_first_with_id_push(s: Seq<(i16, Seq<u8>)>, x: (i16, Seq<u8>), id: i16)
    ensures
        first_with_id(s.push(x), id) == (if first_with_id(s, id) is Some {
            first_with_id(s, id)
        } else if x.0 == id {
            Some(x.1)
        } else {
            None
        }),
    decreases s.len(),
{
    if s.len() > 0 {
        assert(s.push(x)[0] == s[0]);
        assert(s.push(x).drop_first() =~= s.drop_first().push(x));
        lemma_first_with_id_push(s.drop_first(), x, id);
    } else {
        assert(s.push(x)[0] == x);
        assert(s.push(x).drop_first() =~= Seq::<(i16, Seq<u8>)>::empty());
        assert(first_with_id(Seq::<(i16, Seq<u8>)>::empty(), id) is None);
    }
}

proof fn lemma_first_with_id_none(s: Seq<(i16, Seq<u8>)>, id: i16)
    requires
        forall|j: int| 0 <= j < s.len() ==> (#[trigger] s[j]).0 != id,
    ensures
        first_with_id(s, id) is None,
    decreases s.len(),
{
    if s.len() > 0 {
        assert(s[0].0 != id);
        assert forall|j: int| 0 <= j < s.drop_first().len() implies (#[trigger] s.drop_first()[j]).0 != id by {
            assert(s.drop_first()[j] == s[j + 1]);
        }
        lemma_first_with_id_none(s.drop_first(), id);
    }
}

proof fn lemma_first_in_members(rs: Seq<Res>, t: Seq<u8>, n: int, k: int)
    requires
        0 <= k < n <= rs.len(),
        rs[k].tag@ == t,
        distinct_keys(rs),
    ensures
        first_with_id(items_at(rs, members(rs, t, n)), rs[k].id) == Some(rs[k].data@),
    decreases n,
{
    let m = members(rs, t, n - 1);
    let id = rs[k].id;
    lemma_members_bounds(rs, t, n - 1);
    if rs[n - 1].tag@ == t {
        let x = (rs[n - 1].id, rs[n - 1].data@);
        assert(items_at(rs, m.push(n - 1)) =~= items_at(rs, m).push(x));
        lemma_first_with_id_push(items_at(rs, m), x, id);
        if k < n - 1 {
            lemma_first_in_members(rs, t, n - 1, k);
        } else {
            assert forall|j: int| 0 <= j < items_at(rs, m).len() implies (#[trigger] items_at(rs, m)[j]).0 != id by {
                let a = m[j];
                assert(0 <= a < n - 1 && rs[a].tag@ == t);
                assert(!(rs[a].tag@ == rs[k].tag@ && rs[a].id == rs[k].id));
            }
            lemma_first_with_id_none(items_at(rs, m), id);
        }
    } else {
        lemma_first_in_members(rs, t, n - 1, k);
    }
}

/// A written fork answers a lookup by type and id: when no two resources
/// share a type and an id, finding the first resource of a given id among
/// what the map reader returns for a given type gives back the body that
/// was written under that type and id. This holds whenever every offset and
/// count fits its field.
pub proof fn lemma_fork_lookup(rs: Seq<Res>, k: int)
    requires
        fork_fields_fit(rs),
        distinct_keys(rs),
        0 <= k < rs.len(),
    ensures
        first_with_id(resources_in(fork_of(rs), rs[k].tag@), rs[k].id) == Some(rs[k].data@),
{
    lemma_fork_reads_back(rs, rs[k].tag@);
    lemma_first_in_members(rs, rs[k].tag@, rs.len() as int, k);
}

/// The reader's view of a fork whose parts are placed.
proof fn lemma_parts_reads(f: Seq<u8>, rs: Seq<Res>, want: Seq<u8>)
    requires
        parts_at(f, rs),
        ({
            let tla = 256 + data_of(rs).len() as int + 28;
            types_items(f, want, 256, tla, wrap16(types_of(rs).len() - 1) + 1) == written_of_type(rs, want)
        }),
    ensures
        resources_in(f, want) == written_of_type(rs, want),
{
    reveal(parts_at);
    let dlen = data_of(rs).len() as int;
    let ntm1 = wrap16(types_of(rs).len() - 1);
    lemma_resources_in_shape(f, want, dlen, ntm1, written_of_type(rs, want));
}

} // verus!
