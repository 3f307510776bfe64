//! The serialized form of a store.
//!
//! A finished store is a single self-describing byte sequence:
//!
//! * a 64-bit count of distinct keys;
//! * for each key, in strictly ascending byte-lexicographic order: the
//!   64-bit length of the key, the key's ASCII bytes, the 64-bit count of
//!   its records (at least one), and the records themselves;
//! * each record: its 32-bit tag word, then the 64-bit length of its text
//!   and the text's ASCII bytes.
//!
//! Serialization is injective on well-formed stores: two stores with the
//! same bytes hold the same keys and the same records. Parsing accepts
//! exactly the canonical serializations: a parse that succeeds returns a
//! well-formed store whose serialization is the whole input, byte for byte.

use vstd::prelude::*;
use crate::errors::KoshaError;
use crate::packing::{PackedPada, PackedPadaView};
use crate::text::{ascii_bytes, ascii_text, lex_lt};
use crate::text::{lemma_ascii_bytes_roundtrip, lemma_ascii_text_roundtrip};
use crate::text::{lemma_lex_lt_le_transitive, str_lt, str_to_ascii_bytes, string_from_ascii};
use crate::wire::{u32_le, u64_le};
use crate::wire::{lemma_u32_le_injective, lemma_u64_le_injective};
use crate::wire::{push_u32_le, push_u64_le, read_u32_le, read_u64_le};

verus! {

/// The character sequences of a sequence of strings.
pub open spec fn str_seq_view(keys: Seq<String>) -> Seq<Seq<char>> {
    keys.map_values(|s: String| s@)
}

/// The mathematical values of a sequence of packed records.
pub open spec fn packed_seq_view(g: Seq<PackedPada>) -> Seq<PackedPadaView> {
    g.map_values(|p: PackedPada| p@)
}

/// The mathematical values of a sequence of record groups.
pub open spec fn packed_groups_view(gs: Seq<Vec<PackedPada>>) -> Seq<Seq<PackedPadaView>> {
    gs.map_values(|g: Vec<PackedPada>| packed_seq_view(g@))
}

/// A text that the serialized form can carry: ASCII, with a length that
/// fits the 64-bit length field.
pub open spec fn serializable_text(t: Seq<char>) -> bool {
    ascii_text(t) && t.len() < 18446744073709551616
}

/// Every record of the group carries a serializable text.
pub open spec fn wf_record_seq(g: Seq<PackedPadaView>) -> bool {
    forall|j: int| 0 <= j < g.len() ==> serializable_text(#[trigger] g[j].text)
}

/// A well-formed store: as many groups as keys, keys serializable and in
/// strictly ascending order, and every group non-empty with serializable
/// records. Counts fit the 64-bit fields of the serialized form.
pub open spec fn wf_store(keys: Seq<Seq<char>>, groups: Seq<Seq<PackedPadaView>>) -> bool {
    &&& keys.len() == groups.len()
    &&& keys.len() < 18446744073709551616
    &&& forall|i: int| 0 <= i < keys.len() ==> serializable_text(#[trigger] keys[i])
    &&& forall|i: int, j: int| 0 <= i < j < keys.len() ==> lex_lt(keys[i], keys[j])
    &&& forall|i: int|
        0 <= i < groups.len() ==> 0 < (#[trigger] groups[i]).len() < 18446744073709551616
            && wf_record_seq(groups[i])
}

/// The serialized form of one record.
pub open spec fn ser_record(r: PackedPadaView) -> Seq<u8> {
    u32_le(r.value) + u64_le(r.text.len() as u64) + ascii_bytes(r.text)
}

/// The serialized form of the first `i` records of a group.
pub open spec fn ser_records_upto(g: Seq<PackedPadaView>, i: int) -> Seq<u8>
    decreases i,
{
    if i <= 0 {
        Seq::empty()
    } else {
        ser_records_upto(g, i - 1) + ser_record(g[i - 1])
    }
}

/// The serialized form of a whole group of records.
pub open spec fn ser_records(g: Seq<PackedPadaView>) -> Seq<u8> {
    ser_records_upto(g, g.len() as int)
}

/// The serialized form of one key with its group.
pub open spec fn ser_entry(k: Seq<char>, g: Seq<PackedPadaView>) -> Seq<u8> {
    u64_le(k.len() as u64) + ascii_bytes(k) + u64_le(g.len() as u64) + ser_records(g)
}

/// The serialized form of the first `i` keys with their groups.
pub open spec fn ser_entries_upto(
    keys: Seq<Seq<char>>,
    groups: Seq<Seq<PackedPadaView>>,
    i: int,
) -> Seq<u8>
    decreases i,
{
    if i <= 0 {
        Seq::empty()
    } else {
        ser_entries_upto(keys, groups, i - 1) + ser_entry(keys[i - 1], groups[i - 1])
    }
}

/// The serialized form of a whole store.
pub open spec fn ser_store(keys: Seq<Seq<char>>, groups: Seq<Seq<PackedPadaView>>) -> Seq<u8> {
    u64_le(keys.len() as u64) + ser_entries_upto(keys, groups, keys.len() as int)
}

/// A serialized store is never shorter than its key-count field.
pub proof fn lemma_ser_store_min_len(keys: Seq<Seq<char>>, groups: Seq<Seq<PackedPadaView>>)
    ensures
        ser_store(keys, groups).len() >= 8,
{
}

/// Concatenation of sequences is associative.
proof fn lemma_concat_assoc<T>(a: Seq<T>, b: Seq<T>, c: Seq<T>)
    ensures
        a + b + c == a + (b + c),
{
    assert(a + b + c =~= a + (b + c));
}

/// Splitting one byte sequence two ways at the same place splits it into
/// the same parts.
proof fn lemma_concat_parts<T>(a: Seq<T>, x: Seq<T>, b: Seq<T>, y: Seq<T>)
    requires
        a.len() == b.len(),
        a + x == b + y,
    ensures
        a == b,
        x == y,
{
    assert((a + x).len() == a.len() + x.len());
    assert((b + y).len() == b.len() + y.len());
    assert(x.len() == y.len());
    assert forall|i: int| 0 <= i < a.len() implies a[i] == b[i] by {
        assert((a + x)[i] == a[i]);
        assert((b + y)[i] == b[i]);
    }
    assert(a =~= b);
    assert forall|i: int| 0 <= i < x.len() implies x[i] == y[i] by {
        assert((a + x)[a.len() + i] == x[i]);
        assert((b + y)[b.len() + i] == y[i]);
    }
    assert(x =~= y);
}

/// ASCII byte images of equal length determine equal texts.
proof fn lemma_ascii_bytes_injective(t1: Seq<char>, t2: Seq<char>)
    requires
        ascii_text(t1),
        ascii_text(t2),
        ascii_bytes(t1) == ascii_bytes(t2),
    ensures
        t1 == t2,
{
    lemma_ascii_text_roundtrip(t1);
    lemma_ascii_text_roundtrip(t2);
}

/// A serialized record determines itself and whatever follows it.
proof fn lemma_ser_record_prefix(r1: PackedPadaView, r2: PackedPadaView, x: Seq<u8>, y: Seq<u8>)
    requires
        serializable_text(r1.text),
        serializable_text(r2.text),
        ser_record(r1) + x == ser_record(r2) + y,
    ensures
        r1 == r2,
        x == y,
{
    let v1 = u32_le(r1.value);
    let v2 = u32_le(r2.value);
    let l1 = u64_le(r1.text.len() as u64);
    let l2 = u64_le(r2.text.len() as u64);
    let t1 = ascii_bytes(r1.text);
    let t2 = ascii_bytes(r2.text);
    lemma_concat_assoc(v1 + l1, t1, x);
    lemma_concat_assoc(v2 + l2, t2, y);
    lemma_concat_assoc(v1, l1, t1 + x);
    lemma_concat_assoc(v2, l2, t2 + y);
    assert(v1 + (l1 + (t1 + x)) == v2 + (l2 + (t2 + y)));
    lemma_concat_parts(v1, l1 + (t1 + x), v2, l2 + (t2 + y));
    lemma_u32_le_injective(r1.value, r2.value);
    lemma_concat_parts(l1, t1 + x, l2, t2 + y);
    lemma_u64_le_injective(r1.text.len() as u64, r2.text.len() as u64);
    assert(r1.text.len() == r2.text.len());
    assert(t1.len() == t2.len());
    lemma_concat_parts(t1, x, t2, y);
    lemma_ascii_bytes_injective(r1.text, r2.text);
    assert(r1 =~= r2);
}

/// A group's serialization peels off its first record.
proof fn lemma_ser_records_first(g: Seq<PackedPadaView>, i: int)
    requires
        1 <= i <= g.len(),
    ensures
        ser_records_upto(g, i) == ser_record(g[0]) + ser_records_upto(g.drop_first(), i - 1),
    decreases i,
{
    let t = g.drop_first();
    if i == 1 {
        assert(ser_records_upto(g, 1) == ser_records_upto(g, 0) + ser_record(g[0]));
        assert(Seq::<u8>::empty() + ser_record(g[0]) =~= ser_record(g[0]) + Seq::<u8>::empty());
        assert(ser_record(g[0]) + Seq::<u8>::empty() =~= ser_record(g[0]) + ser_records_upto(t, 0));
    } else {
        lemma_ser_records_first(g, i - 1);
        assert(t[i - 2] == g[i - 1]);
        assert(ser_records_upto(g, i) == ser_records_upto(g, i - 1) + ser_record(g[i - 1]));
        assert(ser_records_upto(t, i - 1) == ser_records_upto(t, i - 2) + ser_record(t[i - 2]));
        lemma_concat_assoc(ser_record(g[0]), ser_records_upto(t, i - 2), ser_record(g[i - 1]));
    }
}

/// The serialization of the first `i` records reads only those records.
proof fn lemma_ser_records_upto_agree(g1: Seq<PackedPadaView>, g2: Seq<PackedPadaView>, i: int)
    requires
        0 <= i <= g1.len(),
        i <= g2.len(),
        forall|j: int| 0 <= j < i ==> g1[j] == g2[j],
    ensures
        ser_records_upto(g1, i) == ser_records_upto(g2, i),
    decreases i,
{
    if i > 0 {
        lemma_ser_records_upto_agree(g1, g2, i - 1);
    }
}

/// The serialization of the first `i` entries reads only those entries.
proof fn lemma_ser_entries_upto_agree(
    k1s: Seq<Seq<char>>,
    g1s: Seq<Seq<PackedPadaView>>,
    k2s: Seq<Seq<char>>,
    g2s: Seq<Seq<PackedPadaView>>,
    i: int,
)
    requires
        0 <= i <= k1s.len(),
        i <= g1s.len(),
        i <= k2s.len(),
        i <= g2s.len(),
        forall|j: int| 0 <= j < i ==> k1s[j] == k2s[j] && g1s[j] == g2s[j],
    ensures
        ser_entries_upto(k1s, g1s, i) == ser_entries_upto(k2s, g2s, i),
    decreases i,
{
    if i > 0 {
        lemma_ser_entries_upto_agree(k1s, g1s, k2s, g2s, i - 1);
    }
}

/// Serialized groups of equal size determine themselves and whatever
/// follows them.
proof fn lemma_ser_records_injective(
    g1: Seq<PackedPadaView>,
    g2: Seq<PackedPadaView>,
    x: Seq<u8>,
    y: Seq<u8>,
)
    requires
        g1.len() == g2.len(),
        wf_record_seq(g1),
        wf_record_seq(g2),
        ser_records(g1) + x == ser_records(g2) + y,
    ensures
        g1 == g2,
        x == y,
    decreases g1.len(),
{
    if g1.len() == 0 {
        assert(ser_records(g1) + x =~= x);
        assert(ser_records(g2) + y =~= y);
        assert(g1 =~= g2);
    } else {
        lemma_ser_records_first(g1, g1.len() as int);
        lemma_ser_records_first(g2, g2.len() as int);
        let t1 = g1.drop_first();
        let t2 = g2.drop_first();
        let x1 = ser_records(t1) + x;
        let y1 = ser_records(t2) + y;
        lemma_concat_assoc(ser_record(g1[0]), ser_records(t1), x);
        lemma_concat_assoc(ser_record(g2[0]), ser_records(t2), y);
        assert(ser_record(g1[0]) + x1 == ser_record(g2[0]) + y1);
        lemma_ser_record_prefix(g1[0], g2[0], x1, y1);
        assert(wf_record_seq(t1)) by {
            assert(forall|j: int| 0 <= j < t1.len() ==> t1[j] == g1[j + 1]);
        }
        assert(wf_record_seq(t2)) by {
            assert(forall|j: int| 0 <= j < t2.len() ==> t2[j] == g2[j + 1]);
        }
        lemma_ser_records_injective(t1, t2, x, y);
        assert forall|i: int| 0 <= i < g1.len() implies g1[i] == g2[i] by {
            if i >= 1 {
                assert(g1[i] == t1[i - 1]);
                assert(g2[i] == t2[i - 1]);
            }
        }
        assert(g1 =~= g2);
    }
}

/// A parsed run of records agrees with any group run of the same count
/// that serializes to the same bytes.
proof fn lemma_ser_records_run(
    p: Seq<PackedPadaView>,
    q: Seq<PackedPadaView>,
    a: Seq<u8>,
    b: Seq<u8>,
    j: int,
)
    requires
        p.len() == j,
        0 <= j <= q.len(),
        wf_record_seq(p),
        wf_record_seq(q),
        ser_records_upto(p, j) + a == ser_records_upto(q, j) + b,
    ensures
        p == q.take(j),
        a == b,
{
    let qt = q.take(j);
    assert(qt.len() == j);
    assert(wf_record_seq(qt)) by {
        assert(forall|x: int| 0 <= x < j ==> qt[x] == q[x]);
    }
    lemma_ser_records_upto_agree(q, qt, j);
    lemma_ser_records_injective(p, qt, a, b);
}

/// A serialized entry determines its key, its group, and whatever follows.
proof fn lemma_ser_entry_prefix(
    k1: Seq<char>,
    g1: Seq<PackedPadaView>,
    k2: Seq<char>,
    g2: Seq<PackedPadaView>,
    x: Seq<u8>,
    y: Seq<u8>,
)
    requires
        serializable_text(k1),
        serializable_text(k2),
        wf_record_seq(g1),
        wf_record_seq(g2),
        g1.len() < 18446744073709551616,
        g2.len() < 18446744073709551616,
        ser_entry(k1, g1) + x == ser_entry(k2, g2) + y,
    ensures
        k1 == k2,
        g1 == g2,
        x == y,
{
    let kl1 = u64_le(k1.len() as u64);
    let kl2 = u64_le(k2.len() as u64);
    let kb1 = ascii_bytes(k1);
    let kb2 = ascii_bytes(k2);
    let m1 = u64_le(g1.len() as u64);
    let m2 = u64_le(g2.len() as u64);
    let r1 = ser_records(g1);
    let r2 = ser_records(g2);
    lemma_concat_assoc(kl1 + kb1 + m1, r1, x);
    lemma_concat_assoc(kl2 + kb2 + m2, r2, y);
    lemma_concat_assoc(kl1 + kb1, m1, r1 + x);
    lemma_concat_assoc(kl2 + kb2, m2, r2 + y);
    lemma_concat_assoc(kl1, kb1, m1 + (r1 + x));
    lemma_concat_assoc(kl2, kb2, m2 + (r2 + y));
    assert(kl1 + (kb1 + (m1 + (r1 + x))) == kl2 + (kb2 + (m2 + (r2 + y))));
    lemma_concat_parts(kl1, kb1 + (m1 + (r1 + x)), kl2, kb2 + (m2 + (r2 + y)));
    lemma_u64_le_injective(k1.len() as u64, k2.len() as u64);
    assert(k1.len() == k2.len());
    assert(kb1.len() == kb2.len());
    lemma_concat_parts(kb1, m1 + (r1 + x), kb2, m2 + (r2 + y));
    lemma_ascii_bytes_injective(k1, k2);
    lemma_concat_parts(m1, r1 + x, m2, r2 + y);
    lemma_u64_le_injective(g1.len() as u64, g2.len() as u64);
    assert(g1.len() == g2.len());
    lemma_ser_records_injective(g1, g2, x, y);
}

/// A store's serialized entries peel off their first entry.
proof fn lemma_ser_entries_first(keys: Seq<Seq<char>>, groups: Seq<Seq<PackedPadaView>>, i: int)
    requires
        1 <= i <= keys.len(),
        keys.len() <= groups.len(),
    ensures
        ser_entries_upto(keys, groups, i) == ser_entry(keys[0], groups[0]) + ser_entries_upto(
            keys.drop_first(),
            groups.drop_first(),
            i - 1,
        ),
    decreases i,
{
    let kt = keys.drop_first();
    let gt = groups.drop_first();
    let e0 = ser_entry(keys[0], groups[0]);
    if i == 1 {
        assert(ser_entries_upto(keys, groups, 1) == ser_entries_upto(keys, groups, 0) + e0);
        assert(Seq::<u8>::empty() + e0 =~= e0 + Seq::<u8>::empty());
        assert(e0 + Seq::<u8>::empty() =~= e0 + ser_entries_upto(kt, gt, 0));
    } else {
        lemma_ser_entries_first(keys, groups, i - 1);
        assert(kt[i - 2] == keys[i - 1]);
        assert(gt[i - 2] == groups[i - 1]);
        let el = ser_entry(keys[i - 1], groups[i - 1]);
        assert(ser_entries_upto(keys, groups, i) == ser_entries_upto(keys, groups, i - 1) + el);
        assert(ser_entries_upto(kt, gt, i - 1) == ser_entries_upto(kt, gt, i - 2) + ser_entry(
            kt[i - 2],
            gt[i - 2],
        ));
        lemma_concat_assoc(e0, ser_entries_upto(kt, gt, i - 2), el);
    }
}

/// Serialized entry runs of equal count determine themselves and whatever
/// follows them.
proof fn lemma_ser_entries_injective(
    k1s: Seq<Seq<char>>,
    g1s: Seq<Seq<PackedPadaView>>,
    k2s: Seq<Seq<char>>,
    g2s: Seq<Seq<PackedPadaView>>,
    x: Seq<u8>,
    y: Seq<u8>,
)
    requires
        k1s.len() == g1s.len(),
        k2s.len() == g2s.len(),
        k1s.len() == k2s.len(),
        forall|i: int| 0 <= i < k1s.len() ==> serializable_text(#[trigger] k1s[i]),
        forall|i: int| 0 <= i < k2s.len() ==> serializable_text(#[trigger] k2s[i]),
        forall|i: int|
            0 <= i < g1s.len() ==> (#[trigger] g1s[i]).len() < 18446744073709551616
                && wf_record_seq(g1s[i]),
        forall|i: int|
            0 <= i < g2s.len() ==> (#[trigger] g2s[i]).len() < 18446744073709551616
                && wf_record_seq(g2s[i]),
        ser_entries_upto(k1s, g1s, k1s.len() as int) + x == ser_entries_upto(
            k2s,
            g2s,
            k2s.len() as int,
        ) + y,
    ensures
        k1s == k2s,
        g1s == g2s,
        x == y,
    decreases k1s.len(),
{
    if k1s.len() == 0 {
        assert(ser_entries_upto(k1s, g1s, 0) + x =~= x);
        assert(ser_entries_upto(k2s, g2s, 0) + y =~= y);
        assert(k1s =~= k2s);
        assert(g1s =~= g2s);
    } else {
        lemma_ser_entries_first(k1s, g1s, k1s.len() as int);
        lemma_ser_entries_first(k2s, g2s, k2s.len() as int);
        let kt1 = k1s.drop_first();
        let gt1 = g1s.drop_first();
        let kt2 = k2s.drop_first();
        let gt2 = g2s.drop_first();
        let x1 = ser_entries_upto(kt1, gt1, kt1.len() as int) + x;
        let y1 = ser_entries_upto(kt2, gt2, kt2.len() as int) + y;
        lemma_concat_assoc(
            ser_entry(k1s[0], g1s[0]),
            ser_entries_upto(kt1, gt1, kt1.len() as int),
            x,
        );
        lemma_concat_assoc(
            ser_entry(k2s[0], g2s[0]),
            ser_entries_upto(kt2, gt2, kt2.len() as int),
            y,
        );
        assert(ser_entry(k1s[0], g1s[0]) + x1 == ser_entry(k2s[0], g2s[0]) + y1);
        lemma_ser_entry_prefix(k1s[0], g1s[0], k2s[0], g2s[0], x1, y1);
        assert(forall|i: int| 0 <= i < kt1.len() ==> kt1[i] == k1s[i + 1]);
        assert(forall|i: int| 0 <= i < kt2.len() ==> kt2[i] == k2s[i + 1]);
        assert(forall|i: int| 0 <= i < gt1.len() ==> gt1[i] == g1s[i + 1]);
        assert(forall|i: int| 0 <= i < gt2.len() ==> gt2[i] == g2s[i + 1]);
        lemma_ser_entries_injective(kt1, gt1, kt2, gt2, x, y);
        assert forall|i: int| 0 <= i < k1s.len() implies k1s[i] == k2s[i] && g1s[i] == g2s[i] by {
            if i >= 1 {
                assert(kt1[i - 1] == k1s[i] && kt2[i - 1] == k2s[i]);
                assert(gt1[i - 1] == g1s[i] && gt2[i - 1] == g2s[i]);
            }
        }
        assert(k1s =~= k2s);
        assert(g1s =~= g2s);
    }
}

/// A parsed run of entries agrees with any store's first entries when both
/// serialize to the same bytes.
proof fn lemma_ser_entries_run(
    pk: Seq<Seq<char>>,
    pg: Seq<Seq<PackedPadaView>>,
    qk: Seq<Seq<char>>,
    qg: Seq<Seq<PackedPadaView>>,
    a: Seq<u8>,
    b: Seq<u8>,
    i: int,
)
    requires
        pk.len() == i,
        pg.len() == i,
        0 <= i <= qk.len(),
        qk.len() == qg.len(),
        forall|x: int| 0 <= x < pk.len() ==> serializable_text(#[trigger] pk[x]),
        forall|x: int| 0 <= x < qk.len() ==> serializable_text(#[trigger] qk[x]),
        forall|x: int|
            0 <= x < pg.len() ==> (#[trigger] pg[x]).len() < 18446744073709551616
                && wf_record_seq(pg[x]),
        forall|x: int|
            0 <= x < qg.len() ==> (#[trigger] qg[x]).len() < 18446744073709551616
                && wf_record_seq(qg[x]),
        ser_entries_upto(pk, pg, i) + a == ser_entries_upto(qk, qg, i) + b,
    ensures
        pk == qk.take(i),
        pg == qg.take(i),
        a == b,
{
    let kt = qk.take(i);
    let gt = qg.take(i);
    assert(kt.len() == i && gt.len() == i);
    assert(forall|x: int| 0 <= x < i ==> kt[x] == qk[x] && gt[x] == qg[x]);
    lemma_ser_entries_upto_agree(qk, qg, kt, gt, i);
    lemma_ser_entries_injective(pk, pg, kt, gt, a, b);
}

/// The pieces of a serialized entry that starts a byte sequence.
proof fn lemma_entry_shape(k: Seq<char>, g: Seq<PackedPadaView>, x: Seq<u8>, tail: Seq<u8>)
    requires
        serializable_text(k),
        g.len() < 18446744073709551616,
        ser_entry(k, g) + x == tail,
    ensures
        tail.len() == 16 + k.len() + ser_records(g).len() + x.len(),
        tail.subrange(0, 8) == u64_le(k.len() as u64),
        tail.subrange(8, 8 + k.len() as int) == ascii_bytes(k),
        tail.subrange(8 + k.len() as int, 16 + k.len() as int) == u64_le(g.len() as u64),
        tail.subrange(16 + k.len() as int, tail.len() as int) == ser_records(g) + x,
{
    let kl = u64_le(k.len() as u64);
    let kb = ascii_bytes(k);
    let ml = u64_le(g.len() as u64);
    let rs = ser_records(g);
    assert(kb.len() == k.len());
    lemma_concat_assoc(kl + kb + ml, rs, x);
    lemma_concat_assoc(kl + kb, ml, rs + x);
    lemma_concat_assoc(kl, kb, ml + (rs + x));
    assert(tail == kl + (kb + (ml + (rs + x))));
    assert(tail.len() == 16 + k.len() + rs.len() + x.len());
    assert(tail.subrange(0, 8) =~= kl);
    assert(tail.subrange(8, 8 + k.len() as int) =~= kb) by {
        assert forall|i: int|
            0 <= i < k.len() implies tail.subrange(8, 8 + k.len() as int)[i] == kb[i] by {
            assert(tail.subrange(8, 8 + k.len() as int)[i] == tail[8 + i]);
        }
    }
    assert(tail.subrange(8 + k.len() as int, 16 + k.len() as int) =~= ml) by {
        assert forall|i: int|
            0 <= i < 8 implies tail.subrange(8 + k.len() as int, 16 + k.len() as int)[i]
            == ml[i] by {
            assert(tail.subrange(8 + k.len() as int, 16 + k.len() as int)[i] == tail[8 + k.len()
                + i]);
        }
    }
    assert(tail.subrange(16 + k.len() as int, tail.len() as int) =~= rs + x) by {
        assert forall|i: int|
            0 <= i < rs.len() + x.len() implies tail.subrange(
            16 + k.len() as int,
            tail.len() as int,
        )[i] == (rs + x)[i] by {
            assert(tail.subrange(16 + k.len() as int, tail.len() as int)[i] == tail[16 + k.len()
                + i]);
        }
    }
}

/// Serialization is injective on well-formed stores: equal bytes mean the
/// same keys and the same records. A loaded store therefore answers for
/// exactly the entries whose serialization it was given.
pub proof fn lemma_ser_store_injective(
    k1s: Seq<Seq<char>>,
    g1s: Seq<Seq<PackedPadaView>>,
    k2s: Seq<Seq<char>>,
    g2s: Seq<Seq<PackedPadaView>>,
)
    requires
        wf_store(k1s, g1s),
        wf_store(k2s, g2s),
        ser_store(k1s, g1s) == ser_store(k2s, g2s),
    ensures
        k1s == k2s,
        g1s == g2s,
{
    let e1 = ser_entries_upto(k1s, g1s, k1s.len() as int);
    let e2 = ser_entries_upto(k2s, g2s, k2s.len() as int);
    lemma_concat_parts(u64_le(k1s.len() as u64), e1, u64_le(k2s.len() as u64), e2);
    lemma_u64_le_injective(k1s.len() as u64, k2s.len() as u64);
    assert(k1s.len() == k2s.len());
    assert(e1 + Seq::<u8>::empty() =~= e1);
    assert(e2 + Seq::<u8>::empty() =~= e2);
    lemma_ser_entries_injective(k1s, g1s, k2s, g2s, Seq::empty(), Seq::empty());
}

/// The serialized form of the records of a group from the `i`-th on.
pub open spec fn ser_records_from(g: Seq<PackedPadaView>, i: int) -> Seq<u8>
    decreases g.len() - i,
{
    if i < 0 || i >= g.len() {
        Seq::empty()
    } else {
        ser_record(g[i]) + ser_records_from(g, i + 1)
    }
}

/// The serialized form of the entries of a store from the `i`-th on.
pub open spec fn ser_entries_from(
    keys: Seq<Seq<char>>,
    groups: Seq<Seq<PackedPadaView>>,
    i: int,
) -> Seq<u8>
    decreases keys.len() - i,
{
    if i < 0 || i >= keys.len() {
        Seq::empty()
    } else {
        ser_entry(keys[i], groups[i]) + ser_entries_from(keys, groups, i + 1)
    }
}

/// A group's serialization splits into the first `i` records and the rest.
proof fn lemma_ser_records_split(g: Seq<PackedPadaView>, i: int)
    requires
        0 <= i <= g.len(),
    ensures
        ser_records(g) == ser_records_upto(g, i) + ser_records_from(g, i),
    decreases g.len() - i,
{
    if i == g.len() {
        assert(ser_records_upto(g, i) + ser_records_from(g, i) =~= ser_records_upto(g, i));
    } else {
        lemma_ser_records_split(g, i + 1);
        assert(ser_records_upto(g, i + 1) == ser_records_upto(g, i) + ser_record(g[i]));
        lemma_concat_assoc(ser_records_upto(g, i), ser_record(g[i]), ser_records_from(g, i + 1));
    }
}

/// A store's serialized entries split into the first `i` and the rest.
proof fn lemma_ser_entries_split(keys: Seq<Seq<char>>, groups: Seq<Seq<PackedPadaView>>, i: int)
    requires
        0 <= i <= keys.len(),
        keys.len() == groups.len(),
    ensures
        ser_entries_upto(keys, groups, keys.len() as int) == ser_entries_upto(keys, groups, i)
            + ser_entries_from(keys, groups, i),
    decreases keys.len() - i,
{
    if i == keys.len() {
        assert(ser_entries_upto(keys, groups, i) + ser_entries_from(keys, groups, i)
            =~= ser_entries_upto(keys, groups, i));
    } else {
        lemma_ser_entries_split(keys, groups, i + 1);
        assert(ser_entries_upto(keys, groups, i + 1) == ser_entries_upto(keys, groups, i)
            + ser_entry(keys[i], groups[i]));
        lemma_concat_assoc(
            ser_entries_upto(keys, groups, i),
            ser_entry(keys[i], groups[i]),
            ser_entries_from(keys, groups, i + 1),
        );
    }
}

/// A range of a range is a range.
proof fn lemma_subrange_of_subrange(s: Seq<u8>, a: int, b: int, c: int, d: int)
    requires
        0 <= a <= b <= s.len(),
        0 <= c <= d <= b - a,
    ensures
        s.subrange(a, b).subrange(c, d) == s.subrange(a + c, a + d),
{
    let lhs = s.subrange(a, b).subrange(c, d);
    let rhs = s.subrange(a + c, a + d);
    assert forall|i: int| 0 <= i < d - c implies lhs[i] == rhs[i] by {
        assert(lhs[i] == s.subrange(a, b)[c + i]);
    }
    assert(lhs =~= rhs);
}

/// A byte range splits at any place inside it.
proof fn lemma_subrange_split(s: Seq<u8>, a: int, b: int, c: int)
    requires
        0 <= a <= b <= c <= s.len(),
    ensures
        s.subrange(a, c) == s.subrange(a, b) + s.subrange(b, c),
{
    let lhs = s.subrange(a, c);
    let rhs = s.subrange(a, b) + s.subrange(b, c);
    assert forall|i: int| 0 <= i < c - a implies lhs[i] == rhs[i] by {
        if i < b - a {
            assert(rhs[i] == s.subrange(a, b)[i]);
        } else {
            assert(rhs[i] == s.subrange(b, c)[i - (b - a)]);
        }
    }
    assert(lhs =~= rhs);
}

/// Append a byte sequence.
fn push_bytes(out: &mut Vec<u8>, bytes: &Vec<u8>)
    ensures
        final(out)@ == old(out)@ + bytes@,
{
    let n = bytes.len();
    let mut j: usize = 0;
    while j < n
        invariant
            j <= n,
            n == bytes@.len(),
            out@ == old(out)@ + bytes@.subrange(0, j as int),
        decreases n - j,
    {
        out.push(bytes[j]);
        proof {
            assert(old(out)@ + bytes@.subrange(0, j as int) + seq![bytes@[j as int]] =~= old(out)@
                + bytes@.subrange(0, j + 1));
        }
        j = j + 1;
    }
    proof {
        assert(bytes@.subrange(0, n as int) =~= bytes@);
    }
}

/// Copy `n` bytes starting at `pos` into a fresh vector.
fn read_bytes(data: &[u8], pos: usize, n: usize) -> (r: Vec<u8>)
    requires
        pos + n <= data@.len(),
    ensures
        r@ == data@.subrange(pos as int, pos as int + n as int),
{
    let dlen = data.len();
    let mut r: Vec<u8> = Vec::new();
    let mut j: usize = 0;
    while j < n
        invariant
            j <= n,
            pos + n <= dlen,
            dlen == data@.len(),
            r@ == data@.subrange(pos as int, pos as int + j as int),
        decreases n - j,
    {
        r.push(data[pos + j]);
        proof {
            assert(data@.subrange(pos as int, pos as int + j as int).push(data@[pos + j as int])
                =~= data@.subrange(pos as int, pos as int + j + 1));
        }
        j = j + 1;
    }
    r
}

/// Whether every byte lies in the ASCII range.
fn all_ascii_bytes(bytes: &Vec<u8>) -> (r: bool)
    ensures
        r == (forall|i: int| 0 <= i < bytes@.len() ==> bytes@[i] < 128),
{
    let n = bytes.len();
    let mut j: usize = 0;
    while j < n
        invariant
            j <= n,
            n == bytes@.len(),
            forall|i: int| 0 <= i < j ==> bytes@[i] < 128,
        decreases n - j,
    {
        if bytes[j] >= 128 {
            return false;
        }
        j = j + 1;
    }
    true
}

/// Serialize a store: the key count, then each key with its records.
pub fn serialize_store(keys: &Vec<String>, groups: &Vec<Vec<PackedPada>>) -> (out: Vec<u8>)
    requires
        keys@.len() == groups@.len(),
        forall|i: int| 0 <= i < keys@.len() ==> ascii_text(#[trigger] keys@[i]@),
        forall|i: int, j: int|
            0 <= i < groups@.len() && 0 <= j < groups@[i]@.len() ==> ascii_text(
                (#[trigger] groups@[i]@[j])@.text,
            ),
    ensures
        out@ == ser_store(str_seq_view(keys@), packed_groups_view(groups@)),
{
    let ghost kv = str_seq_view(keys@);
    let ghost gv = packed_groups_view(groups@);
    let n = keys.len();
    let mut out: Vec<u8> = Vec::new();
    push_u64_le(&mut out, n as u64);
    proof {
        assert(out@ =~= u64_le(n as u64) + ser_entries_upto(kv, gv, 0));
    }
    let mut i: usize = 0;
    while i < n
        invariant
            i <= n,
            n == keys@.len(),
            keys@.len() == groups@.len(),
            kv == str_seq_view(keys@),
            gv == packed_groups_view(groups@),
            forall|a: int| 0 <= a < keys@.len() ==> ascii_text(#[trigger] keys@[a]@),
            forall|a: int, b: int|
                0 <= a < groups@.len() && 0 <= b < groups@[a]@.len() ==> ascii_text(
                    (#[trigger] groups@[a]@[b])@.text,
                ),
            out@ == u64_le(n as u64) + ser_entries_upto(kv, gv, i as int),
        decreases n - i,
    {
        let ghost outer_prefix = out@;
        let key: &String = &keys[i];
        let kb = str_to_ascii_bytes(key.as_str());
        push_u64_le(&mut out, kb.len() as u64);
        push_bytes(&mut out, &kb);
        let g: &Vec<PackedPada> = &groups[i];
        let m = g.len();
        push_u64_le(&mut out, m as u64);
        proof {
            assert(kb@ == ascii_bytes(kv[i as int]));
            assert(kb@.len() == kv[i as int].len());
        }
        let ghost entry_prefix = out@;
        let ghost grec = packed_seq_view(g@);
        let mut j: usize = 0;
        while j < m
            invariant
                j <= m,
                m == g@.len(),
                grec == packed_seq_view(g@),
                forall|b: int| 0 <= b < g@.len() ==> ascii_text((#[trigger] g@[b])@.text),
                out@ == entry_prefix + ser_records_upto(grec, j as int),
            decreases m - j,
        {
            let p: &PackedPada = &g[j];
            push_u32_le(&mut out, p.value);
            let tb = str_to_ascii_bytes(p.text.as_str());
            push_u64_le(&mut out, tb.len() as u64);
            push_bytes(&mut out, &tb);
            proof {
                assert(tb@ == ascii_bytes(grec[j as int].text));
                assert(tb@.len() == grec[j as int].text.len());
                assert(out@ =~= entry_prefix + ser_records_upto(grec, j + 1));
            }
            j = j + 1;
        }
        proof {
            assert(ser_records_upto(grec, m as int) == ser_records(grec));
            assert(out@ =~= outer_prefix + ser_entry(kv[i as int], gv[i as int])) by {
                assert(gv[i as int] == grec);
                assert(entry_prefix =~= outer_prefix + (u64_le(kv[i as int].len() as u64)
                    + ascii_bytes(kv[i as int]) + u64_le(grec.len() as u64)));
            }
            assert(out@ =~= u64_le(n as u64) + ser_entries_upto(kv, gv, i + 1));
        }
        i = i + 1;
    }
    out
}

/// No packed record's serialization, followed by anything, equals `bytes`.
pub open spec fn no_record_at(bytes: Seq<u8>) -> bool {
    forall|rec: PackedPadaView, x: Seq<u8>|
        serializable_text(rec.text) ==> #[trigger] (ser_record(rec) + x) != bytes
}

/// No serialization of `m` well-formed records, followed by anything,
/// equals `bytes`.
pub open spec fn no_group_at(bytes: Seq<u8>, m: u64) -> bool {
    forall|g: Seq<PackedPadaView>, x: Seq<u8>|
        wf_record_seq(g) && g.len() == m ==> #[trigger] (ser_records(g) + x) != bytes
}

/// No well-formed store serializes to exactly `bytes`.
pub open spec fn no_store_at(bytes: Seq<u8>) -> bool {
    forall|ks: Seq<Seq<char>>, gs: Seq<Seq<PackedPadaView>>|
        wf_store(ks, gs) ==> #[trigger] ser_store(ks, gs) != bytes
}

/// What a parsed run of entries says about any store with the same bytes:
/// the store has `n` keys, it begins with the entries parsed so far, and
/// the bytes not yet consumed are the serialization of its remaining
/// entries.
proof fn lemma_store_run(
    ks: Seq<Seq<char>>,
    gs: Seq<Seq<PackedPadaView>>,
    data: Seq<u8>,
    n: u64,
    pk: Seq<Seq<char>>,
    pg: Seq<Seq<PackedPadaView>>,
    i: int,
    pos: int,
)
    requires
        wf_store(ks, gs),
        ser_store(ks, gs) == data,
        u64_le(n) == data.subrange(0, 8),
        8 <= pos <= data.len(),
        data.subrange(0, pos) == u64_le(n) + ser_entries_upto(pk, pg, i),
        pk.len() == i,
        pg.len() == i,
        0 <= i <= n,
        forall|x: int| 0 <= x < pk.len() ==> serializable_text(#[trigger] pk[x]),
        forall|x: int|
            0 <= x < pg.len() ==> (#[trigger] pg[x]).len() < 18446744073709551616
                && wf_record_seq(pg[x]),
    ensures
        n == ks.len(),
        i <= ks.len(),
        pk == ks.take(i),
        pg == gs.take(i),
        data.subrange(pos, data.len() as int) == ser_entries_from(ks, gs, i),
{
    let e_all = ser_entries_upto(ks, gs, ks.len() as int);
    let rest = data.subrange(pos, data.len() as int);
    lemma_subrange_split(data, 0, pos, data.len() as int);
    assert(data.subrange(0, data.len() as int) =~= data);
    lemma_concat_assoc(u64_le(n), ser_entries_upto(pk, pg, i), rest);
    assert(u64_le(n) + (ser_entries_upto(pk, pg, i) + rest) == u64_le(ks.len() as u64) + e_all);
    lemma_concat_parts(
        u64_le(n),
        ser_entries_upto(pk, pg, i) + rest,
        u64_le(ks.len() as u64),
        e_all,
    );
    lemma_u64_le_injective(n, ks.len() as u64);
    assert(n == ks.len());
    lemma_ser_entries_split(ks, gs, i);
    lemma_ser_entries_run(pk, pg, ks, gs, rest, ser_entries_from(ks, gs, i), i);
}

/// The pieces of a serialized record that starts a byte sequence.
proof fn lemma_record_shape(rec: PackedPadaView, x: Seq<u8>, tail: Seq<u8>)
    requires
        serializable_text(rec.text),
        ser_record(rec) + x == tail,
    ensures
        tail.len() == 12 + rec.text.len() + x.len(),
        tail.subrange(0, 4) == u32_le(rec.value),
        tail.subrange(4, 12) == u64_le(rec.text.len() as u64),
        tail.subrange(12, 12 + rec.text.len() as int) == ascii_bytes(rec.text),
{
    let v = u32_le(rec.value);
    let l = u64_le(rec.text.len() as u64);
    let t = ascii_bytes(rec.text);
    assert(t.len() == rec.text.len());
    lemma_concat_assoc(v + l, t, x);
    lemma_concat_assoc(v, l, t + x);
    assert(tail == v + (l + (t + x)));
    assert(tail.len() == 12 + rec.text.len() + x.len());
    assert(tail.subrange(0, 4) =~= v);
    assert(tail.subrange(4, 12) =~= l) by {
        assert forall|i: int| 0 <= i < 8 implies tail.subrange(4, 12)[i] == l[i] by {
            assert(tail.subrange(4, 12)[i] == tail[4 + i]);
        }
    }
    assert(tail.subrange(12, 12 + rec.text.len() as int) =~= t) by {
        assert forall|i: int|
            0 <= i < rec.text.len() implies tail.subrange(12, 12 + rec.text.len() as int)[i]
            == t[i] by {
            assert(tail.subrange(12, 12 + rec.text.len() as int)[i] == tail[12 + i]);
        }
    }
}

/// The bytes of an ASCII text all lie below 128.
proof fn lemma_ascii_bytes_small(t: Seq<char>)
    requires
        ascii_text(t),
    ensures
        forall|i: int| 0 <= i < ascii_bytes(t).len() ==> ascii_bytes(t)[i] < 128,
{
    assert forall|i: int| 0 <= i < ascii_bytes(t).len() implies ascii_bytes(t)[i] < 128 by {
        assert(ascii_bytes(t)[i] == t[i] as u8);
        assert('\0' <= t[i] <= '\u{7f}');
    }
}

/// Parse one record at `pos`, returning it with the position after it.
fn parse_record(data: &[u8], pos: usize) -> (r: Result<(PackedPada, usize), KoshaError>)
    requires
        pos <= data@.len(),
    ensures
        match r {
            Result::Ok(pe) => pos < pe.1 <= data@.len() && data@.subrange(
                pos as int,
                pe.1 as int,
            ) == ser_record(pe.0@) && serializable_text(pe.0@.text),
            Result::Err(e) => e == KoshaError::StorageUnavailable && no_record_at(
                data@.subrange(pos as int, data@.len() as int),
            ),
        },
{
    let len = data.len();
    let ghost tail = data@.subrange(pos as int, len as int);
    if len - pos < 4 {
        proof {
            assert forall|rec: PackedPadaView, xx: Seq<u8>|
                serializable_text(rec.text) implies #[trigger] (ser_record(rec) + xx) != tail by {
                if ser_record(rec) + xx == tail {
                    lemma_record_shape(rec, xx, tail);
                }
            }
        }
        return Result::Err(KoshaError::StorageUnavailable);
    }
    let value = read_u32_le(data, pos);
    let vpos = pos + 4;
    if len - vpos < 8 {
        proof {
            assert forall|rec: PackedPadaView, xx: Seq<u8>|
                serializable_text(rec.text) implies #[trigger] (ser_record(rec) + xx) != tail by {
                if ser_record(rec) + xx == tail {
                    lemma_record_shape(rec, xx, tail);
                }
            }
        }
        return Result::Err(KoshaError::StorageUnavailable);
    }
    let tlen64 = read_u64_le(data, vpos);
    let tpos = vpos + 8;
    if tlen64 > (len - tpos) as u64 {
        proof {
            assert forall|rec: PackedPadaView, xx: Seq<u8>|
                serializable_text(rec.text) implies #[trigger] (ser_record(rec) + xx) != tail by {
                if ser_record(rec) + xx == tail {
                    lemma_record_shape(rec, xx, tail);
                    lemma_subrange_of_subrange(data@, pos as int, len as int, 4, 12);
                    assert(u64_le(tlen64) == tail.subrange(4, 12));
                    lemma_u64_le_injective(tlen64, rec.text.len() as u64);
                    assert(tlen64 == rec.text.len());
                }
            }
        }
        return Result::Err(KoshaError::StorageUnavailable);
    }
    let tlen = tlen64 as usize;
    let tb = read_bytes(data, tpos, tlen);
    if !all_ascii_bytes(&tb) {
        proof {
            assert forall|rec: PackedPadaView, xx: Seq<u8>|
                serializable_text(rec.text) implies #[trigger] (ser_record(rec) + xx) != tail by {
                if ser_record(rec) + xx == tail {
                    lemma_record_shape(rec, xx, tail);
                    lemma_subrange_of_subrange(data@, pos as int, len as int, 4, 12);
                    assert(u64_le(tlen64) == tail.subrange(4, 12));
                    lemma_u64_le_injective(tlen64, rec.text.len() as u64);
                    assert(tlen64 == rec.text.len());
                    lemma_subrange_of_subrange(
                        data@,
                        pos as int,
                        len as int,
                        12,
                        12 + rec.text.len() as int,
                    );
                    assert(tb@ == ascii_bytes(rec.text));
                    lemma_ascii_bytes_small(rec.text);
                }
            }
        }
        return Result::Err(KoshaError::StorageUnavailable);
    }
    let end = tpos + tlen;
    proof {
        lemma_ascii_bytes_roundtrip(tb@);
    }
    let text = string_from_ascii(tb);
    let packed = PackedPada { value, text };
    proof {
        assert(ascii_bytes(packed@.text) == data@.subrange(tpos as int, end as int));
        assert(packed@.text.len() == tlen);
        lemma_subrange_split(data@, pos as int, vpos as int, end as int);
        lemma_subrange_split(data@, vpos as int, tpos as int, end as int);
        lemma_concat_assoc(
            data@.subrange(pos as int, vpos as int),
            data@.subrange(vpos as int, tpos as int),
            data@.subrange(tpos as int, end as int),
        );
        assert(data@.subrange(pos as int, end as int) == ser_record(packed@));
    }
    Result::Ok((packed, end))
}

/// Parse `m` records starting at `start`, returning them with the
/// position after them.
fn parse_group(data: &[u8], start: usize, m: u64) -> (r: Result<(Vec<PackedPada>, usize), KoshaError>)
    requires
        start <= data@.len(),
    ensures
        match r {
            Result::Ok(ge) => ({
                &&& start <= ge.1 <= data@.len()
                &&& ge.0@.len() == m
                &&& wf_record_seq(packed_seq_view(ge.0@))
                &&& data@.subrange(start as int, ge.1 as int) == ser_records_upto(
                    packed_seq_view(ge.0@),
                    m as int,
                )
            }),
            Result::Err(e) => e == KoshaError::StorageUnavailable && no_group_at(
                data@.subrange(start as int, data@.len() as int),
                m,
            ),
        },
{
    let len = data.len();
    let mut g: Vec<PackedPada> = Vec::new();
    let mut pos: usize = start;
    let mut j: u64 = 0;
    while j < m
        invariant
            start <= pos <= len,
            len == data@.len(),
            j <= m,
            g@.len() == j,
            data@.subrange(start as int, pos as int) == ser_records_upto(
                packed_seq_view(g@),
                j as int,
            ),
            wf_record_seq(packed_seq_view(g@)),
        decreases m - j,
    {
        let parsed = match parse_record(data, pos) {
            Result::Ok(pe) => pe,
            Result::Err(e) => {
                proof {
                    let done = packed_seq_view(g@);
                    let whole = data@.subrange(start as int, len as int);
                    assert forall|q: Seq<PackedPadaView>, x: Seq<u8>|
                        wf_record_seq(q) && q.len() == m implies #[trigger] (ser_records(q) + x)
                        != whole by {
                        if ser_records(q) + x == whole {
                            lemma_ser_records_split(q, j as int);
                            lemma_concat_assoc(
                                ser_records_upto(q, j as int),
                                ser_records_from(q, j as int),
                                x,
                            );
                            lemma_subrange_split(data@, start as int, pos as int, len as int);
                            lemma_ser_records_run(
                                done,
                                q,
                                data@.subrange(pos as int, len as int),
                                ser_records_from(q, j as int) + x,
                                j as int,
                            );
                            assert(ser_records_from(q, j as int) == ser_record(q[j as int])
                                + ser_records_from(q, j + 1));
                            lemma_concat_assoc(
                                ser_record(q[j as int]),
                                ser_records_from(q, j + 1),
                                x,
                            );
                            assert(serializable_text(q[j as int].text));
                            assert(ser_record(q[j as int]) + (ser_records_from(q, j + 1) + x)
                                == data@.subrange(pos as int, len as int));
                        }
                    }
                }
                return Result::Err(e);
            },
        };
        let packed = parsed.0;
        let end = parsed.1;
        proof {
            let old_view = packed_seq_view(g@);
            let new_view = packed_seq_view(g@.push(packed));
            assert(new_view =~= old_view.push(packed@));
            lemma_subrange_split(data@, start as int, pos as int, end as int);
            assert(ser_records_upto(new_view, j + 1) == ser_records_upto(new_view, j as int)
                + ser_record(new_view[j as int]));
            assert(ser_records_upto(new_view, j as int) == ser_records_upto(old_view, j as int))
                by {
                lemma_ser_records_upto_agree(old_view, new_view, j as int);
            }
            assert(forall|b: int|
                0 <= b < new_view.len() ==> serializable_text(#[trigger] new_view[b].text));
        }
        g.push(packed);
        pos = end;
        j = j + 1;
    }
    Result::Ok((g, pos))
}
/// Parse a serialized store. Succeeds on exactly the whole, canonical
/// serializations of well-formed stores: the returned store is well-formed
/// and serializes back to the input, byte for byte, and a parse fails only
/// when no well-formed store has the input as its serialization — too
/// short, truncated, keys out of order or not ASCII, an empty group,
/// trailing bytes.
#[verifier::rlimit(100)]
pub fn parse_store(data: &[u8]) -> (r: Result<(Vec<String>, Vec<Vec<PackedPada>>), KoshaError>)
    ensures
        match r {
            Result::Ok(kg) => wf_store(str_seq_view(kg.0@), packed_groups_view(kg.1@)) && ser_store(
                str_seq_view(kg.0@),
                packed_groups_view(kg.1@),
            ) == data@,
            Result::Err(e) => e == KoshaError::StorageUnavailable && no_store_at(data@),
        },
{
    let len = data.len();
    if len < 8 {
        proof {
            assert forall|ks: Seq<Seq<char>>, gs: Seq<Seq<PackedPadaView>>|
                wf_store(ks, gs) implies #[trigger] ser_store(ks, gs) != data@ by {
                lemma_ser_store_min_len(ks, gs);
            }
        }
        return Result::Err(KoshaError::StorageUnavailable);
    }
    let n = read_u64_le(data, 0);
    let mut keys: Vec<String> = Vec::new();
    let mut groups: Vec<Vec<PackedPada>> = Vec::new();
    let mut pos: usize = 8;
    let mut i: u64 = 0;
    proof {
        assert(data@.subrange(0, 8) =~= u64_le(n) + ser_entries_upto(
            str_seq_view(keys@),
            packed_groups_view(groups@),
            0,
        ));
    }
    while i < n
        invariant
            8 <= pos <= len,
            len == data@.len(),
            i <= n,
            keys@.len() == i,
            groups@.len() == i,
            u64_le(n) == data@.subrange(0, 8),
            data@.subrange(0, pos as int) == u64_le(n) + ser_entries_upto(
                str_seq_view(keys@),
                packed_groups_view(groups@),
                i as int,
            ),
            forall|a: int| 0 <= a < keys@.len() ==> serializable_text((#[trigger] keys@[a])@),
            forall|a: int, b: int|
                0 <= a < b < keys@.len() ==> lex_lt(keys@[a]@, keys@[b]@),
            forall|a: int|
                0 <= a < groups@.len() ==> 0 < (#[trigger] groups@[a])@.len()
                    < 18446744073709551616 && wf_record_seq(packed_seq_view(groups@[a]@)),
        decreases n - i,
    {
        let ghost pk = str_seq_view(keys@);
        let ghost pg = packed_groups_view(groups@);
        proof {
            assert(pk.len() == i && pg.len() == i);
            assert(forall|x: int| 0 <= x < pk.len() ==> pk[x] == keys@[x]@);
            assert(forall|x: int| 0 <= x < pg.len() ==> pg[x] == packed_seq_view(groups@[x]@));
        }
        let ghost rest = data@.subrange(pos as int, len as int);
        if len - pos < 8 {
            proof {
                assert forall|ks: Seq<Seq<char>>, gs: Seq<Seq<PackedPadaView>>|
                    wf_store(ks, gs) implies #[trigger] ser_store(ks, gs) != data@ by {
                    if ser_store(ks, gs) == data@ {
                        lemma_store_run(ks, gs, data@, n, pk, pg, i as int, pos as int);
                        lemma_entry_shape(
                            ks[i as int],
                            gs[i as int],
                            ser_entries_from(ks, gs, i + 1),
                            rest,
                        );
                    }
                }
            }
            return Result::Err(KoshaError::StorageUnavailable);
        }
        let klen64 = read_u64_le(data, pos);
        let kb_start = pos + 8;
        if klen64 > (len - kb_start) as u64 {
            proof {
                assert forall|ks: Seq<Seq<char>>, gs: Seq<Seq<PackedPadaView>>|
                    wf_store(ks, gs) implies #[trigger] ser_store(ks, gs) != data@ by {
                    if ser_store(ks, gs) == data@ {
                        lemma_store_run(ks, gs, data@, n, pk, pg, i as int, pos as int);
                        lemma_entry_shape(
                            ks[i as int],
                            gs[i as int],
                            ser_entries_from(ks, gs, i + 1),
                            rest,
                        );
                        lemma_subrange_of_subrange(data@, pos as int, len as int, 0, 8);
                        lemma_u64_le_injective(klen64, ks[i as int].len() as u64);
                    }
                }
            }
            return Result::Err(KoshaError::StorageUnavailable);
        }
        let klen = klen64 as usize;
        let kb = read_bytes(data, kb_start, klen);
        if !all_ascii_bytes(&kb) {
            proof {
                assert forall|ks: Seq<Seq<char>>, gs: Seq<Seq<PackedPadaView>>|
                    wf_store(ks, gs) implies #[trigger] ser_store(ks, gs) != data@ by {
                    if ser_store(ks, gs) == data@ {
                        lemma_store_run(ks, gs, data@, n, pk, pg, i as int, pos as int);
                        lemma_entry_shape(
                            ks[i as int],
                            gs[i as int],
                            ser_entries_from(ks, gs, i + 1),
                            rest,
                        );
                        lemma_subrange_of_subrange(data@, pos as int, len as int, 0, 8);
                        lemma_u64_le_injective(klen64, ks[i as int].len() as u64);
                        lemma_subrange_of_subrange(
                            data@,
                            pos as int,
                            len as int,
                            8,
                            8 + ks[i as int].len() as int,
                        );
                        assert(kb@ == ascii_bytes(ks[i as int]));
                        lemma_ascii_bytes_small(ks[i as int]);
                    }
                }
            }
            return Result::Err(KoshaError::StorageUnavailable);
        }
        proof {
            lemma_ascii_bytes_roundtrip(kb@);
        }
        let key = string_from_ascii(kb);
        let mpos = kb_start + klen;
        if keys.len() > 0 {
            let prev: &String = &keys[keys.len() - 1];
            if !str_lt(prev.as_str(), key.as_str()) {
                proof {
                    assert forall|ks: Seq<Seq<char>>, gs: Seq<Seq<PackedPadaView>>|
                        wf_store(ks, gs) implies #[trigger] ser_store(ks, gs) != data@ by {
                        if ser_store(ks, gs) == data@ {
                            lemma_store_run(ks, gs, data@, n, pk, pg, i as int, pos as int);
                            lemma_entry_shape(
                                ks[i as int],
                                gs[i as int],
                                ser_entries_from(ks, gs, i + 1),
                                rest,
                            );
                            lemma_subrange_of_subrange(data@, pos as int, len as int, 0, 8);
                            lemma_u64_le_injective(klen64, ks[i as int].len() as u64);
                            lemma_subrange_of_subrange(
                                data@,
                                pos as int,
                                len as int,
                                8,
                                8 + ks[i as int].len() as int,
                            );
                            assert(kb@ == ascii_bytes(ks[i as int]));
                            lemma_ascii_text_roundtrip(ks[i as int]);
                            assert(key@ == ks[i as int]);
                            assert(prev@ == pk[i - 1]);
                            assert(pk[i - 1] == ks.take(i as int)[i - 1]);
                            assert(lex_lt(ks[i - 1], ks[i as int]));
                        }
                    }
                }
                return Result::Err(KoshaError::StorageUnavailable);
            }
        }
        if len - mpos < 8 {
            proof {
                assert forall|ks: Seq<Seq<char>>, gs: Seq<Seq<PackedPadaView>>|
                    wf_store(ks, gs) implies #[trigger] ser_store(ks, gs) != data@ by {
                    if ser_store(ks, gs) == data@ {
                        lemma_store_run(ks, gs, data@, n, pk, pg, i as int, pos as int);
                        lemma_entry_shape(
                            ks[i as int],
                            gs[i as int],
                            ser_entries_from(ks, gs, i + 1),
                            rest,
                        );
                        lemma_subrange_of_subrange(data@, pos as int, len as int, 0, 8);
                        lemma_u64_le_injective(klen64, ks[i as int].len() as u64);
                    }
                }
            }
            return Result::Err(KoshaError::StorageUnavailable);
        }
        let m = read_u64_le(data, mpos);
        let rec_start = mpos + 8;
        proof {
            assert(u64_le(m) == data@.subrange(mpos as int, rec_start as int));
        }
        if m == 0 {
            proof {
                assert forall|ks: Seq<Seq<char>>, gs: Seq<Seq<PackedPadaView>>|
                    wf_store(ks, gs) implies #[trigger] ser_store(ks, gs) != data@ by {
                    if ser_store(ks, gs) == data@ {
                        lemma_store_run(ks, gs, data@, n, pk, pg, i as int, pos as int);
                        lemma_entry_shape(
                            ks[i as int],
                            gs[i as int],
                            ser_entries_from(ks, gs, i + 1),
                            rest,
                        );
                        lemma_subrange_of_subrange(data@, pos as int, len as int, 0, 8);
                        lemma_u64_le_injective(klen64, ks[i as int].len() as u64);
                        lemma_subrange_of_subrange(
                            data@,
                            pos as int,
                            len as int,
                            8 + ks[i as int].len() as int,
                            16 + ks[i as int].len() as int,
                        );
                        lemma_u64_le_injective(m, gs[i as int].len() as u64);
                    }
                }
            }
            return Result::Err(KoshaError::StorageUnavailable);
        }
        let parsed_group = match parse_group(data, rec_start, m) {
            Result::Ok(ge) => ge,
            Result::Err(e) => {
                proof {
                    assert forall|ks: Seq<Seq<char>>, gs: Seq<Seq<PackedPadaView>>|
                        wf_store(ks, gs) implies #[trigger] ser_store(ks, gs) != data@ by {
                        if ser_store(ks, gs) == data@ {
                            lemma_store_run(ks, gs, data@, n, pk, pg, i as int, pos as int);
                            lemma_entry_shape(
                                ks[i as int],
                                gs[i as int],
                                ser_entries_from(ks, gs, i + 1),
                                rest,
                            );
                            lemma_subrange_of_subrange(data@, pos as int, len as int, 0, 8);
                            lemma_u64_le_injective(klen64, ks[i as int].len() as u64);
                            lemma_subrange_of_subrange(
                                data@,
                                pos as int,
                                len as int,
                                8 + ks[i as int].len() as int,
                                16 + ks[i as int].len() as int,
                            );
                            lemma_u64_le_injective(m, gs[i as int].len() as u64);
                            assert(gs[i as int].len() == m);
                            lemma_subrange_of_subrange(
                                data@,
                                pos as int,
                                len as int,
                                16 + ks[i as int].len() as int,
                                (len - pos) as int,
                            );
                            assert(data@.subrange(rec_start as int, len as int) == ser_records(
                                gs[i as int],
                            ) + ser_entries_from(ks, gs, i + 1));
                            assert(wf_record_seq(gs[i as int]));
                        }
                    }
                }
                return Result::Err(e);
            },
        };
        let g = parsed_group.0;
        let gend = parsed_group.1;
        proof {
            let kv2 = str_seq_view(keys@.push(key));
            let gv2 = packed_groups_view(groups@.push(g));
            let grec = packed_seq_view(g@);
            assert(kv2 =~= pk.push(key@));
            assert(gv2 =~= pg.push(grec));
            assert(ser_entries_upto(kv2, gv2, i as int) == ser_entries_upto(pk, pg, i as int)) by {
                lemma_ser_entries_upto_agree(pk, pg, kv2, gv2, i as int);
            }
            assert(ser_entries_upto(kv2, gv2, i + 1) == ser_entries_upto(kv2, gv2, i as int)
                + ser_entry(key@, grec));
            // the bytes of this entry, piece by piece
            let s1 = data@.subrange(pos as int, kb_start as int);
            let s2 = data@.subrange(kb_start as int, mpos as int);
            let s3 = data@.subrange(mpos as int, rec_start as int);
            let s4 = data@.subrange(rec_start as int, gend as int);
            assert(s1 == u64_le(klen64));
            assert(s2 == ascii_bytes(key@));
            assert(s3 == u64_le(m));
            assert(s4 == ser_records_upto(grec, m as int));
            assert(key@.len() == klen);
            assert(grec.len() == m);
            assert(ser_entry(key@, grec) == s1 + s2 + s3 + s4);
            lemma_subrange_split(data@, pos as int, kb_start as int, gend as int);
            lemma_subrange_split(data@, kb_start as int, mpos as int, gend as int);
            lemma_subrange_split(data@, mpos as int, rec_start as int, gend as int);
            lemma_concat_assoc(s1 + s2, s3, s4);
            lemma_concat_assoc(s1, s2, s3 + s4);
            assert(data@.subrange(pos as int, gend as int) == ser_entry(key@, grec));
            lemma_subrange_split(data@, 0, pos as int, gend as int);
            lemma_concat_assoc(
                u64_le(n),
                ser_entries_upto(kv2, gv2, i as int),
                ser_entry(key@, grec),
            );
            assert(data@.subrange(0, gend as int) == u64_le(n) + ser_entries_upto(
                kv2,
                gv2,
                i + 1,
            ));
            assert(forall|a: int|
                0 <= a < keys@.len() ==> lex_lt((#[trigger] keys@[a])@, key@)) by {
                if keys@.len() > 0 {
                    let last = keys@.len() - 1;
                    assert forall|a: int| 0 <= a < keys@.len() implies lex_lt(
                        (#[trigger] keys@[a])@,
                        key@,
                    ) by {
                        if a < last {
                            lemma_lex_lt_le_transitive(keys@[a]@, keys@[last]@, key@);
                        }
                    }
                }
            }
        }
        keys.push(key);
        groups.push(g);
        pos = gend;
        i = i + 1;
    }
    if pos != len {
        proof {
            let pk = str_seq_view(keys@);
            let pg = packed_groups_view(groups@);
            assert(pk.len() == i && pg.len() == i);
            assert(forall|x: int| 0 <= x < pk.len() ==> pk[x] == keys@[x]@);
            assert(forall|x: int| 0 <= x < pg.len() ==> pg[x] == packed_seq_view(groups@[x]@));
            assert forall|ks: Seq<Seq<char>>, gs: Seq<Seq<PackedPadaView>>|
                wf_store(ks, gs) implies #[trigger] ser_store(ks, gs) != data@ by {
                if ser_store(ks, gs) == data@ {
                    lemma_store_run(ks, gs, data@, n, pk, pg, i as int, pos as int);
                    assert(ser_entries_from(ks, gs, i as int) =~= Seq::<u8>::empty());
                    assert(data@.subrange(pos as int, len as int).len() == 0);
                }
            }
        }
        return Result::Err(KoshaError::StorageUnavailable);
    }
    proof {
        let kv = str_seq_view(keys@);
        let gv = packed_groups_view(groups@);
        assert(keys@.len() as u64 == n);
        assert(data@.subrange(0, len as int) =~= data@);
        assert(ser_store(kv, gv) == data@);
        assert(wf_store(kv, gv));
    }
    Result::Ok((keys, groups))
}

} // verus!
