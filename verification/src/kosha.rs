//! The store: a single-use, ordered `Builder` and the immutable `Kosha`.
//!
//! A `Builder` accepts `(key, record)` pairs in non-decreasing key order —
//! ties are allowed, so homographs share a key when inserted consecutively —
//! encodes each record through the codec, and on its single `finish` seals
//! the structure into the serialized form of [`crate::disk`]. A `Kosha`
//! loads such bytes read-only, fails closed on anything malformed, and
//! answers exact-key, prefix, and multi-record queries. It never mutates
//! after loading.

use vstd::prelude::*;
use crate::disk::{packed_groups_view, packed_seq_view, parse_store, ser_store, serialize_store};
use crate::disk::{lemma_ser_store_injective, no_store_at, str_seq_view, wf_store};
use crate::errors::KoshaError;
use crate::packing::{encode, pack_pada, lemma_pack_preserves_wf, PackedPada, PackedPadaView};
use crate::semantics::{wf_pada_view, Pada};
use crate::text::{ascii_text, is_prefix_of, lex_le, lex_lt, str_eq, str_has_prefix, str_le};
use crate::text::lemma_lex_lt_le_transitive;
use vstd::string::StrSliceExecFns;

verus! {

/// Whether `key` may follow the keys already inserted: keys arrive in
/// non-decreasing order, with ties allowed for homographs.
pub open spec fn can_insert(keys: Seq<Seq<char>>, key: Seq<char>) -> bool {
    keys.len() == 0 || lex_le(keys.last(), key)
}

/// The distinct keys after an insert: a repeated key merges with the last
/// entry, a new key is appended.
pub open spec fn keys_after_insert(keys: Seq<Seq<char>>, key: Seq<char>) -> Seq<Seq<char>> {
    if keys.len() > 0 && keys.last() == key {
        keys
    } else {
        keys.push(key)
    }
}

/// The record groups after an insert: a repeated key extends the last
/// group, a new key opens a group of one record.
pub open spec fn groups_after_insert(
    keys: Seq<Seq<char>>,
    groups: Seq<Seq<PackedPadaView>>,
    key: Seq<char>,
    rec: PackedPadaView,
) -> Seq<Seq<PackedPadaView>> {
    if keys.len() > 0 && keys.last() == key {
        groups.update(groups.len() - 1, groups.last().push(rec))
    } else {
        groups.push(seq![rec])
    }
}

/// One-shot, ordered writer for a new store.
///
/// An exclusive, single-use resource: after `finish`, every further
/// `insert` or `finish` fails with `AlreadyFinishedError`.
pub struct Builder {
    keys: Vec<String>,
    groups: Vec<Vec<PackedPada>>,
    finished: bool,
}

impl Builder {
    /// The distinct keys inserted so far, in ascending order.
    pub closed spec fn key_seq(&self) -> Seq<Seq<char>> {
        str_seq_view(self.keys@)
    }

    /// The packed records inserted so far, grouped by key, each group in
    /// insertion order.
    pub closed spec fn group_seq(&self) -> Seq<Seq<PackedPadaView>> {
        packed_groups_view(self.groups@)
    }

    /// Whether `finish` was already called.
    pub closed spec fn is_finished(&self) -> bool {
        self.finished
    }

    /// The builder's entries form a well-formed store.
    pub open spec fn wf(&self) -> bool {
        wf_store(self.key_seq(), self.group_seq())
    }

    /// Create a new builder with no entries.
    pub fn new() -> (b: Builder)
        ensures
            b.wf(),
            !b.is_finished(),
            b.key_seq() == Seq::<Seq<char>>::empty(),
            b.group_seq() == Seq::<Seq<PackedPadaView>>::empty(),
    {
        let b = Builder { keys: Vec::new(), groups: Vec::new(), finished: false };
        proof {
            assert(b.key_seq() =~= Seq::<Seq<char>>::empty());
            assert(b.group_seq() =~= Seq::<Seq<PackedPadaView>>::empty());
        }
        b
    }

    /// Insert the given `(key, pada)` pair.
    ///
    /// Keys must arrive in non-decreasing byte-lexicographic order; equal
    /// keys accumulate homograph records under one entry. A key smaller
    /// than the last one fails with `OrderingError` and leaves the entries
    /// untouched; an insert after `finish` fails with
    /// `AlreadyFinishedError`.
    pub fn insert(&mut self, key: &str, pada: &Pada) -> (r: Result<(), KoshaError>)
        requires
            old(self).wf(),
            ascii_text(key@),
            wf_pada_view(pada@),
        ensures
            final(self).wf(),
            final(self).is_finished() == old(self).is_finished(),
            (r == Ok::<(), KoshaError>(())) <==> (!old(self).is_finished() && can_insert(
                old(self).key_seq(),
                key@,
            )),
            old(self).is_finished() ==> ({
                &&& r == Err::<(), KoshaError>(KoshaError::AlreadyFinishedError)
                &&& final(self).key_seq() == old(self).key_seq()
                &&& final(self).group_seq() == old(self).group_seq()
            }),
            !old(self).is_finished() && !can_insert(old(self).key_seq(), key@) ==> ({
                &&& r == Err::<(), KoshaError>(KoshaError::OrderingError)
                &&& final(self).key_seq() == old(self).key_seq()
                &&& final(self).group_seq() == old(self).group_seq()
            }),
            !old(self).is_finished() && can_insert(old(self).key_seq(), key@) ==> ({
                &&& final(self).key_seq() == keys_after_insert(old(self).key_seq(), key@)
                &&& final(self).group_seq() == groups_after_insert(
                    old(self).key_seq(),
                    old(self).group_seq(),
                    key@,
                    pack_pada(pada@),
                )
            }),
    {
        if self.finished {
            return Result::Err(KoshaError::AlreadyFinishedError);
        }
        let packed = encode(pada);
        let _text_len = packed.text.as_str().unicode_len();
        let _key_len = key.unicode_len();
        proof {
            lemma_pack_preserves_wf(pada@);
        }
        if self.keys.len() > 0 {
            let last_idx = self.keys.len() - 1;
            let order_ok = str_le(self.keys[last_idx].as_str(), key);
            if !order_ok {
                proof {
                    assert(self.key_seq().last() == self.keys@[last_idx as int]@);
                }
                return Result::Err(KoshaError::OrderingError);
            }
            let same = str_eq(self.keys[last_idx].as_str(), key);
            if same {
                let ghost old_groups = self.groups@;
                let mut g = match self.groups.pop() {
                    Option::Some(g) => g,
                    Option::None => {
                        proof {
                            assert(false);
                        }
                        return Result::Err(KoshaError::OrderingError);
                    },
                };
                g.push(packed);
                let _group_len = g.len();
                self.groups.push(g);
                proof {
                    let gv = packed_groups_view(old_groups);
                    assert(packed_seq_view(g@) =~= gv.last().push(packed@));
                    assert(self.group_seq() =~= groups_after_insert(
                        str_seq_view(self.keys@),
                        gv,
                        key@,
                        pack_pada(pada@),
                    ));
                    assert(self.wf()) by {
                        assert(forall|a: int|
                            0 <= a < gv.len() - 1 ==> self.group_seq()[a] == gv[a]);
                    }
                }
                return Result::Ok(());
            }
        }
        let ghost old_keys = self.keys@;
        let ghost old_groups = self.groups@;
        let mut g: Vec<PackedPada> = Vec::new();
        g.push(packed);
        self.keys.push(key.to_owned());
        self.groups.push(g);
        let _key_count = self.keys.len();
        proof {
            let kv = str_seq_view(old_keys);
            let gv = packed_groups_view(old_groups);
            assert(self.key_seq() =~= kv.push(key@));
            assert(packed_seq_view(g@) =~= seq![pack_pada(pada@)]);
            assert(self.group_seq() =~= gv.push(seq![pack_pada(pada@)]));
            if kv.len() > 0 {
                assert(kv.last() != key@);
                assert(lex_lt(kv.last(), key@));
            }
            assert(self.key_seq() == keys_after_insert(kv, key@));
            assert(self.group_seq() == groups_after_insert(kv, gv, key@, pack_pada(pada@)));
            assert forall|a: int, b: int|
                0 <= a < b < self.key_seq().len() implies lex_lt(
                self.key_seq()[a],
                self.key_seq()[b],
            ) by {
                if b == kv.len() as int {
                    if a < kv.len() - 1 {
                        lemma_lex_lt_le_transitive(kv[a], kv.last(), key@);
                    }
                }
            }
            assert(self.wf());
        }
        Result::Ok(())
    }

    /// Complete the build: seal the entries into their serialized form.
    ///
    /// The returned bytes are the one canonical serialization of the
    /// entries inserted, loadable by `Kosha::new`. A second call fails
    /// with `AlreadyFinishedError`.
    pub fn finish(&mut self) -> (r: Result<Vec<u8>, KoshaError>)
        requires
            old(self).wf(),
        ensures
            final(self).wf(),
            final(self).is_finished(),
            final(self).key_seq() == old(self).key_seq(),
            final(self).group_seq() == old(self).group_seq(),
            old(self).is_finished() ==> r == Err::<Vec<u8>, KoshaError>(
                KoshaError::AlreadyFinishedError,
            ),
            !old(self).is_finished() ==> match r {
                Result::Ok(bytes) => bytes@ == ser_store(old(self).key_seq(), old(self).group_seq()),
                Result::Err(_) => false,
            },
    {
        if self.finished {
            return Result::Err(KoshaError::AlreadyFinishedError);
        }
        self.finished = true;
        proof {
            assert forall|i: int| 0 <= i < self.keys@.len() implies ascii_text(
                #[trigger] self.keys@[i]@,
            ) by {
                assert(self.key_seq()[i] == self.keys@[i]@);
            }
            assert forall|i: int, j: int|
                0 <= i < self.groups@.len() && 0 <= j < self.groups@[i]@.len() implies ascii_text(
                (#[trigger] self.groups@[i]@[j])@.text,
            ) by {
                assert(self.group_seq()[i] == packed_seq_view(self.groups@[i]@));
                assert(self.group_seq()[i][j] == self.groups@[i]@[j]@);
            }
        }
        let bytes = serialize_store(&self.keys, &self.groups);
        Result::Ok(bytes)
    }
}

/// A compact, immutable store of packed records, loaded from the bytes a
/// finished `Builder` produced. Read-only for its whole lifetime.
pub struct Kosha {
    keys: Vec<String>,
    groups: Vec<Vec<PackedPada>>,
}

impl Kosha {
    /// The distinct keys of the store, in ascending order.
    pub closed spec fn key_seq(&self) -> Seq<Seq<char>> {
        str_seq_view(self.keys@)
    }

    /// The packed records of the store, grouped by key, each group in
    /// insertion order.
    pub closed spec fn group_seq(&self) -> Seq<Seq<PackedPadaView>> {
        packed_groups_view(self.groups@)
    }

    /// The store is well-formed.
    pub open spec fn wf(&self) -> bool {
        wf_store(self.key_seq(), self.group_seq())
    }

    /// At least one record is stored under exactly `key`.
    pub open spec fn has_key(&self, key: Seq<char>) -> bool {
        exists|i: int| 0 <= i < self.key_seq().len() && self.key_seq()[i] == key
    }

    /// At least one stored key has `prefix` as a literal prefix.
    pub open spec fn has_prefix(&self, prefix: Seq<char>) -> bool {
        exists|i: int|
            0 <= i < self.key_seq().len() && is_prefix_of(prefix, self.key_seq()[i])
    }

    /// The position of `key` among the stored keys.
    pub open spec fn key_index(&self, key: Seq<char>) -> int {
        choose|i: int| 0 <= i < self.key_seq().len() && self.key_seq()[i] == key
    }

    /// The records stored under `key`, in insertion order; empty when the
    /// key is absent.
    pub open spec fn records_for(&self, key: Seq<char>) -> Seq<PackedPadaView> {
        if self.has_key(key) {
            self.group_seq()[self.key_index(key)]
        } else {
            Seq::empty()
        }
    }

    /// Load a store from its serialized bytes.
    ///
    /// Succeeds on exactly the serializations of well-formed stores: a
    /// store that loads serializes back to the given bytes, byte for byte,
    /// and anything else — an empty or truncated input among it — fails
    /// closed with `StorageUnavailable`. No partially usable store is ever
    /// returned.
    pub fn new(data: &[u8]) -> (r: Result<Kosha, KoshaError>)
        ensures
            match r {
                Result::Ok(k) => k.wf() && ser_store(k.key_seq(), k.group_seq()) == data@,
                Result::Err(e) => e == KoshaError::StorageUnavailable && no_store_at(data@),
            },
    {
        match parse_store(data) {
            Result::Ok(kg) => Result::Ok(Kosha { keys: kg.0, groups: kg.1 }),
            Result::Err(e) => Result::Err(e),
        }
    }

    /// Whether the store holds at least one record under exactly `key`.
    pub fn contains_key(&self, key: &str) -> (r: bool)
        ensures
            r == self.has_key(key@),
    {
        let n = self.keys.len();
        let mut i: usize = 0;
        while i < n
            invariant
                i <= n,
                n == self.keys@.len(),
                forall|a: int| 0 <= a < i ==> self.key_seq()[a] != key@,
            decreases n - i,
        {
            if str_eq(self.keys[i].as_str(), key) {
                proof {
                    assert(self.key_seq()[i as int] == key@);
                }
                return true;
            }
            i = i + 1;
        }
        false
    }

    /// Whether at least one stored key begins with `prefix`.
    pub fn contains_prefix(&self, prefix: &str) -> (r: bool)
        ensures
            r == self.has_prefix(prefix@),
    {
        let n = self.keys.len();
        let mut i: usize = 0;
        while i < n
            invariant
                i <= n,
                n == self.keys@.len(),
                forall|a: int| 0 <= a < i ==> !is_prefix_of(prefix@, self.key_seq()[a]),
            decreases n - i,
        {
            if str_has_prefix(prefix, self.keys[i].as_str()) {
                proof {
                    assert(is_prefix_of(prefix@, self.key_seq()[i as int]));
                }
                return true;
            }
            i = i + 1;
        }
        false
    }

    /// All records stored under `key`, in insertion order. An absent key
    /// gives an empty vector, not an error.
    pub fn get_all(&self, key: &str) -> (r: Vec<PackedPada>)
        requires
            self.wf(),
        ensures
            packed_seq_view(r@) == self.records_for(key@),
    {
        let n = self.keys.len();
        let mut i: usize = 0;
        while i < n
            invariant
                i <= n,
                n == self.keys@.len(),
                self.wf(),
                forall|a: int| 0 <= a < i ==> self.key_seq()[a] != key@,
            decreases n - i,
        {
            if str_eq(self.keys[i].as_str(), key) {
                let g: &Vec<PackedPada> = &self.groups[i];
                let m = g.len();
                let mut out: Vec<PackedPada> = Vec::new();
                let mut j: usize = 0;
                while j < m
                    invariant
                        j <= m,
                        m == g@.len(),
                        packed_seq_view(out@) == packed_seq_view(g@).subrange(0, j as int),
                    decreases m - j,
                {
                    let ghost out_prev = out@;
                    let rec = g[j].clone();
                    out.push(rec);
                    proof {
                        assert(out@ == out_prev.push(rec));
                        assert(packed_seq_view(out_prev).len() == out_prev.len());
                        assert(out_prev.len() == j);
                        assert forall|a: int| 0 <= a < out@.len() implies #[trigger] packed_seq_view(
                            out@,
                        )[a] == packed_seq_view(g@).subrange(0, j + 1)[a] by {
                            if a < j {
                                assert(out_prev.push(rec)[a] == out_prev[a]);
                                assert(packed_seq_view(out_prev)[a] == packed_seq_view(
                                    g@,
                                ).subrange(0, j as int)[a]);
                                assert(packed_seq_view(out@)[a] == out@[a]@);
                                assert(packed_seq_view(out_prev)[a] == out_prev[a]@);
                            } else {
                                assert(a == j);
                                assert(out_prev.push(rec)[a] == rec);
                                assert(packed_seq_view(out@)[a] == out@[a]@);
                                assert(rec@ == g@[j as int]@);
                            }
                        }
                        assert(packed_seq_view(out@) =~= packed_seq_view(g@).subrange(0, j + 1));
                    }
                    j = j + 1;
                }
                proof {
                    assert(self.key_seq()[i as int] == key@);
                    assert(self.has_key(key@));
                    let ki = self.key_index(key@);
                    assert(0 <= ki < self.key_seq().len() && self.key_seq()[ki] == key@);
                    assert(ki == i as int) by {
                        if ki < i as int {
                            assert(lex_lt(self.key_seq()[ki], self.key_seq()[i as int]));
                        }
                        if ki > i as int {
                            assert(lex_lt(self.key_seq()[i as int], self.key_seq()[ki]));
                        }
                    }
                    assert(packed_seq_view(out@) =~= self.group_seq()[i as int]);
                }
                return out;
            }
            i = i + 1;
        }
        proof {
            assert(!self.has_key(key@));
            assert(packed_seq_view(Seq::<PackedPada>::empty()) =~= Seq::<
                PackedPadaView,
            >::empty());
        }
        Vec::new()
    }
}

/// The bytes of a finished builder always load: they are the serialization
/// of the builder's well-formed store, so `Kosha::new` cannot report
/// `StorageUnavailable` on them.
pub proof fn lemma_finished_bytes_load(
    keys: Seq<Seq<char>>,
    groups: Seq<Seq<PackedPadaView>>,
    data: Seq<u8>,
)
    requires
        wf_store(keys, groups),
        ser_store(keys, groups) == data,
    ensures
        !no_store_at(data),
{
    assert(wf_store(keys, groups) && ser_store(keys, groups) == data);
}

/// A loaded store answers for exactly the entries whose serialization it
/// was given: if a well-formed store's bytes load as a `Kosha`, the kosha
/// holds that store's keys and records, nothing else.
pub proof fn lemma_load_faithful(
    k: Kosha,
    keys: Seq<Seq<char>>,
    groups: Seq<Seq<PackedPadaView>>,
    data: Seq<u8>,
)
    requires
        k.wf(),
        wf_store(keys, groups),
        ser_store(k.key_seq(), k.group_seq()) == data,
        ser_store(keys, groups) == data,
    ensures
        k.key_seq() == keys,
        k.group_seq() == groups,
{
    lemma_ser_store_injective(k.key_seq(), k.group_seq(), keys, groups);
}

} // verus!
