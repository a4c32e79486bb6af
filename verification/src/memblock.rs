//! The mutable write buffer: an in-memory table of byte-string key/value
//! pairs. Keys are unique; inserting an existing key overwrites its value.
//! The running byte total counts every accepted insert, overwrites included,
//! so it tracks total bytes ever inserted rather than live payload size.
//!
//! Entries are kept in strictly ascending byte-lexicographic key order, which
//! is exactly the order the serialized form requires.

use vstd::prelude::*;
use vstd::map::*;

use crate::bytes::bytes_eq;
use crate::bytes::lemma_be_at_append;
use crate::bytes::lemma_be_at_prefix;
use crate::bytes::lemma_lex_lt_asymmetric;
use crate::bytes::lemma_lex_lt_total;
use crate::bytes::lemma_lex_lt_transitive;
use crate::bytes::lemma_subrange_append;
use crate::bytes::lemma_subrange_prefix;
use crate::bytes::lex_lt;
use crate::bytes::lex_lt_bytes;
use crate::bytes::push_bytes;
use crate::bytes::push_u32_be;
use crate::bytes::u32_to_be;
use crate::format::buf_count;
use crate::format::buf_key;
use crate::format::buf_key_len;
use crate::format::buf_key_off;
use crate::format::buf_lookup;
use crate::format::buf_matches;
use crate::format::buf_value;
use crate::format::buf_value_len;
use crate::format::buf_value_off;
use crate::format::buf_wf;
use crate::format::encoded_len;
use crate::format::index_in_bounds;
use crate::format::key_record_pos;
use crate::format::keys_distinct;
use crate::format::keys_sorted;
use crate::format::lemma_buf_lookup_matches;
use crate::format::lemma_encoded_len_formula;
use crate::format::lemma_entries_lookup_hit;
use crate::format::lemma_entries_lookup_miss;
use crate::format::lemma_payload_insert;
use crate::format::lemma_payload_update;
use crate::format::lemma_record_pos_bounds;
use crate::format::lemma_sorted_implies_distinct;
use crate::format::payload_len;
use crate::format::value_record_pos;

verus! {

broadcast use vstd::set::group_set_axioms;

/// The mapping stored by a sequence of key/value entries, later entries
/// overriding earlier ones with the same key.
pub open spec fn kvs_of(s: Seq<(Seq<u8>, Seq<u8>)>) -> Map<Seq<u8>, Seq<u8>>
    decreases s.len(),
{
    if s.len() == 0 {
        Map::empty()
    } else {
        kvs_of(s.drop_last()).insert(s.last().0, s.last().1)
    }
}

/// For entries with distinct keys, the stored mapping holds exactly the
/// entries' keys, each bound to that entry's value, one per entry.
pub proof fn lemma_kvs_of_distinct(s: Seq<(Seq<u8>, Seq<u8>)>)
    requires
        keys_distinct(s),
    ensures
        kvs_of(s).dom().finite(),
        kvs_of(s).dom().len() == s.len(),
        forall|k: Seq<u8>| #[trigger]
            kvs_of(s).contains_key(k) ==> exists|i: int| 0 <= i < s.len() && s[i].0 == k,
        forall|i: int|
            0 <= i < s.len() ==> kvs_of(s).contains_key(#[trigger] s[i].0) && kvs_of(s)[s[i].0]
                == s[i].1,
    decreases s.len(),
{
    if s.len() > 0 {
        let t = s.drop_last();
        let last = s.last();
        assert(keys_distinct(t)) by {
            assert(forall|i: int| 0 <= i < t.len() ==> t[i] == s[i]);
        }
        lemma_kvs_of_distinct(t);
        assert(!kvs_of(t).contains_key(last.0)) by {
            if kvs_of(t).contains_key(last.0) {
                let i = choose|i: int| 0 <= i < t.len() && t[i].0 == last.0;
                assert(s[i].0 == s[s.len() - 1].0);
            }
        }
        assert forall|k: Seq<u8>| #[trigger]
            kvs_of(s).contains_key(k) implies exists|i: int| 0 <= i < s.len() && s[i].0 == k by {
            if k == last.0 {
                assert(s[s.len() - 1].0 == k);
            } else {
                let i = choose|i: int| 0 <= i < t.len() && t[i].0 == k;
                assert(s[i].0 == k);
            }
        }
        assert forall|i: int| 0 <= i < s.len() implies kvs_of(s).contains_key(#[trigger] s[i].0)
            && kvs_of(s)[s[i].0] == s[i].1 by {
            if i < s.len() - 1 {
                assert(t[i] == s[i]);
                assert(s[i].0 != last.0);
            }
        }
    }
}

/// A sequence that holds the binding `(k, v)` plus exactly the bindings of
/// `s0` whose key is not `k` stores the mapping of `s0` with `k` bound to
/// `v`.
proof fn lemma_kvs_insert_binding(
    s0: Seq<(Seq<u8>, Seq<u8>)>,
    s1: Seq<(Seq<u8>, Seq<u8>)>,
    k: Seq<u8>,
    v: Seq<u8>,
)
    requires
        keys_distinct(s0),
        keys_distinct(s1),
        exists|t: int| 0 <= t < s1.len() && s1[t] == (k, v),
        forall|i: int|
            0 <= i < s1.len() && (#[trigger] s1[i]).0 != k ==> exists|j: int|
                0 <= j < s0.len() && s0[j] == s1[i],
        forall|j: int|
            0 <= j < s0.len() && (#[trigger] s0[j]).0 != k ==> exists|i: int|
                0 <= i < s1.len() && s1[i] == s0[j],
    ensures
        kvs_of(s1) == kvs_of(s0).insert(k, v),
{
    lemma_kvs_of_distinct(s0);
    lemma_kvs_of_distinct(s1);
    let t = choose|t: int| 0 <= t < s1.len() && s1[t] == (k, v);
    let m1 = kvs_of(s1);
    let m2 = kvs_of(s0).insert(k, v);
    assert_maps_equal!(m1, m2, key => {
        if key == k {
            assert(s1[t].0 == k);
            assert(kvs_of(s1).contains_key(k) && kvs_of(s1)[k] == v);
        } else {
            if kvs_of(s1).contains_key(key) {
                let i = choose|i: int| 0 <= i < s1.len() && s1[i].0 == key;
                assert(s1[i].0 != k);
                let j = choose|j: int| 0 <= j < s0.len() && s0[j] == s1[i];
                assert(kvs_of(s0).contains_key(key) && kvs_of(s0)[key] == s0[j].1);
                assert(kvs_of(s1)[key] == s1[i].1);
            }
            if kvs_of(s0).contains_key(key) {
                let j = choose|j: int| 0 <= j < s0.len() && s0[j].0 == key;
                assert(s0[j].0 != k);
                let i = choose|i: int| 0 <= i < s1.len() && s1[i] == s0[j];
                assert(kvs_of(s1).contains_key(key));
            }
        }
    });
}

/// Overwriting the entry at `idx`, whose key is already `k`, with the
/// binding `(k, v)` keeps the key order and stores the old mapping with `k`
/// rebound to `v`; the payload changes by the value-length difference.
proof fn lemma_replace_entry(s0: Seq<(Seq<u8>, Seq<u8>)>, idx: int, k: Seq<u8>, v: Seq<u8>)
    requires
        keys_sorted(s0),
        0 <= idx < s0.len(),
        s0[idx].0 == k,
    ensures
        keys_sorted(s0.update(idx, (k, v))),
        kvs_of(s0.update(idx, (k, v))) == kvs_of(s0).insert(k, v),
        kvs_of(s0).contains_key(k),
        payload_len(s0.update(idx, (k, v))) == payload_len(s0) + v.len() - s0[idx].1.len(),
        s0.update(idx, (k, v)).len() == s0.len(),
{
    let s1 = s0.update(idx, (k, v));
    lemma_sorted_implies_distinct(s0);
    lemma_kvs_of_distinct(s0);
    assert(keys_sorted(s1)) by {
        assert(forall|j: int| 0 <= j < s1.len() ==> (#[trigger] s1[j]).0 == s0[j].0);
    }
    lemma_sorted_implies_distinct(s1);
    lemma_payload_update(s0, idx, (k, v), s0.len() as int);
    assert(s1[idx] == (k, v));
    assert forall|i: int|
        0 <= i < s1.len() && (#[trigger] s1[i]).0 != k implies exists|j: int|
        0 <= j < s0.len() && s0[j] == s1[i] by {
        assert(s0[i] == s1[i]);
    }
    assert forall|j: int|
        0 <= j < s0.len() && (#[trigger] s0[j]).0 != k implies exists|i: int|
        0 <= i < s1.len() && s1[i] == s0[j] by {
        assert(s1[j] == s0[j]);
    }
    lemma_kvs_insert_binding(s0, s1, k, v);
}

/// Inserting the binding `(k, v)` at its ordered position `idx` keeps the
/// key order and stores the old mapping with the fresh key `k` bound to
/// `v`; the payload grows by the binding's lengths.
#[verifier::rlimit(100)]
#[verifier::spinoff_prover]
proof fn lemma_insert_entry(s0: Seq<(Seq<u8>, Seq<u8>)>, idx: int, k: Seq<u8>, v: Seq<u8>)
    requires
        keys_sorted(s0),
        0 <= idx <= s0.len(),
        forall|j: int| 0 <= j < idx ==> lex_lt((#[trigger] s0[j]).0, k),
        idx < s0.len() ==> lex_lt(k, s0[idx].0),
    ensures
        keys_sorted(s0.insert(idx, (k, v))),
        kvs_of(s0.insert(idx, (k, v))) == kvs_of(s0).insert(k, v),
        !kvs_of(s0).contains_key(k),
        payload_len(s0.insert(idx, (k, v))) == payload_len(s0) + k.len() + v.len(),
        s0.insert(idx, (k, v)).len() == s0.len() + 1,
{
    let kv = (k, v);
    let s1 = s0.insert(idx, kv);
    lemma_sorted_implies_distinct(s0);
    lemma_kvs_of_distinct(s0);
    s0.insert_ensures(idx, kv);
    assert(s1[idx] == kv);
    assert(keys_sorted(s1)) by {
        assert forall|i: int, j: int| 0 <= i < j < s1.len() implies lex_lt(
            (#[trigger] s1[i]).0,
            (#[trigger] s1[j]).0,
        ) by {
            assert(s1[i] == if i < idx {
                s0[i]
            } else if i == idx {
                kv
            } else {
                s0[i - 1]
            });
            assert(s1[j] == if j < idx {
                s0[j]
            } else if j == idx {
                kv
            } else {
                s0[j - 1]
            });
            if i == idx && j > idx {
                if j - 1 > idx {
                    lemma_lex_lt_transitive(k, s0[idx].0, s0[j - 1].0);
                }
            } else if i < idx && j > idx {
                if j - 1 == idx {
                    lemma_lex_lt_transitive(s0[i].0, k, s0[j - 1].0);
                }
            }
        }
    }
    lemma_payload_insert(s0, idx, kv, s0.len() + 1 as int);
    assert(!kvs_of(s0).contains_key(k)) by {
        if kvs_of(s0).contains_key(k) {
            let j = choose|j: int| 0 <= j < s0.len() && s0[j].0 == k;
            if j < idx {
                lemma_lex_lt_asymmetric(s0[j].0, k);
            } else if j == idx {
                lemma_lex_lt_asymmetric(k, s0[idx].0);
            } else {
                lemma_lex_lt_transitive(k, s0[idx].0, s0[j].0);
                lemma_lex_lt_asymmetric(k, s0[j].0);
            }
        }
    }
    lemma_sorted_implies_distinct(s1);
    assert forall|i: int|
        0 <= i < s1.len() && (#[trigger] s1[i]).0 != k implies exists|j: int|
        0 <= j < s0.len() && s0[j] == s1[i] by {
        if i < idx {
            assert(s0[i] == s1[i]);
        } else {
            assert(s0[i - 1] == s1[i]);
        }
    }
    assert forall|j: int|
        0 <= j < s0.len() && (#[trigger] s0[j]).0 != k implies exists|i: int|
        0 <= i < s1.len() && s1[i] == s0[j] by {
        if j < idx {
            assert(s1[j] == s0[j]);
        } else {
            assert(s1[j + 1] == s0[j]);
        }
    }
    lemma_kvs_insert_binding(s0, s1, k, v);
}

/// The mutable staging area for key/value pairs prior to encoding. Created
/// empty, mutated only through `insert`, read through `size` and `get`, and
/// consumed once by `serialize`.
pub struct MemBlock {
    entries: Vec<(Vec<u8>, Vec<u8>)>,
    byte_count: usize,
}

impl View for MemBlock {
    type V = Map<Seq<u8>, Seq<u8>>;

    open spec fn view(&self) -> Map<Seq<u8>, Seq<u8>> {
        kvs_of(self.entries_view())
    }
}

impl MemBlock {
    /// The stored entries as mathematical byte strings, in storage order.
    pub closed spec fn entries_view(self) -> Seq<(Seq<u8>, Seq<u8>)> {
        self.entries@.map_values(|p: (Vec<u8>, Vec<u8>)| (p.0@, p.1@))
    }

    /// Internal invariant: entries are kept in strictly ascending
    /// byte-lexicographic key order, so keys are unique; and the live
    /// payload never exceeds the running byte total.
    pub open spec fn wf(self) -> bool {
        &&& keys_sorted(self.entries_view())
        &&& payload_len(self.entries_view()) <= self.stored_bytes()
    }

    /// The number of distinct keys currently stored.
    pub open spec fn num_entries(self) -> int {
        self.entries_view().len() as int
    }

    /// The serialized form of a well-formed table takes at most the count
    /// field, sixteen bytes of fixed fields per entry, and the running byte
    /// total.
    pub proof fn lemma_encoded_len_bound(self)
        requires
            self.wf(),
        ensures
            encoded_len(self.entries_view()) <= 4 + 16 * self.num_entries() + self.stored_bytes(),
    {
        lemma_encoded_len_formula(self.entries_view());
    }

    /// The running byte total: the summed key and value lengths of every
    /// insert ever accepted, with no credit for overwritten values.
    pub closed spec fn stored_bytes(self) -> nat {
        self.byte_count as nat
    }

    /// Creates an empty table: no bindings, byte total zero.
    pub fn new() -> (r: MemBlock)
        ensures
            r.wf(),
            r@ == Map::<Seq<u8>, Seq<u8>>::empty(),
            r.entries_view() == Seq::<(Seq<u8>, Seq<u8>)>::empty(),
            r.stored_bytes() == 0,
    {
        let r = MemBlock { entries: Vec::new(), byte_count: 0 };
        proof {
            assert(r.entries_view() =~= Seq::<(Seq<u8>, Seq<u8>)>::empty());
        }
        r
    }

    /// The running byte total.
    pub fn size(&self) -> (r: usize)
        ensures
            r == self.stored_bytes(),
    {
        self.byte_count
    }

    /// The value currently bound to `key`, or nothing when `key` is absent.
    pub fn get(&self, key: &Vec<u8>) -> (r: Option<&Vec<u8>>)
        requires
            self.wf(),
        ensures
            match r {
                Some(v) => self@.contains_key(key@) && v@ == self@[key@],
                None => !self@.contains_key(key@),
            },
    {
        proof {
            lemma_sorted_implies_distinct(self.entries_view());
            lemma_kvs_of_distinct(self.entries_view());
        }
        let n = self.entries.len();
        let mut i: usize = 0;
        while i < n
            invariant
                self.wf(),
                n == self.entries.len(),
                i <= n,
                forall|j: int| 0 <= j < i ==> (#[trigger] self.entries_view()[j]).0 != key@,
            decreases n - i,
        {
            if bytes_eq(self.entries[i].0.as_slice(), key.as_slice()) {
                proof {
                    lemma_sorted_implies_distinct(self.entries_view());
                    lemma_kvs_of_distinct(self.entries_view());
                    assert(self.entries_view()[i as int].0 == key@);
                }
                return Some(&self.entries[i].1);
            }
            i = i + 1;
        }
        proof {
            if self@.contains_key(key@) {
                let j = choose|j: int|
                    0 <= j < self.entries_view().len() && self.entries_view()[j].0 == key@;
                assert(self.entries_view()[j].0 != key@);
            }
        }
        None
    }

    /// Binds `key` to `value`, overwriting any earlier binding of `key`, and
    /// unconditionally adds `key.len() + value.len()` to the byte total.
    pub fn insert(&mut self, key: Vec<u8>, value: Vec<u8>)
        requires
            old(self).wf(),
            old(self).stored_bytes() + key@.len() + value@.len() <= usize::MAX,
        ensures
            final(self).wf(),
            final(self)@ == old(self)@.insert(key@, value@),
            final(self).stored_bytes() == old(self).stored_bytes() + key@.len() + value@.len(),
            final(self).num_entries() == old(self).num_entries() + (if old(self)@.contains_key(
                key@,
            ) {
                0int
            } else {
                1int
            }),
    {
        self.byte_count = self.byte_count + key.len() + value.len();
        let ghost s0 = self.entries_view();
        let n = self.entries.len();
        let mut idx: usize = 0;
        while idx < n
            invariant_except_break
                n == self.entries.len(),
                self.entries_view() == s0,
                idx <= n,
                forall|j: int| 0 <= j < idx ==> lex_lt((#[trigger] s0[j]).0, key@),
            ensures
                n == self.entries.len(),
                self.entries_view() == s0,
                idx <= n,
                forall|j: int| 0 <= j < idx ==> lex_lt((#[trigger] s0[j]).0, key@),
                idx < n ==> !lex_lt(s0[idx as int].0, key@),
            decreases n - idx,
        {
            if !lex_lt_bytes(self.entries[idx].0.as_slice(), key.as_slice()) {
                break ;
            }
            idx = idx + 1;
        }
        if idx < n && bytes_eq(self.entries[idx].0.as_slice(), key.as_slice()) {
            let ghost kv = (key@, value@);
            proof {
                assert(s0[idx as int].0 == key@);
                lemma_replace_entry(s0, idx as int, key@, value@);
            }
            self.entries[idx] = (key, value);
            proof {
                assert(self.entries_view() =~= s0.update(idx as int, kv));
            }
        } else {
            let ghost kv = (key@, value@);
            proof {
                if idx < n {
                    assert(s0[idx as int].0 != key@);
                    lemma_lex_lt_total(key@, s0[idx as int].0);
                }
                lemma_insert_entry(s0, idx as int, key@, value@);
            }
            self.entries.insert(idx, (key, value));
            proof {
                assert(self.entries_view() =~= s0.insert(idx as int, kv));
            }
        }
    }

    /// Consumes the table and encodes it: the big-endian u32 key count, the
    /// key-record offsets in ascending key order, the key records, then the
    /// value records. The result is a structurally well-formed buffer of
    /// exactly the computed length that stores this table's bindings with
    /// keys strictly ascending, every record at its computed offset, and on
    /// which a reader lookup answers exactly as the table did.
    #[verifier::rlimit(100)]
    pub fn serialize(self) -> (r: Vec<u8>)
        requires
            self.wf(),
            encoded_len(self.entries_view()) <= u32::MAX,
        ensures
            buf_matches(r@, self.entries_view()),
            r@.len() == encoded_len(self.entries_view()),
            buf_count(r@) as int == self@.dom().len(),
            forall|i: int|
                0 <= i < self.entries_view().len() ==> #[trigger] buf_key_off(r@, i)
                    == key_record_pos(self.entries_view(), i) && buf_value_off(r@, i)
                    == value_record_pos(self.entries_view(), i),
            forall|i: int, j: int|
                0 <= i < j < buf_count(r@) ==> lex_lt(buf_key(r@, i), buf_key(r@, j)),
            forall|k: Seq<u8>| #[trigger]
                self@.contains_key(k) ==> buf_lookup(r@, k) == Some(self@[k]),
            forall|k: Seq<u8>| !(#[trigger] self@.contains_key(k)) ==> buf_lookup(r@, k) is None,
    {
        let ghost s = self.entries_view();
        proof {
            lemma_sorted_implies_distinct(s);
            lemma_kvs_of_distinct(s);
            lemma_record_pos_bounds(s, 0);
        }
        let n = self.entries.len();
        let mut out: Vec<u8> = Vec::new();
        push_u32_be(&mut out, n as u32);
        proof {
            lemma_be_at_append(Seq::<u8>::empty(), n as u32);
            assert(out@ =~= Seq::<u8>::empty() + u32_to_be(n as u32));
        }
        // The index region: one offset per key, each computed from the
        // running end of the key records laid out so far.
        let mut off: u32 = 4 + 4 * (n as u32);
        let mut i: usize = 0;
        while i < n
            invariant
                i <= n,
                n == self.entries.len(),
                s == self.entries_view(),
                n == s.len(),
                keys_sorted(s),
                encoded_len(s) <= u32::MAX,
                out@.len() == 4 + 4 * (i as int),
                buf_count(out@) == n as u32,
                forall|j: int|
                    0 <= j < i ==> #[trigger] buf_key_off(out@, j) == key_record_pos(s, j),
                off as int == key_record_pos(s, i as int),
            decreases n - i,
        {
            proof {
                lemma_record_pos_bounds(s, i as int);
                lemma_record_pos_bounds(s, i + 1);
                assert(s[i as int] == (self.entries@[i as int].0@, self.entries@[i as int].1@));
            }
            let ghost o0 = out@;
            push_u32_be(&mut out, off);
            proof {
                lemma_be_at_append(o0, off);
                lemma_be_at_prefix(o0, u32_to_be(off), 0);
                assert(buf_key_off(out@, i as int) == key_record_pos(s, i as int));
                assert forall|j: int| 0 <= j < i implies #[trigger] buf_key_off(out@, j)
                    == key_record_pos(s, j) by {
                    assert(buf_key_off(o0, j) == key_record_pos(s, j));
                    lemma_be_at_prefix(o0, u32_to_be(off), 4 + 4 * j);
                }
            }
            let klen = self.entries[i].0.len();
            off = off + 8 + klen as u32;
            i = i + 1;
        }
        // The key records: for each key, its length, its bytes, and the
        // offset of its paired value record.
        let mut voff: u32 = off;
        let mut i: usize = 0;
        while i < n
            invariant
                i <= n,
                n == self.entries.len(),
                s == self.entries_view(),
                n == s.len(),
                keys_sorted(s),
                encoded_len(s) <= u32::MAX,
                out@.len() == key_record_pos(s, i as int),
                buf_count(out@) == n as u32,
                forall|j: int|
                    0 <= j < n ==> #[trigger] buf_key_off(out@, j) == key_record_pos(s, j),
                forall|j: int| 0 <= j < i ==> #[trigger] buf_key_len(out@, j) == s[j].0.len(),
                forall|j: int| 0 <= j < i ==> #[trigger] buf_key(out@, j) == s[j].0,
                forall|j: int|
                    0 <= j < i ==> #[trigger] buf_value_off(out@, j) == value_record_pos(s, j),
                voff as int == value_record_pos(s, i as int),
            decreases n - i,
        {
            proof {
                lemma_record_pos_bounds(s, i as int);
                lemma_record_pos_bounds(s, i + 1);
                assert(s[i as int] == (self.entries@[i as int].0@, self.entries@[i as int].1@));
            }
            let ghost o0 = out@;
            let klen = self.entries[i].0.len();
            push_u32_be(&mut out, klen as u32);
            let ghost o1 = out@;
            push_bytes(&mut out, self.entries[i].0.as_slice());
            let ghost o2 = out@;
            push_u32_be(&mut out, voff);
            let ghost o3 = out@;
            proof {
                let ki = i as int;
                let krp = key_record_pos(s, ki);
                let kseq = s[ki].0;
                assert(o1 == o0 + u32_to_be(klen as u32));
                assert(o2 == o1 + kseq);
                assert(o3 == o2 + u32_to_be(voff));
                // the fields of record `i`, read back at their positions
                lemma_be_at_append(o0, klen as u32);
                lemma_be_at_prefix(o1, kseq, krp);
                lemma_be_at_prefix(o2, u32_to_be(voff), krp);
                lemma_subrange_append(o1, kseq);
                lemma_subrange_prefix(o2, u32_to_be(voff), krp + 4, krp + 4 + kseq.len() as int);
                lemma_be_at_append(o2, voff);
                // the count and the index region lie before the appended tail
                lemma_be_at_prefix(o0, u32_to_be(klen as u32), 0);
                lemma_be_at_prefix(o1, kseq, 0);
                lemma_be_at_prefix(o2, u32_to_be(voff), 0);
                assert forall|j: int| 0 <= j < n implies #[trigger] buf_key_off(o3, j)
                    == key_record_pos(s, j) by {
                    assert(buf_key_off(o0, j) == key_record_pos(s, j));
                    lemma_be_at_prefix(o0, u32_to_be(klen as u32), 4 + 4 * j);
                    lemma_be_at_prefix(o1, kseq, 4 + 4 * j);
                    lemma_be_at_prefix(o2, u32_to_be(voff), 4 + 4 * j);
                }
                // earlier key records lie before the appended tail as well
                assert forall|j: int| 0 <= j < ki implies #[trigger] buf_key_len(o3, j)
                    == s[j].0.len() && buf_key(o3, j) == s[j].0 && buf_value_off(o3, j)
                    == value_record_pos(s, j) by {
                    let kj = key_record_pos(s, j);
                    let lj = s[j].0.len() as int;
                    lemma_record_pos_bounds(s, j);
                    crate::format::lemma_key_pos_le(s, j + 1, ki);
                    assert(key_record_pos(s, j + 1) == kj + 8 + lj);
                    assert(buf_key_off(o0, j) == kj);
                    assert(buf_key_len(o0, j) == s[j].0.len());
                    assert(buf_key(o0, j) == s[j].0);
                    assert(buf_value_off(o0, j) == value_record_pos(s, j));
                    lemma_be_at_prefix(o0, u32_to_be(klen as u32), kj);
                    lemma_be_at_prefix(o1, kseq, kj);
                    lemma_be_at_prefix(o2, u32_to_be(voff), kj);
                    lemma_subrange_prefix(o0, u32_to_be(klen as u32), kj + 4, kj + 4 + lj);
                    lemma_subrange_prefix(o1, kseq, kj + 4, kj + 4 + lj);
                    lemma_subrange_prefix(o2, u32_to_be(voff), kj + 4, kj + 4 + lj);
                    lemma_be_at_prefix(o0, u32_to_be(klen as u32), kj + 4 + lj);
                    lemma_be_at_prefix(o1, kseq, kj + 4 + lj);
                    lemma_be_at_prefix(o2, u32_to_be(voff), kj + 4 + lj);
                }
                assert(buf_key_off(o3, ki) == krp);
                assert(buf_key_len(o3, ki) == kseq.len());
                assert(buf_key(o3, ki) == kseq);
                assert(buf_value_off(o3, ki) == value_record_pos(s, ki));
            }
            voff = voff + 4 + self.entries[i].1.len() as u32;
            i = i + 1;
        }
        // The value records: for each value, its length and its bytes.
        let mut i: usize = 0;
        while i < n
            invariant
                i <= n,
                n == self.entries.len(),
                s == self.entries_view(),
                n == s.len(),
                keys_sorted(s),
                encoded_len(s) <= u32::MAX,
                out@.len() == value_record_pos(s, i as int),
                buf_count(out@) == n as u32,
                forall|j: int|
                    0 <= j < n ==> #[trigger] buf_key_off(out@, j) == key_record_pos(s, j),
                forall|j: int| 0 <= j < n ==> #[trigger] buf_key_len(out@, j) == s[j].0.len(),
                forall|j: int| 0 <= j < n ==> #[trigger] buf_key(out@, j) == s[j].0,
                forall|j: int|
                    0 <= j < n ==> #[trigger] buf_value_off(out@, j) == value_record_pos(s, j),
                forall|j: int| 0 <= j < i ==> #[trigger] buf_value_len(out@, j) == s[j].1.len(),
                forall|j: int| 0 <= j < i ==> #[trigger] buf_value(out@, j) == s[j].1,
            decreases n - i,
        {
            proof {
                lemma_record_pos_bounds(s, i as int);
                lemma_record_pos_bounds(s, i + 1);
                assert(s[i as int] == (self.entries@[i as int].0@, self.entries@[i as int].1@));
            }
            let ghost o0 = out@;
            let vlen = self.entries[i].1.len();
            push_u32_be(&mut out, vlen as u32);
            let ghost o1 = out@;
            push_bytes(&mut out, self.entries[i].1.as_slice());
            let ghost o2 = out@;
            proof {
                let ki = i as int;
                let vrp = value_record_pos(s, ki);
                let vseq = s[ki].1;
                assert(o1 == o0 + u32_to_be(vlen as u32));
                assert(o2 == o1 + vseq);
                // the fields of value record `i`, read back at their positions
                lemma_be_at_append(o0, vlen as u32);
                lemma_be_at_prefix(o1, vseq, vrp);
                lemma_subrange_append(o1, vseq);
                // everything written so far lies before the appended tail
                lemma_be_at_prefix(o0, u32_to_be(vlen as u32), 0);
                lemma_be_at_prefix(o1, vseq, 0);
                assert forall|j: int| 0 <= j < n implies #[trigger] buf_key_off(o2, j)
                    == key_record_pos(s, j) && buf_key_len(o2, j) == s[j].0.len() && buf_key(o2, j)
                    == s[j].0 && buf_value_off(o2, j) == value_record_pos(s, j) by {
                    let kj = key_record_pos(s, j);
                    let lj = s[j].0.len() as int;
                    lemma_record_pos_bounds(s, j);
                    crate::format::lemma_key_pos_le(s, j + 1, n as int);
                    crate::format::lemma_value_pos_le(s, 0, ki);
                    assert(key_record_pos(s, j + 1) == kj + 8 + lj);
                    assert(buf_key_off(o0, j) == kj);
                    assert(buf_key_len(o0, j) == s[j].0.len());
                    assert(buf_key(o0, j) == s[j].0);
                    assert(buf_value_off(o0, j) == value_record_pos(s, j));
                    lemma_be_at_prefix(o0, u32_to_be(vlen as u32), 4 + 4 * j);
                    lemma_be_at_prefix(o1, vseq, 4 + 4 * j);
                    lemma_be_at_prefix(o0, u32_to_be(vlen as u32), kj);
                    lemma_be_at_prefix(o1, vseq, kj);
                    lemma_subrange_prefix(o0, u32_to_be(vlen as u32), kj + 4, kj + 4 + lj);
                    lemma_subrange_prefix(o1, vseq, kj + 4, kj + 4 + lj);
                    lemma_be_at_prefix(o0, u32_to_be(vlen as u32), kj + 4 + lj);
                    lemma_be_at_prefix(o1, vseq, kj + 4 + lj);
                }
                assert forall|j: int| 0 <= j < ki implies #[trigger] buf_value_len(o2, j)
                    == s[j].1.len() && buf_value(o2, j) == s[j].1 by {
                    let vj = value_record_pos(s, j);
                    let lj = s[j].1.len() as int;
                    lemma_record_pos_bounds(s, j);
                    crate::format::lemma_value_pos_le(s, j + 1, ki);
                    assert(value_record_pos(s, j + 1) == vj + 4 + lj);
                    assert(buf_value_len(o0, j) == s[j].1.len());
                    assert(buf_value(o0, j) == s[j].1);
                    lemma_be_at_prefix(o0, u32_to_be(vlen as u32), vj);
                    lemma_be_at_prefix(o1, vseq, vj);
                    lemma_subrange_prefix(o0, u32_to_be(vlen as u32), vj + 4, vj + 4 + lj);
                    lemma_subrange_prefix(o1, vseq, vj + 4, vj + 4 + lj);
                }
                assert(buf_value_len(o2, ki) == vseq.len());
                assert(buf_value(o2, ki) == vseq);
            }
            i = i + 1;
        }
        proof {
            assert(out@.len() == encoded_len(s));
            assert(buf_count(out@) as int == s.len());
            assert(buf_wf(out@)) by {
                lemma_record_pos_bounds(s, 0);
                assert forall|i: int| 0 <= i < buf_count(out@) implies index_in_bounds(
                    out@,
                    i,
                ) by {
                    lemma_record_pos_bounds(s, i);
                    lemma_record_pos_bounds(s, i + 1);
                    crate::format::lemma_value_pos_le(s, i + 1, s.len() as int);
                    assert(key_record_pos(s, i + 1) == key_record_pos(s, i) + 8 + s[i].0.len());
                    assert(value_record_pos(s, i + 1) == value_record_pos(s, i) + 4 + s[i].1.len());
                }
            }
            assert(buf_matches(out@, s));
            assert forall|k: Seq<u8>| #[trigger] self@.contains_key(k) implies buf_lookup(out@, k)
                == Some(self@[k]) by {
                let i = choose|i: int| 0 <= i < s.len() && s[i].0 == k;
                lemma_entries_lookup_hit(s, k, 0, i);
                lemma_buf_lookup_matches(out@, s, k, 0);
            }
            assert forall|k: Seq<u8>| !(#[trigger] self@.contains_key(k)) implies buf_lookup(
                out@,
                k,
            ) is None by {
                assert forall|j: int| 0 <= j < s.len() implies s[j].0 != k by {
                    assert(self@.contains_key(s[j].0));
                }
                lemma_entries_lookup_miss(s, k, 0);
                lemma_buf_lookup_matches(out@, s, k, 0);
            }
        }
        out
    }
}

} // verus!
