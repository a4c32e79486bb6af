//! The sorted-string-table byte layout, stated over mathematical sequences.
//!
//! A serialized table is, in order: the big-endian u32 key count `N`; `N`
//! big-endian u32 absolute offsets of the key records, in ascending key
//! order; `N` key records, each `{u32 key length, key bytes, u32 value
//! offset}`; and `N` value records, each `{u32 value length, value bytes}`.
//! Every offset is an absolute byte position inside the same buffer,
//! pointing at the start of a record's length field.

use vstd::prelude::*;

use crate::bytes::be_at;
use crate::bytes::lex_lt;

verus! {

/// Entry keys appear in strictly ascending byte-lexicographic order.
pub open spec fn keys_sorted(s: Seq<(Seq<u8>, Seq<u8>)>) -> bool {
    forall|i: int, j: int| 0 <= i < j < s.len() ==> lex_lt(s[i].0, s[j].0)
}

/// No two entries share a key.
pub open spec fn keys_distinct(s: Seq<(Seq<u8>, Seq<u8>)>) -> bool {
    forall|i: int, j: int| 0 <= i < j < s.len() ==> s[i].0 != s[j].0
}

/// A strictly sorted entry sequence has distinct keys.
pub proof fn lemma_sorted_implies_distinct(s: Seq<(Seq<u8>, Seq<u8>)>)
    requires
        keys_sorted(s),
    ensures
        keys_distinct(s),
{
    assert forall|i: int, j: int| 0 <= i < j < s.len() implies s[i].0 != s[j].0 by {
        crate::bytes::lemma_lex_lt_asymmetric(s[i].0, s[j].0);
    }
}

/// First-match lookup among the entries, scanning from position `i` on.
pub open spec fn entries_lookup_from(
    s: Seq<(Seq<u8>, Seq<u8>)>,
    k: Seq<u8>,
    i: int,
) -> Option<Seq<u8>>
    recommends
        0 <= i <= s.len(),
    decreases s.len() - i,
{
    if i < 0 || i >= s.len() {
        None
    } else if s[i].0 == k {
        Some(s[i].1)
    } else {
        entries_lookup_from(s, k, i + 1)
    }
}

/// The byte position at which key record `i` begins: the index region holds
/// `4 + 4*N` bytes, and each earlier key record holds `8` bytes of fields
/// plus its key.
pub open spec fn key_record_pos(s: Seq<(Seq<u8>, Seq<u8>)>, i: int) -> int
    recommends
        0 <= i <= s.len(),
    decreases i,
{
    if i <= 0 {
        4 + 4 * (s.len() as int)
    } else {
        key_record_pos(s, i - 1) + 8 + s[i - 1].0.len()
    }
}

/// The byte position at which value record `i` begins: value records follow
/// the last key record, and each holds `4` bytes of length field plus its
/// value.
pub open spec fn value_record_pos(s: Seq<(Seq<u8>, Seq<u8>)>, i: int) -> int
    recommends
        0 <= i <= s.len(),
    decreases i,
{
    if i <= 0 {
        key_record_pos(s, s.len() as int)
    } else {
        value_record_pos(s, i - 1) + 4 + s[i - 1].1.len()
    }
}

/// The total length of the serialized form of `s`.
pub open spec fn encoded_len(s: Seq<(Seq<u8>, Seq<u8>)>) -> int {
    value_record_pos(s, s.len() as int)
}

/// Record positions grow with the index; every key record lies before the
/// value region and every position lies within the encoded length.
pub proof fn lemma_record_pos_bounds(s: Seq<(Seq<u8>, Seq<u8>)>, i: int)
    requires
        0 <= i <= s.len(),
    ensures
        4 + 4 * s.len() <= key_record_pos(s, i),
        i < s.len() ==> key_record_pos(s, i) + 8 + s[i].0.len() <= key_record_pos(
            s,
            s.len() as int,
        ),
        key_record_pos(s, i) <= key_record_pos(s, s.len() as int) <= value_record_pos(s, i),
        i < s.len() ==> value_record_pos(s, i) + 4 + s[i].1.len() <= encoded_len(s),
        value_record_pos(s, i) <= encoded_len(s),
{
    let n = s.len() as int;
    lemma_key_pos_le(s, 0, i);
    lemma_key_pos_le(s, i, n);
    lemma_value_pos_le(s, 0, i);
    lemma_value_pos_le(s, i, n);
    if i < n {
        assert(key_record_pos(s, i + 1) == key_record_pos(s, i) + 8 + s[i].0.len());
        lemma_key_pos_le(s, i + 1, n);
        assert(value_record_pos(s, i + 1) == value_record_pos(s, i) + 4 + s[i].1.len());
        lemma_value_pos_le(s, i + 1, n);
    }
}

/// Key record positions are monotonic in the index.
pub proof fn lemma_key_pos_le(s: Seq<(Seq<u8>, Seq<u8>)>, i: int, j: int)
    requires
        0 <= i <= j <= s.len(),
    ensures
        key_record_pos(s, i) <= key_record_pos(s, j),
    decreases j,
{
    if i < j {
        lemma_key_pos_le(s, i, j - 1);
    }
}

/// Value record positions are monotonic in the index.
pub proof fn lemma_value_pos_le(s: Seq<(Seq<u8>, Seq<u8>)>, i: int, j: int)
    requires
        0 <= i <= j <= s.len(),
    ensures
        value_record_pos(s, i) <= value_record_pos(s, j),
    decreases j,
{
    if i < j {
        lemma_value_pos_le(s, i, j - 1);
    }
}

/// The summed lengths of the first `i` keys.
pub open spec fn key_payload(s: Seq<(Seq<u8>, Seq<u8>)>, i: int) -> int
    recommends
        0 <= i <= s.len(),
    decreases i,
{
    if i <= 0 {
        0
    } else {
        key_payload(s, i - 1) + s[i - 1].0.len()
    }
}

/// The summed lengths of the first `i` values.
pub open spec fn value_payload(s: Seq<(Seq<u8>, Seq<u8>)>, i: int) -> int
    recommends
        0 <= i <= s.len(),
    decreases i,
{
    if i <= 0 {
        0
    } else {
        value_payload(s, i - 1) + s[i - 1].1.len()
    }
}

/// The summed key and value lengths of all entries.
pub open spec fn payload_len(s: Seq<(Seq<u8>, Seq<u8>)>) -> int {
    key_payload(s, s.len() as int) + value_payload(s, s.len() as int)
}

/// The record positions in closed form: fixed per-record field costs plus
/// the payload laid out so far.
pub proof fn lemma_pos_formula(s: Seq<(Seq<u8>, Seq<u8>)>, i: int)
    requires
        0 <= i <= s.len(),
    ensures
        key_record_pos(s, i) == 4 + 4 * (s.len() as int) + 8 * i + key_payload(s, i),
        value_record_pos(s, i) == key_record_pos(s, s.len() as int) + 4 * i + value_payload(s, i),
    decreases i,
{
    if i > 0 {
        lemma_pos_formula(s, i - 1);
    }
}

/// The total encoded length in closed form: the count field, sixteen bytes
/// of fixed fields per entry, and the payload.
pub proof fn lemma_encoded_len_formula(s: Seq<(Seq<u8>, Seq<u8>)>)
    ensures
        encoded_len(s) == 4 + 16 * (s.len() as int) + payload_len(s),
{
    lemma_pos_formula(s, s.len() as int);
}

/// Replacing entry `idx` changes the payload sums by the difference of the
/// old and new lengths.
pub proof fn lemma_payload_update(s: Seq<(Seq<u8>, Seq<u8>)>, idx: int, p: (Seq<u8>, Seq<u8>), i: int)
    requires
        0 <= idx < s.len(),
        0 <= i <= s.len(),
    ensures
        key_payload(s.update(idx, p), i) == key_payload(s, i) + (if idx < i {
            p.0.len() - s[idx].0.len()
        } else {
            0
        }),
        value_payload(s.update(idx, p), i) == value_payload(s, i) + (if idx < i {
            p.1.len() - s[idx].1.len()
        } else {
            0
        }),
    decreases i,
{
    if i > 0 {
        lemma_payload_update(s, idx, p, i - 1);
    }
}

/// Inserting an entry at `idx` adds its lengths to the payload sums.
pub proof fn lemma_payload_insert(s: Seq<(Seq<u8>, Seq<u8>)>, idx: int, p: (Seq<u8>, Seq<u8>), i: int)
    requires
        0 <= idx <= s.len(),
        0 <= i <= s.len() + 1,
    ensures
        key_payload(s.insert(idx, p), i) == if i <= idx {
            key_payload(s, i)
        } else {
            key_payload(s, i - 1) + p.0.len()
        },
        value_payload(s.insert(idx, p), i) == if i <= idx {
            value_payload(s, i)
        } else {
            value_payload(s, i - 1) + p.1.len()
        },
    decreases i,
{
    s.insert_ensures(idx, p);
    if i > 0 {
        lemma_payload_insert(s, idx, p, i - 1);
        if i - 1 < idx {
            assert(s.insert(idx, p)[i - 1] == s[i - 1]);
        } else if i - 1 == idx {
            assert(s.insert(idx, p)[i - 1] == p);
        } else {
            assert(s.insert(idx, p)[i - 1] == s[i - 2]);
        }
    }
}

/// The key count stored at the head of the buffer.
pub open spec fn buf_count(b: Seq<u8>) -> u32 {
    be_at(b, 0)
}

/// The absolute position of key record `i`, as stored in the index region.
pub open spec fn buf_key_off(b: Seq<u8>, i: int) -> int {
    be_at(b, 4 + 4 * i) as int
}

/// The length field of key record `i`.
pub open spec fn buf_key_len(b: Seq<u8>, i: int) -> int {
    be_at(b, buf_key_off(b, i)) as int
}

/// The bytes of key `i`.
pub open spec fn buf_key(b: Seq<u8>, i: int) -> Seq<u8> {
    b.subrange(buf_key_off(b, i) + 4, buf_key_off(b, i) + 4 + buf_key_len(b, i))
}

/// The absolute position of value record `i`, stored right after key `i`'s
/// bytes.
pub open spec fn buf_value_off(b: Seq<u8>, i: int) -> int {
    be_at(b, buf_key_off(b, i) + 4 + buf_key_len(b, i)) as int
}

/// The length field of value record `i`.
pub open spec fn buf_value_len(b: Seq<u8>, i: int) -> int {
    be_at(b, buf_value_off(b, i)) as int
}

/// The bytes of value `i`.
pub open spec fn buf_value(b: Seq<u8>, i: int) -> Seq<u8> {
    b.subrange(buf_value_off(b, i) + 4, buf_value_off(b, i) + 4 + buf_value_len(b, i))
}

/// Record `i` lies entirely within the buffer, so every structural read for
/// index `i` is in bounds.
pub open spec fn index_in_bounds(b: Seq<u8>, i: int) -> bool {
    &&& buf_key_off(b, i) + 8 + buf_key_len(b, i) <= b.len()
    &&& buf_value_off(b, i) + 4 + buf_value_len(b, i) <= b.len()
}

/// A structurally well-formed buffer: the count and index region fit, all
/// positions fit the 32-bit offset fields, and every listed record lies
/// within the buffer.
pub open spec fn buf_wf(b: Seq<u8>) -> bool {
    &&& 4 <= b.len()
    &&& b.len() <= u32::MAX
    &&& 4 + 4 * (buf_count(b) as int) <= b.len()
    &&& forall|i: int| 0 <= i < buf_count(b) ==> index_in_bounds(b, i)
}

/// The buffer is well formed and stores exactly the entries `s`, in order.
pub open spec fn buf_matches(b: Seq<u8>, s: Seq<(Seq<u8>, Seq<u8>)>) -> bool {
    &&& buf_wf(b)
    &&& buf_count(b) as int == s.len()
    &&& forall|i: int| 0 <= i < s.len() ==> buf_key(b, i) == s[i].0 && buf_value(b, i) == s[i].1
}

/// First-match lookup over the buffer's records, scanning from index `i` on.
pub open spec fn buf_lookup_from(b: Seq<u8>, k: Seq<u8>, i: int) -> Option<Seq<u8>>
    recommends
        0 <= i <= buf_count(b),
    decreases buf_count(b) - i,
{
    if i < 0 || i >= buf_count(b) {
        None
    } else if buf_key(b, i) == k {
        Some(buf_value(b, i))
    } else {
        buf_lookup_from(b, k, i + 1)
    }
}

/// Linear-scan lookup over the whole buffer.
pub open spec fn buf_lookup(b: Seq<u8>, k: Seq<u8>) -> Option<Seq<u8>> {
    buf_lookup_from(b, k, 0)
}

/// A buffer that stores the entries `s` looks keys up exactly as a linear
/// scan of `s` does.
pub proof fn lemma_buf_lookup_matches(b: Seq<u8>, s: Seq<(Seq<u8>, Seq<u8>)>, k: Seq<u8>, i: int)
    requires
        buf_matches(b, s),
        0 <= i <= s.len(),
    ensures
        buf_lookup_from(b, k, i) == entries_lookup_from(s, k, i),
    decreases s.len() - i,
{
    if i < s.len() {
        lemma_buf_lookup_matches(b, s, k, i + 1);
    }
}

/// Scanning from `i` finds the entry at `j`, the only one bearing key `k`.
pub proof fn lemma_entries_lookup_hit(s: Seq<(Seq<u8>, Seq<u8>)>, k: Seq<u8>, i: int, j: int)
    requires
        keys_distinct(s),
        0 <= i <= j < s.len(),
        s[j].0 == k,
    ensures
        entries_lookup_from(s, k, i) == Some(s[j].1),
    decreases j - i,
{
    if i < j {
        lemma_entries_lookup_hit(s, k, i + 1, j);
    }
}

/// Scanning from `i` misses when no entry from `i` on bears key `k`.
pub proof fn lemma_entries_lookup_miss(s: Seq<(Seq<u8>, Seq<u8>)>, k: Seq<u8>, i: int)
    requires
        0 <= i <= s.len(),
        forall|j: int| i <= j < s.len() ==> s[j].0 != k,
    ensures
        entries_lookup_from(s, k, i) is None,
    decreases s.len() - i,
{
    if i < s.len() {
        lemma_entries_lookup_miss(s, k, i + 1);
    }
}

} // verus!
