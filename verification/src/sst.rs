//! The sorted-string-table reader: offset-based structural accessors and a
//! linear-scan point lookup over an immutable serialized buffer. Nothing is
//! parsed up front; every accessor recomputes its result from the bytes.

use vstd::prelude::*;
use vstd::slice::slice_subrange;

use crate::bytes::be_at;
use crate::bytes::bytes_eq;
use crate::format::buf_count;
use crate::format::buf_key;
use crate::format::buf_key_len;
use crate::format::buf_key_off;
use crate::format::buf_lookup;
use crate::format::buf_lookup_from;
use crate::format::buf_value;
use crate::format::buf_value_len;
use crate::format::buf_value_off;
use crate::format::buf_wf;
use crate::format::index_in_bounds;

verus! {

/// A read-only view over one serialized table. The buffer is never mutated;
/// every accessor is a pure function of its bytes.
pub struct SST {
    bytes: Vec<u8>,
}

impl View for SST {
    type V = Seq<u8>;

    closed spec fn view(&self) -> Seq<u8> {
        self.bytes@
    }
}

impl SST {
    /// Wraps an already-serialized buffer without inspecting it.
    pub fn new(bytes: Vec<u8>) -> (r: SST)
        ensures
            r@ == bytes@,
    {
        SST { bytes }
    }

    /// Reads the big-endian u32 stored at byte position `offset`.
    pub fn extract_u32(&self, offset: u32) -> (r: u32)
        requires
            offset + 4 <= self@.len(),
        ensures
            r == be_at(self@, offset as int),
    {
        let n = self.bytes.len();
        proof {
            assert(n == self@.len());
            assert(self@.len() <= usize::MAX);
        }
        let o = offset as usize;
        let b0 = self.bytes[o] as u32;
        let b1 = self.bytes[o + 1] as u32;
        let b2 = self.bytes[o + 2] as u32;
        let b3 = self.bytes[o + 3] as u32;
        proof {
            let s = self@.subrange(offset as int, offset as int + 4);
            assert(s[0] == self@[offset as int]);
            assert(s[1] == self@[offset as int + 1]);
            assert(s[2] == self@[offset as int + 2]);
            assert(s[3] == self@[offset as int + 3]);
        }
        (b0 << 24) | (b1 << 16) | (b2 << 8) | b3
    }

    /// Reads the length-prefixed byte string stored at position `offset`: a
    /// big-endian u32 length followed by that many bytes.
    pub fn extract_string(&self, offset: u32) -> (r: &[u8])
        requires
            offset + 4 + be_at(self@, offset as int) <= self@.len(),
        ensures
            r@ == self@.subrange(
                offset as int + 4,
                offset as int + 4 + be_at(self@, offset as int),
            ),
    {
        let n = self.bytes.len();
        proof {
            assert(n == self@.len());
            assert(self@.len() <= usize::MAX);
        }
        let string_len = self.extract_u32(offset) as usize;
        let start = offset as usize + 4;
        let end = start + string_len;
        slice_subrange(self.bytes.as_slice(), start, end)
    }

    /// The number of keys, read from the head of the buffer.
    pub fn keys_size(&self) -> (r: u32)
        requires
            self@.len() >= 4,
        ensures
            r == buf_count(self@),
    {
        self.extract_u32(0)
    }

    /// The absolute position of key record `key_index`, read from the index
    /// region.
    pub fn key_offset(&self, key_index: u32) -> (r: u32)
        requires
            buf_wf(self@),
            key_index < buf_count(self@),
        ensures
            r as int == buf_key_off(self@, key_index as int),
    {
        self.extract_u32(4 + key_index * 4)
    }

    /// The length of key `key_index`, read from its record's length field.
    pub fn key_size(&self, key_index: u32) -> (r: u32)
        requires
            buf_wf(self@),
            key_index < buf_count(self@),
        ensures
            r as int == buf_key_len(self@, key_index as int),
    {
        proof {
            assert(index_in_bounds(self@, key_index as int));
        }
        let offset = self.key_offset(key_index);
        self.extract_u32(offset)
    }

    /// The bytes of key `key_index`, as a borrowed view into the buffer.
    pub fn key(&self, key_index: u32) -> (r: &[u8])
        requires
            buf_wf(self@),
            key_index < buf_count(self@),
        ensures
            r@ == buf_key(self@, key_index as int),
    {
        proof {
            assert(index_in_bounds(self@, key_index as int));
        }
        let offset = self.key_offset(key_index);
        self.extract_string(offset)
    }

    /// The absolute position of the value record paired with key
    /// `value_index`, read from the field right after the key bytes.
    pub fn value_offset(&self, value_index: u32) -> (r: u32)
        requires
            buf_wf(self@),
            value_index < buf_count(self@),
        ensures
            r as int == buf_value_off(self@, value_index as int),
    {
        proof {
            assert(index_in_bounds(self@, value_index as int));
        }
        let key_offset = self.key_offset(value_index);
        let key_size = self.key_size(value_index);
        self.extract_u32(key_offset + key_size + 4)
    }

    /// The bytes of the value paired with key `value_index`, as a borrowed
    /// view into the buffer.
    pub fn value(&self, value_index: u32) -> (r: &[u8])
        requires
            buf_wf(self@),
            value_index < buf_count(self@),
        ensures
            r@ == buf_value(self@, value_index as int),
    {
        proof {
            assert(index_in_bounds(self@, value_index as int));
        }
        let offset = self.value_offset(value_index);
        self.extract_string(offset)
    }

    /// Linear scan for `key`: the value of the record whose key equals `key`
    /// byte for byte, or nothing when no record bears that key.
    pub fn get(&self, key: &Vec<u8>) -> (r: Option<&[u8]>)
        requires
            buf_wf(self@),
        ensures
            match r {
                Some(v) => buf_lookup(self@, key@) == Some(v@),
                None => buf_lookup(self@, key@) is None,
            },
    {
        let n = self.keys_size();
        let mut i: u32 = 0;
        while i < n
            invariant
                buf_wf(self@),
                n == buf_count(self@),
                i <= n,
                buf_lookup_from(self@, key@, 0) == buf_lookup_from(self@, key@, i as int),
            decreases n - i,
        {
            let candidate_key = self.key(i);
            if bytes_eq(candidate_key, key.as_slice()) {
                return Some(self.value(i));
            }
            i = i + 1;
        }
        None
    }
}

} // verus!
