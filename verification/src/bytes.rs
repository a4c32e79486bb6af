//! Byte-level primitives shared by the encoder and the reader: big-endian
//! encoding of unsigned 32-bit integers, and the strict byte-lexicographic
//! order on byte strings that fixes the on-disk key order.

use vstd::prelude::*;

verus! {

/// The four big-endian bytes of `x`, most significant first.
pub open spec fn u32_to_be(x: u32) -> Seq<u8> {
    seq![
        ((x >> 24) & 0xff) as u8,
        ((x >> 16) & 0xff) as u8,
        ((x >> 8) & 0xff) as u8,
        (x & 0xff) as u8,
    ]
}

/// The unsigned 32-bit integer read from four big-endian bytes.
pub open spec fn u32_from_be(s: Seq<u8>) -> u32
    recommends
        s.len() == 4,
{
    (s[0] as u32) << 24 | (s[1] as u32) << 16 | (s[2] as u32) << 8 | (s[3] as u32)
}

/// The unsigned 32-bit integer stored big-endian at byte position `off` of `b`.
pub open spec fn be_at(b: Seq<u8>, off: int) -> u32
    recommends
        0 <= off,
        off + 4 <= b.len(),
{
    u32_from_be(b.subrange(off, off + 4))
}

/// Decoding inverts encoding: reading back the four big-endian bytes of `x`
/// yields `x` again.
pub proof fn lemma_u32_be_round_trip(x: u32)
    ensures
        u32_to_be(x).len() == 4,
        u32_from_be(u32_to_be(x)) == x,
{
    assert((((((x >> 24) & 0xff) as u8) as u32) << 24 | ((((x >> 16) & 0xff) as u8) as u32) << 16
        | ((((x >> 8) & 0xff) as u8) as u32) << 8 | (((x & 0xff) as u8) as u32)) == x)
        by (bit_vector);
}

/// Reads within the first operand of a concatenation are unaffected by the
/// appended tail.
pub proof fn lemma_be_at_prefix(a: Seq<u8>, b: Seq<u8>, off: int)
    requires
        0 <= off,
        off + 4 <= a.len(),
    ensures
        be_at(a + b, off) == be_at(a, off),
{
    assert((a + b).subrange(off, off + 4) =~= a.subrange(off, off + 4));
}

/// Appending the big-endian bytes of `x` to a buffer makes `x` readable at
/// the old end of the buffer.
pub proof fn lemma_be_at_append(a: Seq<u8>, x: u32)
    ensures
        be_at(a + u32_to_be(x), a.len() as int) == x,
{
    assert((a + u32_to_be(x)).subrange(a.len() as int, a.len() + 4 as int) =~= u32_to_be(x));
    lemma_u32_be_round_trip(x);
}

/// Appends the four big-endian bytes of `x` to `out`.
pub fn push_u32_be(out: &mut Vec<u8>, x: u32)
    requires
        old(out)@.len() + 4 <= usize::MAX,
    ensures
        final(out)@ == old(out)@ + u32_to_be(x),
{
    proof {
        assert((x >> 24) & 0xff < 256 && (x >> 16) & 0xff < 256 && (x >> 8) & 0xff < 256 && x
            & 0xff < 256) by (bit_vector);
    }
    out.push(((x >> 24) & 0xff) as u8);
    out.push(((x >> 16) & 0xff) as u8);
    out.push(((x >> 8) & 0xff) as u8);
    out.push((x & 0xff) as u8);
    proof {
        assert(out@ =~= old(out)@ + u32_to_be(x));
    }
}

/// Subranges lying within the first operand of a concatenation are
/// unaffected by the appended tail.
pub proof fn lemma_subrange_prefix(a: Seq<u8>, b: Seq<u8>, lo: int, hi: int)
    requires
        0 <= lo <= hi <= a.len(),
    ensures
        (a + b).subrange(lo, hi) == a.subrange(lo, hi),
{
    assert((a + b).subrange(lo, hi) =~= a.subrange(lo, hi));
}

/// The appended tail of a concatenation can be read back as a subrange.
pub proof fn lemma_subrange_append(a: Seq<u8>, b: Seq<u8>)
    ensures
        (a + b).subrange(a.len() as int, a.len() + b.len() as int) == b,
{
    assert((a + b).subrange(a.len() as int, a.len() + b.len() as int) =~= b);
}

/// Appends all bytes of `b` to `out`.
pub fn push_bytes(out: &mut Vec<u8>, b: &[u8])
    requires
        old(out)@.len() + b@.len() <= usize::MAX,
    ensures
        final(out)@ == old(out)@ + b@,
{
    let n = b.len();
    let mut i: usize = 0;
    while i < n
        invariant
            i <= n,
            n == b@.len(),
            old(out)@.len() + b@.len() <= usize::MAX,
            out@ == old(out)@ + b@.subrange(0, i as int),
        decreases n - i,
    {
        out.push(b[i]);
        proof {
            assert(out@ =~= old(out)@ + b@.subrange(0, i + 1));
        }
        i = i + 1;
    }
    proof {
        assert(b@.subrange(0, n as int) =~= b@);
    }
}

/// Strict byte-lexicographic order: byte strings compare element-wise, and a
/// proper prefix is less than any extension of it.
pub open spec fn lex_lt(a: Seq<u8>, b: Seq<u8>) -> bool
    decreases a.len(),
{
    if b.len() == 0 {
        false
    } else if a.len() == 0 {
        true
    } else if a[0] < b[0] {
        true
    } else if a[0] > b[0] {
        false
    } else {
        lex_lt(a.skip(1), b.skip(1))
    }
}

/// Any two byte strings are ordered or equal.
pub proof fn lemma_lex_lt_total(a: Seq<u8>, b: Seq<u8>)
    ensures
        lex_lt(a, b) || lex_lt(b, a) || a == b,
    decreases a.len(),
{
    if a.len() > 0 && b.len() > 0 && a[0] == b[0] {
        lemma_lex_lt_total(a.skip(1), b.skip(1));
        if !lex_lt(a, b) && !lex_lt(b, a) {
            assert(a.skip(1) == b.skip(1));
            assert forall|k: int| 0 <= k < a.len() implies a[k] == b[k] by {
                if k > 0 {
                    assert(a.skip(1)[k - 1] == a[k]);
                    assert(b.skip(1)[k - 1] == b[k]);
                }
            }
            assert(a =~= b);
        }
    }
}

/// The order is asymmetric, hence also irreflexive: ordered byte strings are
/// distinct and not ordered the other way round.
pub proof fn lemma_lex_lt_asymmetric(a: Seq<u8>, b: Seq<u8>)
    requires
        lex_lt(a, b),
    ensures
        !lex_lt(b, a),
        a != b,
    decreases a.len(),
{
    if a.len() > 0 && b.len() > 0 && a[0] == b[0] {
        lemma_lex_lt_asymmetric(a.skip(1), b.skip(1));
        assert(a != b) by {
            if a == b {
                assert(a.skip(1) == b.skip(1));
            }
        }
    }
}

/// The order is transitive.
pub proof fn lemma_lex_lt_transitive(a: Seq<u8>, b: Seq<u8>, c: Seq<u8>)
    requires
        lex_lt(a, b),
        lex_lt(b, c),
    ensures
        lex_lt(a, c),
    decreases a.len(),
{
    if a.len() > 0 && b.len() > 0 && c.len() > 0 && a[0] == b[0] && b[0] == c[0] {
        lemma_lex_lt_transitive(a.skip(1), b.skip(1), c.skip(1));
    }
}

/// When the first `i` bytes agree, the order is decided by the remainders.
pub proof fn lemma_lex_lt_common_prefix(a: Seq<u8>, b: Seq<u8>, i: int)
    requires
        0 <= i <= a.len(),
        i <= b.len(),
        a.subrange(0, i) == b.subrange(0, i),
    ensures
        lex_lt(a, b) == lex_lt(a.skip(i), b.skip(i)),
    decreases i,
{
    if i == 0 {
        assert(a.skip(0) =~= a);
        assert(b.skip(0) =~= b);
    } else {
        assert(a[0] == b[0]) by {
            assert(a.subrange(0, i)[0] == a[0]);
            assert(b.subrange(0, i)[0] == b[0]);
        }
        assert(a.skip(1).subrange(0, i - 1) =~= a.subrange(0, i).skip(1));
        assert(b.skip(1).subrange(0, i - 1) =~= b.subrange(0, i).skip(1));
        lemma_lex_lt_common_prefix(a.skip(1), b.skip(1), i - 1);
        assert(a.skip(1).skip(i - 1) =~= a.skip(i));
        assert(b.skip(1).skip(i - 1) =~= b.skip(i));
    }
}

/// Exact byte equality of two slices.
pub fn bytes_eq(a: &[u8], b: &[u8]) -> (r: bool)
    ensures
        r == (a@ == b@),
{
    if a.len() != b.len() {
        return false;
    }
    let n = a.len();
    let mut i: usize = 0;
    while i < n
        invariant
            0 <= i <= n,
            n == a@.len() == b@.len(),
            forall|j: int| 0 <= j < i ==> a@[j] == b@[j],
        decreases n - i,
    {
        if a[i] != b[i] {
            return false;
        }
        i = i + 1;
    }
    proof {
        assert(a@ =~= b@);
    }
    true
}

/// Decides the strict byte-lexicographic order on two slices.
pub fn lex_lt_bytes(a: &[u8], b: &[u8]) -> (r: bool)
    ensures
        r == lex_lt(a@, b@),
{
    let n = if a.len() < b.len() {
        a.len()
    } else {
        b.len()
    };
    let mut i: usize = 0;
    while i < n
        invariant
            0 <= i <= n,
            n <= a@.len(),
            n <= b@.len(),
            n == a@.len() || n == b@.len(),
            forall|j: int| 0 <= j < i ==> a@[j] == b@[j],
        decreases n - i,
    {
        proof {
            assert(a@.subrange(0, i as int) =~= b@.subrange(0, i as int));
            lemma_lex_lt_common_prefix(a@, b@, i as int);
        }
        if a[i] < b[i] {
            return true;
        }
        if a[i] > b[i] {
            return false;
        }
        i = i + 1;
    }
    proof {
        assert(a@.subrange(0, n as int) =~= b@.subrange(0, n as int));
        lemma_lex_lt_common_prefix(a@, b@, n as int);
    }
    a.len() < b.len()
}

} // verus!
