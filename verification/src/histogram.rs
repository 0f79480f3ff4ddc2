//! Byte-occurrence histograms.
//!
//! A histogram counts how many times each byte value appears in a dataset.
//! For example, given the bytes `[0, 1, 2, 0, 1]`, bytes `0` and `1` appear
//! twice and byte `2` once.
//!
//! The mathematical model is [`byte_count`]: bucket `v` of a histogram built
//! from a byte sequence `s` holds `byte_count(s, v)`, the number of
//! occurrences of `v` in `s`. Every builder in [`histogram32`] and
//! [`histogram32_private`] is verified against this one definition, which is
//! what makes the builders provably interchangeable
//! ([`lemma_histogram_builders_agree`]).

use vstd::prelude::*;

pub mod histogram32;
pub mod histogram32_private;

verus! {

/// A generic histogram, storing the count for each byte value using type `T`.
#[derive(Clone, Copy, PartialEq, Eq, PartialOrd, Ord)]
pub struct Histogram<T> {
    pub counter: [T; 256],
}

/// Number of occurrences of the byte value `v` in the sequence `s`.
pub open spec fn byte_count(s: Seq<u8>, v: u8) -> nat
    decreases s.len(),
{
    if s.len() == 0 {
        0
    } else {
        byte_count(s.drop_last(), v) + (if s.last() == v {
            1nat
        } else {
            0nat
        })
    }
}

/// [`byte_count`] agrees with the standard multiset reading of a sequence:
/// bucket `v` counts exactly the occurrences of `v` among the elements.
pub proof fn lemma_byte_count_is_multiset_count(s: Seq<u8>, v: u8)
    ensures
        byte_count(s, v) == s.to_multiset().count(v),
    decreases s.len(),
{
    broadcast use vstd::seq_lib::group_to_multiset_ensures;

    if s.len() == 0 {
        assert(!s.contains(v));
        assert(s.to_multiset().count(v) == 0);
    } else {
        let butlast = s.drop_last();
        let last = s.last();
        lemma_byte_count_is_multiset_count(butlast, v);
        assert(s =~= butlast.push(last));
        assert(butlast.push(last).to_multiset() =~= butlast.to_multiset().insert(last));
        assert(butlast.to_multiset().insert(last).count(v) == butlast.to_multiset().count(v) + (
        if last == v {
            1int
        } else {
            0int
        }));
    }
}

/// Counters can absorb the occurrence counts of `s` without 32-bit overflow.
pub open spec fn can_add_counts(c: Seq<u32>, s: Seq<u8>) -> bool {
    forall|v: u8| c[v as int] + #[trigger] byte_count(s, v) <= u32::MAX
}

/// `new_c` equals `old_c` with the occurrence counts of `s` added in.
pub open spec fn adds_counts(old_c: Seq<u32>, new_c: Seq<u32>, s: Seq<u8>) -> bool {
    &&& new_c.len() == old_c.len()
    &&& forall|v: u8| new_c[v as int] == old_c[v as int] + #[trigger] byte_count(s, v)
}

/// Occurrence counts distribute over concatenation.
pub proof fn lemma_byte_count_concat(a: Seq<u8>, b: Seq<u8>)
    ensures
        forall|v: u8| #[trigger] byte_count(a + b, v) == byte_count(a, v) + byte_count(b, v),
    decreases b.len(),
{
    if b.len() == 0 {
        assert(a + b =~= a);
    } else {
        lemma_byte_count_concat(a, b.drop_last());
        assert((a + b).drop_last() =~= a + b.drop_last());
        assert forall|v: u8| #[trigger] byte_count(a + b, v) == byte_count(a, v) + byte_count(
            b,
            v,
        ) by {
            assert(byte_count(a + b.drop_last(), v) == byte_count(a, v) + byte_count(
                b.drop_last(),
                v,
            ));
        }
    }
}

/// An empty sequence contains no occurrences of any byte value.
pub proof fn lemma_byte_count_empty(s: Seq<u8>)
    requires
        s.len() == 0,
    ensures
        forall|v: u8| #[trigger] byte_count(s, v) == 0,
{
}

/// Taking the whole of `s` as a subrange gives `s` back.
pub proof fn lemma_subrange_full(s: Seq<u8>)
    ensures
        s.subrange(0, s.len() as int) == s,
{
    assert(s.subrange(0, s.len() as int) =~= s);
}

/// Extending a prefix by the element at `i` adds one occurrence of `s[i]`.
pub proof fn lemma_byte_count_snoc(s: Seq<u8>, a: int, i: int, j: int)
    requires
        0 <= a <= i < s.len(),
        j == i + 1,
    ensures
        forall|v: u8| #[trigger] byte_count(s.subrange(a, j), v) == byte_count(
            s.subrange(a, i),
            v,
        ) + (if s[i] == v {
            1int
        } else {
            0int
        }),
{
    assert(s.subrange(a, j) =~= s.subrange(a, i + 1));
    assert(s.subrange(a, i + 1).drop_last() =~= s.subrange(a, i));
    assert(s.subrange(a, i + 1).last() == s[i]);
}

/// A subrange holds exactly one byte, so it contributes one occurrence.
pub proof fn lemma_byte_count_singleton(s: Seq<u8>, i: int)
    requires
        0 <= i < s.len(),
    ensures
        forall|v: u8| #[trigger] byte_count(s.subrange(i, i + 1), v) == (if s[i] == v {
            1int
        } else {
            0int
        }),
{
    let sub = s.subrange(i, i + 1);
    assert(sub.drop_last() =~= Seq::<u8>::empty());
    assert(sub.last() == s[i]);
    assert forall|v: u8| #[trigger] byte_count(sub, v) == (if s[i] == v {
        1int
    } else {
        0int
    }) by {
        assert(byte_count(sub.drop_last(), v) == 0);
    }
}

/// A shorter subrange from the same base never counts more occurrences.
pub proof fn lemma_byte_count_subrange_le(s: Seq<u8>, a: int, m: int, b: int)
    requires
        0 <= a <= m <= b <= s.len(),
    ensures
        forall|v: u8| #[trigger] byte_count(s.subrange(a, m), v) <= byte_count(s.subrange(a, b), v),
{
    assert(s.subrange(a, b) =~= s.subrange(a, m) + s.subrange(m, b));
    lemma_byte_count_concat(s.subrange(a, m), s.subrange(m, b));
}

/// A byte value cannot occur more often than the sequence is long.
pub proof fn lemma_byte_count_le_len(s: Seq<u8>)
    ensures
        forall|v: u8| #[trigger] byte_count(s, v) <= s.len(),
    decreases s.len(),
{
    if s.len() > 0 {
        lemma_byte_count_le_len(s.drop_last());
        assert forall|v: u8| #[trigger] byte_count(s, v) <= s.len() by {
            assert(byte_count(s.drop_last(), v) <= s.drop_last().len());
        }
    }
}

/// If counters absorbed `s.subrange(a, i)` so far and could absorb all of
/// `s.subrange(a, e)`, then they can still absorb the chunk `s.subrange(i, j)`.
pub proof fn lemma_chunk_can_add(
    orig: Seq<u32>,
    cur: Seq<u32>,
    s: Seq<u8>,
    a: int,
    i: int,
    j: int,
    e: int,
)
    requires
        0 <= a <= i <= j <= e <= s.len(),
        can_add_counts(orig, s.subrange(a, e)),
        adds_counts(orig, cur, s.subrange(a, i)),
    ensures
        can_add_counts(cur, s.subrange(i, j)),
{
    assert(s.subrange(a, j) =~= s.subrange(a, i) + s.subrange(i, j));
    lemma_byte_count_concat(s.subrange(a, i), s.subrange(i, j));
    lemma_byte_count_subrange_le(s, a, j, e);
    assert forall|v: u8| cur[v as int] + #[trigger] byte_count(s.subrange(i, j), v)
        <= u32::MAX by {
        assert(cur[v as int] == orig[v as int] + byte_count(s.subrange(a, i), v));
        assert(byte_count(s.subrange(a, j), v) <= byte_count(s.subrange(a, e), v));
        assert(orig[v as int] + byte_count(s.subrange(a, e), v) <= u32::MAX);
    }
}

/// Absorbing `s.subrange(a, i)` and then `s.subrange(i, j)` absorbs
/// `s.subrange(a, j)`.
pub proof fn lemma_chunk_extend(
    orig: Seq<u32>,
    mid: Seq<u32>,
    cur: Seq<u32>,
    s: Seq<u8>,
    a: int,
    i: int,
    j: int,
)
    requires
        0 <= a <= i <= j <= s.len(),
        adds_counts(orig, mid, s.subrange(a, i)),
        adds_counts(mid, cur, s.subrange(i, j)),
    ensures
        adds_counts(orig, cur, s.subrange(a, j)),
{
    assert(s.subrange(a, j) =~= s.subrange(a, i) + s.subrange(i, j));
    lemma_byte_count_concat(s.subrange(a, i), s.subrange(i, j));
    assert forall|v: u8| cur[v as int] == orig[v as int] + #[trigger] byte_count(
        s.subrange(a, j),
        v,
    ) by {
        assert(mid[v as int] == orig[v as int] + byte_count(s.subrange(a, i), v));
        assert(cur[v as int] == mid[v as int] + byte_count(s.subrange(i, j), v));
    }
}

/// If counters absorbed `s.subrange(a, i)` and could absorb all of
/// `s.subrange(a, e)`, the bucket of `s[i]` is still below its limit.
pub proof fn lemma_chunk_one_byte(orig: Seq<u32>, cur: Seq<u32>, s: Seq<u8>, a: int, i: int, e: int)
    requires
        0 <= a <= i < e <= s.len(),
        can_add_counts(orig, s.subrange(a, e)),
        adds_counts(orig, cur, s.subrange(a, i)),
    ensures
        cur[s[i] as int] < u32::MAX,
{
    lemma_chunk_can_add(orig, cur, s, a, i, i + 1, e);
    lemma_byte_count_singleton(s, i);
    assert(byte_count(s.subrange(i, i + 1), s[i]) == 1);
    assert(cur[s[i] as int] + byte_count(s.subrange(i, i + 1), s[i]) <= u32::MAX);
}

/// After incrementing the bucket of `s[i]`, the counters have absorbed
/// `s.subrange(a, i + 1)`.
pub proof fn lemma_chunk_extend_one(
    orig: Seq<u32>,
    mid: Seq<u32>,
    cur: Seq<u32>,
    s: Seq<u8>,
    a: int,
    i: int,
    j: int,
)
    requires
        0 <= a <= i < s.len(),
        j == i + 1,
        orig.len() == 256,
        adds_counts(orig, mid, s.subrange(a, i)),
        mid[s[i] as int] < u32::MAX,
        cur == mid.update(s[i] as int, (mid[s[i] as int] + 1) as u32),
    ensures
        adds_counts(orig, cur, s.subrange(a, j)),
{
    assert(s.subrange(a, j) =~= s.subrange(a, i + 1));
    lemma_byte_count_snoc(s, a, i, i + 1);
    assert forall|v: u8| cur[v as int] == orig[v as int] + #[trigger] byte_count(
        s.subrange(a, i + 1),
        v,
    ) by {
        assert(byte_count(s.subrange(a, i + 1), v) == byte_count(s.subrange(a, i), v) + (if s[i]
            == v {
            1int
        } else {
            0int
        }));
        assert(mid[v as int] == orig[v as int] + byte_count(s.subrange(a, i), v));
    }
}

/// All histogram builders agree: any two 256-bucket counter arrays whose
/// buckets both hold the occurrence counts of the same input are identical.
/// This is the exchangeability guarantee for the whole algorithm family.
pub proof fn lemma_histogram_builders_agree(c1: Seq<u32>, c2: Seq<u32>, s: Seq<u8>)
    requires
        c1.len() == 256,
        c2.len() == 256,
        forall|v: u8| c1[v as int] == #[trigger] byte_count(s, v),
        forall|v: u8| c2[v as int] == #[trigger] byte_count(s, v),
    ensures
        c1 == c2,
{
    assert forall|i: int| 0 <= i < 256 implies c1[i] == c2[i] by {
        let v = i as u8;
        assert(c1[v as int] == byte_count(s, v));
        assert(c2[v as int] == byte_count(s, v));
    }
    assert(c1 =~= c2);
}

/// Sum of the first `n` counters.
pub open spec fn counter_total(c: Seq<u32>, n: int) -> int
    decreases n,
{
    if n <= 0 {
        0
    } else {
        counter_total(c, n - 1) + c[n - 1]
    }
}

/// Sum of the occurrence counts of the byte values below `n`.
pub open spec fn byte_count_total(s: Seq<u8>, n: int) -> int
    decreases n,
{
    if n <= 0 {
        0
    } else {
        byte_count_total(s, n - 1) + byte_count(s, (n - 1) as u8)
    }
}

proof fn lemma_byte_count_total_empty(s: Seq<u8>, n: int)
    requires
        s.len() == 0,
    ensures
        byte_count_total(s, n) == 0,
    decreases n,
{
    if n > 0 {
        lemma_byte_count_total_empty(s, n - 1);
    }
}

proof fn lemma_byte_count_total_drop(s: Seq<u8>, n: int)
    requires
        s.len() > 0,
        0 <= n <= 256,
    ensures
        byte_count_total(s, n) == byte_count_total(s.drop_last(), n) + (if (s.last() as int) < n {
            1int
        } else {
            0int
        }),
    decreases n,
{
    if n > 0 {
        lemma_byte_count_total_drop(s, n - 1);
        assert(byte_count(s, (n - 1) as u8) == byte_count(s.drop_last(), (n - 1) as u8) + (if
        s.last() == (n - 1) as u8 {
            1int
        } else {
            0int
        }));
    }
}

proof fn lemma_byte_count_total_len(s: Seq<u8>)
    ensures
        byte_count_total(s, 256) == s.len(),
    decreases s.len(),
{
    if s.len() == 0 {
        lemma_byte_count_total_empty(s, 256);
    } else {
        lemma_byte_count_total_len(s.drop_last());
        lemma_byte_count_total_drop(s, 256);
    }
}

proof fn lemma_counter_total_matches(c: Seq<u32>, s: Seq<u8>, n: int)
    requires
        c.len() == 256,
        0 <= n <= 256,
        forall|v: u8| c[v as int] == #[trigger] byte_count(s, v),
    ensures
        counter_total(c, n) == byte_count_total(s, n),
    decreases n,
{
    if n > 0 {
        lemma_counter_total_matches(c, s, n - 1);
        assert(c[((n - 1) as u8) as int] == byte_count(s, (n - 1) as u8));
    }
}

/// Conservation law: a histogram whose buckets hold the occurrence counts of
/// `s` has bucket sum equal to the length of `s` — every input byte lands in
/// exactly one bucket.
pub proof fn lemma_histogram_total(c: Seq<u32>, s: Seq<u8>)
    requires
        c.len() == 256,
        forall|v: u8| c[v as int] == #[trigger] byte_count(s, v),
    ensures
        counter_total(c, 256) == s.len(),
{
    lemma_counter_total_matches(c, s, 256);
    lemma_byte_count_total_len(s);
}

} // verus!
