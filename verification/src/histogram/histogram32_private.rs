//! Alternative histogram builders.
//!
//! These builders trade loop structure for throughput in different ways —
//! wider words, deeper unrolling, multiple accumulator banks — while all
//! being verified to add exactly the same counts as
//! [`histogram32_reference`](crate::histogram::histogram32::histogram32_reference):
//! bucket `v` gains [`byte_count`]`(bytes@, v)`.

use crate::histogram::adds_counts;
use crate::histogram::byte_count;
use crate::histogram::can_add_counts;
use crate::histogram::histogram32::add_u32_lanes;
use crate::histogram::histogram32::process_slice_bytewise;
use crate::histogram::histogram32::read_u32_le;
use crate::histogram::histogram32::Histogram32;
use crate::histogram::lemma_byte_count_empty;
use crate::histogram::lemma_byte_count_snoc;
use crate::histogram::lemma_byte_count_subrange_le;
use crate::histogram::lemma_chunk_can_add;
use crate::histogram::lemma_chunk_extend;
use crate::histogram::lemma_chunk_extend_one;
use crate::histogram::lemma_chunk_one_byte;
use crate::histogram::lemma_subrange_full;
use vstd::prelude::*;

verus! {

/// The value read by a little-endian 8-byte load at offset `i` of `s`.
pub open spec fn u64_le_from_8_bytes(s: Seq<u8>, i: int) -> u64 {
    (s[i] as u64) | (s[i + 1] as u64) << 8 | (s[i + 2] as u64) << 16 | (s[i + 3] as u64) << 24 | (
    s[i + 4] as u64) << 32 | (s[i + 5] as u64) << 40 | (s[i + 6] as u64) << 48 | (s[i + 7] as u64)
        << 56
}

/// The eight bytes of a little-endian 64-bit word are recovered by its byte
/// lanes.
pub(crate) proof fn lemma_u64_le_lanes(
    value: u64,
    x0: u8,
    x1: u8,
    x2: u8,
    x3: u8,
    x4: u8,
    x5: u8,
    x6: u8,
    x7: u8,
)
    requires
        value == (x0 as u64) | (x1 as u64) << 8 | (x2 as u64) << 16 | (x3 as u64) << 24 | (x4
            as u64) << 32 | (x5 as u64) << 40 | (x6 as u64) << 48 | (x7 as u64) << 56,
    ensures
        value & 0xFF == x0 as u64,
        (value >> 8) & 0xFF == x1 as u64,
        (value >> 16) & 0xFF == x2 as u64,
        (value >> 24) & 0xFF == x3 as u64,
        (value >> 32) & 0xFF == x4 as u64,
        (value >> 40) & 0xFF == x5 as u64,
        (value >> 48) & 0xFF == x6 as u64,
        (value >> 56) & 0xFF == x7 as u64,
{
    assert(value == (x0 as u64) | (x1 as u64) << 8 | (x2 as u64) << 16 | (x3 as u64) << 24 | (x4
        as u64) << 32 | (x5 as u64) << 40 | (x6 as u64) << 48 | (x7 as u64) << 56 ==> value & 0xFF
        == x0 as u64 && (value >> 8) & 0xFF == x1 as u64 && (value >> 16) & 0xFF == x2 as u64 && (
    value >> 24) & 0xFF == x3 as u64 && (value >> 32) & 0xFF == x4 as u64 && (value >> 40) & 0xFF
        == x5 as u64 && (value >> 48) & 0xFF == x6 as u64 && (value >> 56) & 0xFF == x7
        as u64) by (bit_vector);
}

/// Reads a 64-bit little-endian word from `bytes` at offset `i`.
pub(crate) fn read_u64_le(bytes: &[u8], i: usize) -> (value: u64)
    requires
        i + 8 <= bytes@.len(),
    ensures
        value == u64_le_from_8_bytes(bytes@, i as int),
{
    (bytes[i] as u64) | (bytes[i + 1] as u64) << 8 | (bytes[i + 2] as u64) << 16 | (bytes[i + 3]
        as u64) << 24 | (bytes[i + 4] as u64) << 32 | (bytes[i + 5] as u64) << 40 | (bytes[i + 6]
        as u64) << 48 | (bytes[i + 7] as u64) << 56
}

/// Unpacks the eight byte lanes of `value`, read at offset `i`, and adds each
/// to its bucket.
pub(crate) fn add_u64_lanes(bytes: &[u8], histogram: &mut Histogram32, i: usize, value: u64)
    requires
        i + 8 <= bytes@.len(),
        value == u64_le_from_8_bytes(bytes@, i as int),
        can_add_counts(old(histogram)@, bytes@.subrange(i as int, i as int + 8)),
    ensures
        adds_counts(
            old(histogram)@,
            final(histogram)@,
            bytes@.subrange(i as int, i as int + 8),
        ),
{
    let ghost orig: Seq<u32> = histogram@;
    let ghost s = bytes@;
    let ghost ii = i as int;
    proof {
        lemma_u64_le_lanes(
            value,
            s[ii],
            s[ii + 1],
            s[ii + 2],
            s[ii + 3],
            s[ii + 4],
            s[ii + 5],
            s[ii + 6],
            s[ii + 7],
        );
        assert(s.subrange(ii, ii) =~= Seq::<u8>::empty());
        lemma_byte_count_empty(s.subrange(ii, ii));
    }
    let b0: u8 = (value & 0xFF) as u8;
    let b1: u8 = ((value >> 8) & 0xFF) as u8;
    let b2: u8 = ((value >> 16) & 0xFF) as u8;
    let b3: u8 = ((value >> 24) & 0xFF) as u8;
    let b4: u8 = ((value >> 32) & 0xFF) as u8;
    let b5: u8 = ((value >> 40) & 0xFF) as u8;
    let b6: u8 = ((value >> 48) & 0xFF) as u8;
    let b7: u8 = ((value >> 56) & 0xFF) as u8;

    proof {
        lemma_chunk_one_byte(orig, histogram@, s, ii, ii, ii + 8);
        assert(b0 == s[ii]);
    }
    let ghost mid0: Seq<u32> = histogram@;
    crate::histogram::histogram32::increment_bucket(histogram, b0);
    proof {
        lemma_chunk_extend_one(orig, mid0, histogram@, s, ii, ii, ii + 1);
        lemma_chunk_one_byte(orig, histogram@, s, ii, ii + 1, ii + 8);
        assert(b1 == s[ii + 1]);
    }
    let ghost mid1: Seq<u32> = histogram@;
    crate::histogram::histogram32::increment_bucket(histogram, b1);
    proof {
        lemma_chunk_extend_one(orig, mid1, histogram@, s, ii, ii + 1, ii + 2);
        lemma_chunk_one_byte(orig, histogram@, s, ii, ii + 2, ii + 8);
        assert(b2 == s[ii + 2]);
    }
    let ghost mid2: Seq<u32> = histogram@;
    crate::histogram::histogram32::increment_bucket(histogram, b2);
    proof {
        lemma_chunk_extend_one(orig, mid2, histogram@, s, ii, ii + 2, ii + 3);
        lemma_chunk_one_byte(orig, histogram@, s, ii, ii + 3, ii + 8);
        assert(b3 == s[ii + 3]);
    }
    let ghost mid3: Seq<u32> = histogram@;
    crate::histogram::histogram32::increment_bucket(histogram, b3);
    proof {
        lemma_chunk_extend_one(orig, mid3, histogram@, s, ii, ii + 3, ii + 4);
        lemma_chunk_one_byte(orig, histogram@, s, ii, ii + 4, ii + 8);
        assert(b4 == s[ii + 4]);
    }
    let ghost mid4: Seq<u32> = histogram@;
    crate::histogram::histogram32::increment_bucket(histogram, b4);
    proof {
        lemma_chunk_extend_one(orig, mid4, histogram@, s, ii, ii + 4, ii + 5);
        lemma_chunk_one_byte(orig, histogram@, s, ii, ii + 5, ii + 8);
        assert(b5 == s[ii + 5]);
    }
    let ghost mid5: Seq<u32> = histogram@;
    crate::histogram::histogram32::increment_bucket(histogram, b5);
    proof {
        lemma_chunk_extend_one(orig, mid5, histogram@, s, ii, ii + 5, ii + 6);
        lemma_chunk_one_byte(orig, histogram@, s, ii, ii + 6, ii + 8);
        assert(b6 == s[ii + 6]);
    }
    let ghost mid6: Seq<u32> = histogram@;
    crate::histogram::histogram32::increment_bucket(histogram, b6);
    proof {
        lemma_chunk_extend_one(orig, mid6, histogram@, s, ii, ii + 6, ii + 7);
        lemma_chunk_one_byte(orig, histogram@, s, ii, ii + 7, ii + 8);
        assert(b7 == s[ii + 7]);
    }
    let ghost mid7: Seq<u32> = histogram@;
    crate::histogram::histogram32::increment_bucket(histogram, b7);
    proof {
        lemma_chunk_extend_one(orig, mid7, histogram@, s, ii, ii + 7, ii + 8);
    }
}

/// Batched histogram generation: one 32-bit word (4 bytes) per iteration.
pub fn histogram32_generic_batched_u32(bytes: &[u8], histogram: &mut Histogram32)
    requires
        can_add_counts(old(histogram)@, bytes@),
    ensures
        adds_counts(old(histogram)@, final(histogram)@, bytes@),
{
    let ghost orig: Seq<u32> = histogram@;
    let ghost s = bytes@;
    let len: usize = bytes.len();
    let end_unroll: usize = len - len % 4;
    proof {
        lemma_subrange_full(s);
        assert(s.subrange(0, 0) =~= Seq::<u8>::empty());
        lemma_byte_count_empty(s.subrange(0, 0));
    }
    let mut i: usize = 0;
    while i < end_unroll
        invariant
            i <= end_unroll <= len,
            (end_unroll - i) % 4 == 0,
            len == s.len(),
            s == bytes@,
            orig.len() == 256,
            can_add_counts(orig, s.subrange(0, s.len() as int)),
            adds_counts(orig, histogram@, s.subrange(0, i as int)),
        decreases end_unroll - i,
    {
        let ghost ii = i as int;
        let value: u32 = read_u32_le(bytes, i);
        proof {
            lemma_chunk_can_add(orig, histogram@, s, 0, ii, ii + 4, s.len() as int);
        }
        let ghost mid: Seq<u32> = histogram@;
        add_u32_lanes(bytes, histogram, i, value);
        proof {
            lemma_chunk_extend(orig, mid, histogram@, s, 0, ii, ii + 4);
        }
        i = i + 4;
    }
    // Handle any remaining bytes.
    proof {
        lemma_chunk_can_add(orig, histogram@, s, 0, i as int, len as int, len as int);
    }
    let ghost mid: Seq<u32> = histogram@;
    process_slice_bytewise(bytes, histogram, i);
    proof {
        lemma_chunk_extend(orig, mid, histogram@, s, 0, i as int, len as int);
        lemma_subrange_full(s);
    }
}

/// Batched histogram generation: one 64-bit word (8 bytes) per iteration.
pub fn histogram32_generic_batched_u64(bytes: &[u8], histogram: &mut Histogram32)
    requires
        can_add_counts(old(histogram)@, bytes@),
    ensures
        adds_counts(old(histogram)@, final(histogram)@, bytes@),
{
    let ghost orig: Seq<u32> = histogram@;
    let ghost s = bytes@;
    let len: usize = bytes.len();
    let end_unroll: usize = len - len % 8;
    proof {
        lemma_subrange_full(s);
        assert(s.subrange(0, 0) =~= Seq::<u8>::empty());
        lemma_byte_count_empty(s.subrange(0, 0));
    }
    let mut i: usize = 0;
    while i < end_unroll
        invariant
            i <= end_unroll <= len,
            (end_unroll - i) % 8 == 0,
            len == s.len(),
            s == bytes@,
            orig.len() == 256,
            can_add_counts(orig, s.subrange(0, s.len() as int)),
            adds_counts(orig, histogram@, s.subrange(0, i as int)),
        decreases end_unroll - i,
    {
        let ghost ii = i as int;
        let value: u64 = read_u64_le(bytes, i);
        proof {
            lemma_chunk_can_add(orig, histogram@, s, 0, ii, ii + 8, s.len() as int);
        }
        let ghost mid: Seq<u32> = histogram@;
        add_u64_lanes(bytes, histogram, i, value);
        proof {
            lemma_chunk_extend(orig, mid, histogram@, s, 0, ii, ii + 8);
        }
        i = i + 8;
    }
    // Handle any remaining bytes.
    proof {
        lemma_chunk_can_add(orig, histogram@, s, 0, i as int, len as int, len as int);
    }
    let ghost mid: Seq<u32> = histogram@;
    process_slice_bytewise(bytes, histogram, i);
    proof {
        lemma_chunk_extend(orig, mid, histogram@, s, 0, i as int, len as int);
        lemma_subrange_full(s);
    }
}

/// Batched histogram generation: two 32-bit words (8 bytes) per iteration.
pub fn histogram32_generic_batched_unroll_2_u32(bytes: &[u8], histogram: &mut Histogram32)
    requires
        can_add_counts(old(histogram)@, bytes@),
    ensures
        adds_counts(old(histogram)@, final(histogram)@, bytes@),
{
    let ghost orig: Seq<u32> = histogram@;
    let ghost s = bytes@;
    let len: usize = bytes.len();
    let end_unroll: usize = len - len % 8;
    proof {
        lemma_subrange_full(s);
        assert(s.subrange(0, 0) =~= Seq::<u8>::empty());
        lemma_byte_count_empty(s.subrange(0, 0));
    }
    let mut i: usize = 0;
    while i < end_unroll
        invariant
            i <= end_unroll <= len,
            (end_unroll - i) % 8 == 0,
            len == s.len(),
            s == bytes@,
            orig.len() == 256,
            can_add_counts(orig, s.subrange(0, s.len() as int)),
            adds_counts(orig, histogram@, s.subrange(0, i as int)),
        decreases end_unroll - i,
    {
        let ghost ii = i as int;
        // Read two 32-bit values at once.
        let value1: u32 = read_u32_le(bytes, i);
        let value2: u32 = read_u32_le(bytes, i + 4);
        proof {
            lemma_chunk_can_add(orig, histogram@, s, 0, ii, ii + 4, s.len() as int);
        }
        let ghost mid1: Seq<u32> = histogram@;
        add_u32_lanes(bytes, histogram, i, value1);
        proof {
            lemma_chunk_extend(orig, mid1, histogram@, s, 0, ii, ii + 4);
            lemma_chunk_can_add(orig, histogram@, s, 0, ii + 4, ii + 8, s.len() as int);
        }
        let ghost mid2: Seq<u32> = histogram@;
        add_u32_lanes(bytes, histogram, i + 4, value2);
        proof {
            lemma_chunk_extend(orig, mid2, histogram@, s, 0, ii + 4, ii + 8);
        }
        i = i + 8;
    }
    // Handle remaining bytes that didn't fit in the unrolled loop.
    proof {
        lemma_chunk_can_add(orig, histogram@, s, 0, i as int, len as int, len as int);
    }
    let ghost mid: Seq<u32> = histogram@;
    process_slice_bytewise(bytes, histogram, i);
    proof {
        lemma_chunk_extend(orig, mid, histogram@, s, 0, i as int, len as int);
        lemma_subrange_full(s);
    }
}

/// Batched histogram generation: two 64-bit words (16 bytes) per iteration.
pub fn histogram32_generic_batched_unroll_2_u64(bytes: &[u8], histogram: &mut Histogram32)
    requires
        can_add_counts(old(histogram)@, bytes@),
    ensures
        adds_counts(old(histogram)@, final(histogram)@, bytes@),
{
    let ghost orig: Seq<u32> = histogram@;
    let ghost s = bytes@;
    let len: usize = bytes.len();
    let end_unroll: usize = len - len % 16;
    proof {
        lemma_subrange_full(s);
        assert(s.subrange(0, 0) =~= Seq::<u8>::empty());
        lemma_byte_count_empty(s.subrange(0, 0));
    }
    let mut i: usize = 0;
    while i < end_unroll
        invariant
            i <= end_unroll <= len,
            (end_unroll - i) % 16 == 0,
            len == s.len(),
            s == bytes@,
            orig.len() == 256,
            can_add_counts(orig, s.subrange(0, s.len() as int)),
            adds_counts(orig, histogram@, s.subrange(0, i as int)),
        decreases end_unroll - i,
    {
        let ghost ii = i as int;
        // Read two 64-bit values at once.
        let value1: u64 = read_u64_le(bytes, i);
        let value2: u64 = read_u64_le(bytes, i + 8);
        proof {
            lemma_chunk_can_add(orig, histogram@, s, 0, ii, ii + 8, s.len() as int);
        }
        let ghost mid1: Seq<u32> = histogram@;
        add_u64_lanes(bytes, histogram, i, value1);
        proof {
            lemma_chunk_extend(orig, mid1, histogram@, s, 0, ii, ii + 8);
            lemma_chunk_can_add(orig, histogram@, s, 0, ii + 8, ii + 16, s.len() as int);
        }
        let ghost mid2: Seq<u32> = histogram@;
        add_u64_lanes(bytes, histogram, i + 8, value2);
        proof {
            lemma_chunk_extend(orig, mid2, histogram@, s, 0, ii + 8, ii + 16);
        }
        i = i + 16;
    }
    // Handle remaining bytes that didn't fit in the unrolled loop.
    proof {
        lemma_chunk_can_add(orig, histogram@, s, 0, i as int, len as int, len as int);
    }
    let ghost mid: Seq<u32> = histogram@;
    process_slice_bytewise(bytes, histogram, i);
    proof {
        lemma_chunk_extend(orig, mid, histogram@, s, 0, i as int, len as int);
        lemma_subrange_full(s);
    }
}

/// Batched histogram generation: four 64-bit words (32 bytes) per iteration.
pub fn histogram32_generic_batched_unroll_4_u64(bytes: &[u8], histogram: &mut Histogram32)
    requires
        can_add_counts(old(histogram)@, bytes@),
    ensures
        adds_counts(old(histogram)@, final(histogram)@, bytes@),
{
    let ghost orig: Seq<u32> = histogram@;
    let ghost s = bytes@;
    let len: usize = bytes.len();
    let end_unroll: usize = len - len % 32;
    proof {
        lemma_subrange_full(s);
        assert(s.subrange(0, 0) =~= Seq::<u8>::empty());
        lemma_byte_count_empty(s.subrange(0, 0));
    }
    let mut i: usize = 0;
    while i < end_unroll
        invariant
            i <= end_unroll <= len,
            (end_unroll - i) % 32 == 0,
            len == s.len(),
            s == bytes@,
            orig.len() == 256,
            can_add_counts(orig, s.subrange(0, s.len() as int)),
            adds_counts(orig, histogram@, s.subrange(0, i as int)),
        decreases end_unroll - i,
    {
        let ghost ii = i as int;
        // Read four 64-bit values at once.
        let value1: u64 = read_u64_le(bytes, i);
        let value2: u64 = read_u64_le(bytes, i + 8);
        let value3: u64 = read_u64_le(bytes, i + 16);
        let value4: u64 = read_u64_le(bytes, i + 24);
        proof {
            lemma_chunk_can_add(orig, histogram@, s, 0, ii, ii + 8, s.len() as int);
        }
        let ghost mid1: Seq<u32> = histogram@;
        add_u64_lanes(bytes, histogram, i, value1);
        proof {
            lemma_chunk_extend(orig, mid1, histogram@, s, 0, ii, ii + 8);
            lemma_chunk_can_add(orig, histogram@, s, 0, ii + 8, ii + 16, s.len() as int);
        }
        let ghost mid2: Seq<u32> = histogram@;
        add_u64_lanes(bytes, histogram, i + 8, value2);
        proof {
            lemma_chunk_extend(orig, mid2, histogram@, s, 0, ii + 8, ii + 16);
            lemma_chunk_can_add(orig, histogram@, s, 0, ii + 16, ii + 24, s.len() as int);
        }
        let ghost mid3: Seq<u32> = histogram@;
        add_u64_lanes(bytes, histogram, i + 16, value3);
        proof {
            lemma_chunk_extend(orig, mid3, histogram@, s, 0, ii + 16, ii + 24);
            lemma_chunk_can_add(orig, histogram@, s, 0, ii + 24, ii + 32, s.len() as int);
        }
        let ghost mid4: Seq<u32> = histogram@;
        add_u64_lanes(bytes, histogram, i + 24, value4);
        proof {
            lemma_chunk_extend(orig, mid4, histogram@, s, 0, ii + 24, ii + 32);
        }
        i = i + 32;
    }
    // Handle remaining bytes that didn't fit in the unrolled loop.
    proof {
        lemma_chunk_can_add(orig, histogram@, s, 0, i as int, len as int, len as int);
    }
    let ghost mid: Seq<u32> = histogram@;
    process_slice_bytewise(bytes, histogram, i);
    proof {
        lemma_chunk_extend(orig, mid, histogram@, s, 0, i as int, len as int);
        lemma_subrange_full(s);
    }
}

/// Byte lane `k` of the 64-bit word `w`.
pub open spec fn u64_byte(w: u64, k: int) -> u8 {
    ((w >> ((8 * k) as u64)) & 0xFF) as u8
}

/// How many of the first `k` byte lanes of `w` hold the value `v`.
pub open spec fn word_count8_upto(w: u64, v: u8, k: int) -> nat
    decreases k,
{
    if k <= 0 {
        0
    } else {
        word_count8_upto(w, v, k - 1) + (if u64_byte(w, k - 1) == v {
            1nat
        } else {
            0nat
        })
    }
}

/// How many of the eight byte lanes of `w` hold the value `v`.
pub open spec fn word_count8(w: u64, v: u8) -> nat {
    word_count8_upto(w, v, 8)
}

/// Total count for byte value `v` across the four accumulator banks.
///
/// The banks are stored back to back: bank `j` occupies indices
/// `j * 256 .. (j + 1) * 256`.
pub open spec fn bank_count(banks: Seq<u32>, v: u8) -> int {
    banks[v as int] + banks[256 + v as int] + banks[512 + v as int] + banks[768 + v as int]
}

proof fn lemma_word_count8_upto_le(w: u64, v: u8, k: int, m: int)
    requires
        0 <= k <= m,
    ensures
        word_count8_upto(w, v, k) <= word_count8_upto(w, v, m),
    decreases m - k,
{
    if k < m {
        lemma_word_count8_upto_le(w, v, k, m - 1);
    }
}

/// A word read little-endian from `s` at offset `i` has the bytes of `s` as
/// its byte lanes.
proof fn lemma_u64_bytes_match(s: Seq<u8>, i: int, value: u64)
    requires
        0 <= i,
        i + 8 <= s.len(),
        value == u64_le_from_8_bytes(s, i),
    ensures
        u64_byte(value, 0) == s[i],
        u64_byte(value, 1) == s[i + 1],
        u64_byte(value, 2) == s[i + 2],
        u64_byte(value, 3) == s[i + 3],
        u64_byte(value, 4) == s[i + 4],
        u64_byte(value, 5) == s[i + 5],
        u64_byte(value, 6) == s[i + 6],
        u64_byte(value, 7) == s[i + 7],
{
    lemma_u64_le_lanes(
        value,
        s[i],
        s[i + 1],
        s[i + 2],
        s[i + 3],
        s[i + 4],
        s[i + 5],
        s[i + 6],
        s[i + 7],
    );
    assert(value >> 0 == value) by (bit_vector);
}

/// If shifting `w` left by one byte changes it by less than one byte's worth
/// of bits, all eight byte lanes of `w` hold the same value.
proof fn lemma_u64_all_bytes_equal(w: u64)
    requires
        ((w << 8) ^ w) < 256,
    ensures
        forall|k: int| 0 <= k < 8 ==> #[trigger] u64_byte(w, k) == u64_byte(w, 0),
        w & 0xFF < 256,
{
    assert(((w << 8) ^ w) < 256 ==> ((w >> 8) & 0xFF == w & 0xFF && (w >> 16) & 0xFF == w & 0xFF
        && (w >> 24) & 0xFF == w & 0xFF && (w >> 32) & 0xFF == w & 0xFF && (w >> 40) & 0xFF == w
        & 0xFF && (w >> 48) & 0xFF == w & 0xFF && (w >> 56) & 0xFF == w & 0xFF && w >> 0 == w && w
        & 0xFF < 256)) by (bit_vector);
    assert forall|k: int| 0 <= k < 8 implies #[trigger] u64_byte(w, k) == u64_byte(w, 0) by {
        if k == 1 {
            assert(u64_byte(w, 1) == u64_byte(w, 0));
        } else if k == 2 {
            assert(u64_byte(w, 2) == u64_byte(w, 0));
        } else if k == 3 {
            assert(u64_byte(w, 3) == u64_byte(w, 0));
        } else if k == 4 {
            assert(u64_byte(w, 4) == u64_byte(w, 0));
        } else if k == 5 {
            assert(u64_byte(w, 5) == u64_byte(w, 0));
        } else if k == 6 {
            assert(u64_byte(w, 6) == u64_byte(w, 0));
        } else if k == 7 {
            assert(u64_byte(w, 7) == u64_byte(w, 0));
        }
    }
}

/// In a word whose byte lanes are all equal, a value occurs eight times in
/// the lanes if it is the lane value and zero times otherwise.
proof fn lemma_word_count8_const(w: u64)
    requires
        forall|k: int| 0 <= k < 8 ==> #[trigger] u64_byte(w, k) == u64_byte(w, 0),
    ensures
        forall|v: u8| #[trigger] word_count8(w, v) == (if v == u64_byte(w, 0) {
            8nat
        } else {
            0nat
        }),
{
    assert forall|v: u8| #[trigger] word_count8(w, v) == (if v == u64_byte(w, 0) {
        8nat
    } else {
        0nat
    }) by {
        assert(word_count8_upto(w, v, 1) == word_count8_upto(w, v, 0) + (if u64_byte(w, 0) == v {
            1nat
        } else {
            0nat
        }));
        assert(word_count8_upto(w, v, 2) == word_count8_upto(w, v, 1) + (if u64_byte(w, 1) == v {
            1nat
        } else {
            0nat
        }));
        assert(word_count8_upto(w, v, 3) == word_count8_upto(w, v, 2) + (if u64_byte(w, 2) == v {
            1nat
        } else {
            0nat
        }));
        assert(word_count8_upto(w, v, 4) == word_count8_upto(w, v, 3) + (if u64_byte(w, 3) == v {
            1nat
        } else {
            0nat
        }));
        assert(word_count8_upto(w, v, 5) == word_count8_upto(w, v, 4) + (if u64_byte(w, 4) == v {
            1nat
        } else {
            0nat
        }));
        assert(word_count8_upto(w, v, 6) == word_count8_upto(w, v, 5) + (if u64_byte(w, 5) == v {
            1nat
        } else {
            0nat
        }));
        assert(word_count8_upto(w, v, 7) == word_count8_upto(w, v, 6) + (if u64_byte(w, 6) == v {
            1nat
        } else {
            0nat
        }));
        assert(word_count8_upto(w, v, 8) == word_count8_upto(w, v, 7) + (if u64_byte(w, 7) == v {
            1nat
        } else {
            0nat
        }));
    }
}

/// Extending a prefix of `s` by eight bytes that match the byte lanes of `w`
/// adds the lane counts of `w` to every bucket.
proof fn lemma_byte_count_word8(s: Seq<u8>, p: int, w: u64, q: int)
    requires
        0 <= p,
        p + 8 <= s.len(),
        q == p + 8,
        s[p] == u64_byte(w, 0),
        s[p + 1] == u64_byte(w, 1),
        s[p + 2] == u64_byte(w, 2),
        s[p + 3] == u64_byte(w, 3),
        s[p + 4] == u64_byte(w, 4),
        s[p + 5] == u64_byte(w, 5),
        s[p + 6] == u64_byte(w, 6),
        s[p + 7] == u64_byte(w, 7),
    ensures
        forall|v: u8| #[trigger] byte_count(s.subrange(0, q), v) == byte_count(s.subrange(0, p), v)
            + word_count8(w, v),
{
    crate::histogram::lemma_byte_count_snoc(s, 0, p, p + 1);
    crate::histogram::lemma_byte_count_snoc(s, 0, p + 1, p + 2);
    crate::histogram::lemma_byte_count_snoc(s, 0, p + 2, p + 3);
    crate::histogram::lemma_byte_count_snoc(s, 0, p + 3, p + 4);
    crate::histogram::lemma_byte_count_snoc(s, 0, p + 4, p + 5);
    crate::histogram::lemma_byte_count_snoc(s, 0, p + 5, p + 6);
    crate::histogram::lemma_byte_count_snoc(s, 0, p + 6, p + 7);
    crate::histogram::lemma_byte_count_snoc(s, 0, p + 7, p + 8);
    assert forall|v: u8| #[trigger] byte_count(s.subrange(0, q), v) == byte_count(
        s.subrange(0, p),
        v,
    ) + word_count8(w, v) by {
        assert(byte_count(s.subrange(0, p + 1), v) == byte_count(s.subrange(0, p), v) + (if s[p]
            == v {
            1int
        } else {
            0int
        }));
        assert(byte_count(s.subrange(0, p + 8), v) == byte_count(s.subrange(0, p + 7), v) + (if s[p
            + 7] == v {
            1int
        } else {
            0int
        }));
        assert(word_count8_upto(w, v, 1) == word_count8_upto(w, v, 0) + (if u64_byte(w, 0) == v {
            1nat
        } else {
            0nat
        }));
        assert(word_count8_upto(w, v, 2) == word_count8_upto(w, v, 1) + (if u64_byte(w, 1) == v {
            1nat
        } else {
            0nat
        }));
        assert(word_count8_upto(w, v, 3) == word_count8_upto(w, v, 2) + (if u64_byte(w, 2) == v {
            1nat
        } else {
            0nat
        }));
        assert(word_count8_upto(w, v, 4) == word_count8_upto(w, v, 3) + (if u64_byte(w, 3) == v {
            1nat
        } else {
            0nat
        }));
        assert(word_count8_upto(w, v, 5) == word_count8_upto(w, v, 4) + (if u64_byte(w, 4) == v {
            1nat
        } else {
            0nat
        }));
        assert(word_count8_upto(w, v, 6) == word_count8_upto(w, v, 5) + (if u64_byte(w, 5) == v {
            1nat
        } else {
            0nat
        }));
        assert(word_count8_upto(w, v, 7) == word_count8_upto(w, v, 6) + (if u64_byte(w, 6) == v {
            1nat
        } else {
            0nat
        }));
        assert(word_count8_upto(w, v, 8) == word_count8_upto(w, v, 7) + (if u64_byte(w, 7) == v {
            1nat
        } else {
            0nat
        }));
    }
}

/// Adds `increment` to the bank slot of each byte lane of `value`, routing
/// lane `k` to bank `k % 4` to avoid write-after-write hazards.
fn sum8(banks: &mut [u32; 1024], value: u64, increment: u32)
    requires
        forall|v: u8| bank_count(old(banks)@, v) + increment * (#[trigger] word_count8(value, v))
            <= u32::MAX,
    ensures
        forall|v: u8| #[trigger] bank_count(final(banks)@, v) == bank_count(old(banks)@, v)
            + increment * word_count8(value, v),
{
    let ghost orig: Seq<u32> = banks@;
    let mut index: usize = 0;
    proof {
        assert forall|v: u8| #[trigger] bank_count(banks@, v) == bank_count(orig, v) + increment
            * word_count8_upto(value, v, 0) by {
            vstd::arithmetic::mul::lemma_mul_basics_2(increment as int);
        }
    }
    while index < 8
        invariant
            index <= 8,
            orig.len() == 1024,
            forall|v: u8| bank_count(orig, v) + increment * (#[trigger] word_count8(value, v))
                <= u32::MAX,
            forall|v: u8| #[trigger] bank_count(banks@, v) == bank_count(orig, v) + increment
                * word_count8_upto(value, v, index as int),
        decreases 8 - index,
    {
        let sh: u64 = 8 * (index as u64);
        let lane: u64 = (value >> sh) & 0xFF;
        proof {
            assert((value >> sh) & 0xFF < 256) by (bit_vector);
        }
        let byte: usize = lane as usize;
        let slice_offset: usize = (index % 4) * 256;
        let idx: usize = slice_offset + byte;
        let ghost b: u8 = lane as u8;
        proof {
            assert(u64_byte(value, index as int) == b);
            // The slot is one summand of `bank_count(banks@, b)`, whose bound
            // follows from the lane counts still to come.
            lemma_word_count8_upto_le(value, b, index as int + 1, 8);
            vstd::arithmetic::mul::lemma_mul_is_distributive_add(
                increment as int,
                word_count8_upto(value, b, index as int) as int,
                1,
            );
            vstd::arithmetic::mul::lemma_mul_inequality(
                word_count8_upto(value, b, index as int + 1) as int,
                word_count8(value, b) as int,
                increment as int,
            );
            vstd::arithmetic::mul::lemma_mul_is_commutative(
                increment as int,
                word_count8_upto(value, b, index as int + 1) as int,
            );
            vstd::arithmetic::mul::lemma_mul_is_commutative(
                increment as int,
                word_count8(value, b) as int,
            );
            assert(word_count8_upto(value, b, index as int + 1) == word_count8_upto(
                value,
                b,
                index as int,
            ) + 1);
            assert(bank_count(banks@, b) == bank_count(orig, b) + increment * word_count8_upto(
                value,
                b,
                index as int,
            ));
            assert(byte == b as int);
            assert(banks@[idx as int] <= bank_count(banks@, b));
            assert(bank_count(orig, b) + increment * word_count8(value, b) <= u32::MAX);
            assert(banks@[idx as int] + increment <= u32::MAX);
        }
        let ghost mid: Seq<u32> = banks@;
        let cur: u32 = banks[idx];
        banks[idx] = cur + increment;
        proof {
            assert forall|v: u8| #[trigger] bank_count(banks@, v) == bank_count(orig, v) + increment
                * word_count8_upto(value, v, index as int + 1) by {
                assert(bank_count(mid, v) == bank_count(orig, v) + increment * word_count8_upto(
                    value,
                    v,
                    index as int,
                ));
                assert(banks@ == mid.update(idx as int, (cur + increment) as u32));
                assert(bank_count(banks@, v) == bank_count(mid, v) + (if v == b {
                    increment as int
                } else {
                    0int
                }));
                assert(word_count8_upto(value, v, index as int + 1) == word_count8_upto(
                    value,
                    v,
                    index as int,
                ) + (if u64_byte(value, index as int) == v {
                    1nat
                } else {
                    0nat
                }));
                vstd::arithmetic::mul::lemma_mul_is_distributive_add(
                    increment as int,
                    word_count8_upto(value, v, index as int) as int,
                    1,
                );
            }
        }
        index = index + 1;
    }
}

/// Histogram generation over four independent accumulator banks with a
/// run-detection fast path, merged by a strided reduction at the end.
///
/// Unlike the other builders this one overwrites `histogram_result` instead
/// of adding to it: bucket `v` ends up holding exactly `byte_count(data@, v)`.
pub fn histogram_nonaliased_withruns_core(data: &[u8], histogram_result: &mut Histogram32)
    requires
        forall|v: u8| #[trigger] byte_count(data@, v) <= u32::MAX,
    ensures
        forall|v: u8| final(histogram_result)@[v as int] == #[trigger] byte_count(data@, v),
{
    let ghost s = data@;
    let mut banks: [u32; 1024] = [0; 1024];
    let len: usize = data.len();
    let mut p: usize = 0;
    proof {
        assert(s.subrange(0, 0) =~= Seq::<u8>::empty());
        lemma_byte_count_empty(s.subrange(0, 0));
        assert forall|v: u8| #[trigger] bank_count(banks@, v) == byte_count(
            s.subrange(0, 0),
            v,
        ) by {
            assert(banks@[v as int] == 0);
            assert(banks@[256 + v as int] == 0);
            assert(banks@[512 + v as int] == 0);
            assert(banks@[768 + v as int] == 0);
        }
    }
    if len > 24 {
        let aligned_end: usize = len - 24;
        while p < aligned_end
            invariant
                p <= len,
                len == s.len(),
                s == data@,
                len > 24,
                aligned_end == len - 24,
                forall|v: u8| #[trigger] byte_count(s, v) <= u32::MAX,
                forall|v: u8| #[trigger] bank_count(banks@, v) == byte_count(
                    s.subrange(0, p as int),
                    v,
                ),
            decreases len - p,
        {
            let ghost pp = p as int;
            let current: u64 = read_u64_le(data, p);
            let next: u64 = read_u64_le(data, p + 8);
            proof {
                lemma_u64_bytes_match(s, pp, current);
                lemma_u64_bytes_match(s, pp + 8, next);
                lemma_byte_count_word8(s, pp, current, pp + 8);
                lemma_byte_count_subrange_le(s, 0, pp + 16, len as int);
                lemma_subrange_full(s);
            }
            if current == next {
                // The next eight bytes repeat the current eight, so both
                // windows contribute the lane counts of `current` once each.
                proof {
                    lemma_byte_count_word8(s, pp + 8, current, pp + 16);
                }
                let shifted: u64 = current << 8;
                if (shifted ^ current) < 256 {
                    // All sixteen bytes are the same value: bump one bucket
                    // by 16 in a single step.
                    proof {
                        lemma_u64_all_bytes_equal(current);
                        lemma_word_count8_const(current);
                    }
                    let b0: usize = (current & 0xFF) as usize;
                    let ghost b: u8 = (current & 0xFF) as u8;
                    proof {
                        assert(u64_byte(current, 0) == b) by {
                            assert(current >> 0 == current) by (bit_vector);
                        }
                        assert(byte_count(s.subrange(0, pp + 16), b) == byte_count(
                            s.subrange(0, pp),
                            b,
                        ) + 16);
                        assert(bank_count(banks@, b) == byte_count(s.subrange(0, pp), b));
                        assert(byte_count(s.subrange(0, pp + 16), b) <= byte_count(
                            s.subrange(0, len as int),
                            b,
                        ));
                        assert(byte_count(s, b) <= u32::MAX);
                        assert(banks@[b0 as int] <= bank_count(banks@, b));
                        assert(banks@[b0 as int] + 16 <= u32::MAX);
                    }
                    let ghost midb: Seq<u32> = banks@;
                    let cur: u32 = banks[b0];
                    banks[b0] = cur + 16;
                    proof {
                        assert forall|v: u8| #[trigger] bank_count(banks@, v) == byte_count(
                            s.subrange(0, pp + 16),
                            v,
                        ) by {
                            assert(bank_count(midb, v) == byte_count(s.subrange(0, pp), v));
                            assert(banks@ == midb.update(b0 as int, (cur + 16) as u32));
                            assert(bank_count(banks@, v) == bank_count(midb, v) + (if v == b {
                                16int
                            } else {
                                0int
                            }));
                            assert(byte_count(s.subrange(0, pp + 16), v) == byte_count(
                                s.subrange(0, pp + 8),
                                v,
                            ) + word_count8(current, v));
                            assert(byte_count(s.subrange(0, pp + 8), v) == byte_count(
                                s.subrange(0, pp),
                                v,
                            ) + word_count8(current, v));
                            assert(word_count8(current, v) == (if v == b {
                                8nat
                            } else {
                                0nat
                            }));
                        }
                    }
                } else {
                    // Same eight bytes twice: add the lane counts with
                    // weight 2 in one pass.
                    proof {
                        assert forall|v: u8| bank_count(banks@, v) + 2 * (#[trigger] word_count8(
                            current,
                            v,
                        )) <= u32::MAX by {
                            assert(byte_count(s.subrange(0, pp + 16), v) == byte_count(
                                s.subrange(0, pp),
                                v,
                            ) + word_count8(current, v) + word_count8(current, v));
                        }
                    }
                    sum8(&mut banks, current, 2);
                    proof {
                        assert forall|v: u8| #[trigger] bank_count(banks@, v) == byte_count(
                            s.subrange(0, pp + 16),
                            v,
                        ) by {
                            assert(byte_count(s.subrange(0, pp + 16), v) == byte_count(
                                s.subrange(0, pp),
                                v,
                            ) + word_count8(current, v) + word_count8(current, v));
                        }
                    }
                }
            } else {
                // Two distinct windows: add each one's lane counts.
                proof {
                    lemma_byte_count_word8(s, pp + 8, next, pp + 16);
                    lemma_byte_count_subrange_le(s, 0, pp + 8, len as int);
                    assert forall|v: u8| bank_count(banks@, v) + 1 * (#[trigger] word_count8(
                        current,
                        v,
                    )) <= u32::MAX by {
                        assert(byte_count(s.subrange(0, pp + 8), v) == byte_count(
                            s.subrange(0, pp),
                            v,
                        ) + word_count8(current, v));
                    }
                }
                sum8(&mut banks, current, 1);
                proof {
                    assert forall|v: u8| bank_count(banks@, v) + 1 * (#[trigger] word_count8(
                        next,
                        v,
                    )) <= u32::MAX by {
                        assert(byte_count(s.subrange(0, pp + 8), v) == byte_count(
                            s.subrange(0, pp),
                            v,
                        ) + word_count8(current, v));
                        assert(byte_count(s.subrange(0, pp + 16), v) == byte_count(
                            s.subrange(0, pp + 8),
                            v,
                        ) + word_count8(next, v));
                    }
                }
                sum8(&mut banks, next, 1);
                proof {
                    assert forall|v: u8| #[trigger] bank_count(banks@, v) == byte_count(
                        s.subrange(0, pp + 16),
                        v,
                    ) by {
                        assert(byte_count(s.subrange(0, pp + 8), v) == byte_count(
                            s.subrange(0, pp),
                            v,
                        ) + word_count8(current, v));
                        assert(byte_count(s.subrange(0, pp + 16), v) == byte_count(
                            s.subrange(0, pp + 8),
                            v,
                        ) + word_count8(next, v));
                    }
                }
            }
            p = p + 16;
        }
    }
    // Process the remaining bytes one at a time into the first bank.
    while p < len
        invariant
            p <= len,
            len == s.len(),
            s == data@,
            forall|v: u8| #[trigger] byte_count(s, v) <= u32::MAX,
            forall|v: u8| #[trigger] bank_count(banks@, v) == byte_count(
                s.subrange(0, p as int),
                v,
            ),
        decreases len - p,
    {
        let b: u8 = data[p];
        proof {
            lemma_byte_count_snoc(s, 0, p as int, p as int + 1);
            lemma_byte_count_subrange_le(s, 0, p as int + 1, len as int);
            lemma_subrange_full(s);
            assert(byte_count(s.subrange(0, p as int + 1), b) == byte_count(
                s.subrange(0, p as int),
                b,
            ) + 1);
            assert(bank_count(banks@, b) == byte_count(s.subrange(0, p as int), b));
            assert(byte_count(s.subrange(0, p as int + 1), b) <= byte_count(
                s.subrange(0, len as int),
                b,
            ));
            assert(byte_count(s, b) <= u32::MAX);
            assert(banks@[b as int] <= bank_count(banks@, b));
            assert(banks@[b as int] + 1 <= u32::MAX);
        }
        let idx: usize = b as usize;
        let ghost midb: Seq<u32> = banks@;
        let cur: u32 = banks[idx];
        banks[idx] = cur + 1;
        proof {
            assert forall|v: u8| #[trigger] bank_count(banks@, v) == byte_count(
                s.subrange(0, p as int + 1),
                v,
            ) by {
                assert(bank_count(midb, v) == byte_count(s.subrange(0, p as int), v));
                assert(banks@ == midb.update(b as int, (cur + 1) as u32));
                assert(bank_count(banks@, v) == bank_count(midb, v) + (if v == b {
                    1int
                } else {
                    0int
                }));
                assert(byte_count(s.subrange(0, p as int + 1), v) == byte_count(
                    s.subrange(0, p as int),
                    v,
                ) + (if s[p as int] == v {
                    1int
                } else {
                    0int
                }));
            }
        }
        p = p + 1;
    }
    // Sum the four banks into the final result; each bucket is reduced
    // independently, which vectorizes well.
    proof {
        lemma_subrange_full(s);
        assert forall|v: u8| #[trigger] bank_count(banks@, v) == byte_count(s, v) by {
            assert(bank_count(banks@, v) == byte_count(s.subrange(0, len as int), v));
        }
    }
    let mut v: usize = 0;
    while v < 256
        invariant
            v <= 256,
            s == data@,
            forall|u: u8| #[trigger] bank_count(banks@, u) == byte_count(s, u),
            forall|u: u8| #[trigger] byte_count(s, u) <= u32::MAX,
            forall|u: int| 0 <= u < v ==> #[trigger] histogram_result@[u] == byte_count(
                s,
                u as u8,
            ),
        decreases 256 - v,
    {
        let ghost u: u8 = v as u8;
        let sum0: u32 = banks[v];
        let sum1: u32 = banks[256 + v];
        let sum2: u32 = banks[512 + v];
        let sum3: u32 = banks[768 + v];
        proof {
            assert(sum0 == banks@[u as int]);
            assert(sum1 == banks@[256 + u as int]);
            assert(sum2 == banks@[512 + u as int]);
            assert(sum3 == banks@[768 + u as int]);
            assert(bank_count(banks@, u) == byte_count(s, u));
        }
        let total: u32 = sum0 + sum1 + sum2 + sum3;
        let ghost midh: Seq<u32> = histogram_result@;
        histogram_result.inner.counter[v] = total;
        proof {
            assert(histogram_result@ == midh.update(v as int, total));
            assert forall|u2: int| 0 <= u2 < v + 1 implies #[trigger] histogram_result@[u2]
                == byte_count(s, u2 as u8) by {
                if u2 == v as int {
                    assert(histogram_result@[u2] == total);
                    assert(u2 as u8 == u);
                    assert(bank_count(banks@, u) == byte_count(s, u));
                } else {
                    assert(histogram_result@[u2] == midh[u2]);
                    assert(midh[u2] == byte_count(s, u2 as u8));
                }
            }
        }
        v = v + 1;
    }
}

} // verus!
