//! Histogram with 32-bit unsigned counters.
//!
//! [`histogram32_from_bytes`] creates a histogram from a byte slice,
//! dispatching between a simple reference implementation for short inputs and
//! a batched, unrolled implementation for longer ones. Both are verified to
//! add exactly [`byte_count`] occurrences to every bucket, so the dispatch is
//! an implementation seam, not a visible difference.

use crate::histogram::adds_counts;
use crate::histogram::byte_count;
use crate::histogram::can_add_counts;
use crate::histogram::lemma_byte_count_empty;
use crate::histogram::lemma_byte_count_le_len;
use crate::histogram::lemma_chunk_can_add;
use crate::histogram::lemma_chunk_extend;
use crate::histogram::lemma_chunk_extend_one;
use crate::histogram::lemma_chunk_one_byte;
use crate::histogram::lemma_subrange_full;
use crate::histogram::Histogram;
use vstd::prelude::*;

verus! {

/// A histogram using unsigned 32-bit integers as counters.
///
/// The largest input length that is safe with zeroed counters is
/// 4,294,967,295 bytes; beyond that a single bucket could overflow.
#[derive(Clone, Copy, PartialEq, Eq, PartialOrd, Ord)]
pub struct Histogram32 {
    pub inner: Histogram<u32>,
}

impl View for Histogram32 {
    type V = Seq<u32>;

    open spec fn view(&self) -> Seq<u32> {
        self.inner.counter@
    }
}

impl Default for Histogram<u32> {
    /// A zeroed histogram.
    fn default() -> (result: Self)
        ensures
            forall|v: int| 0 <= v < 256 ==> result.counter@[v] == 0,
    {
        Histogram { counter: [0; 256] }
    }
}

impl Default for Histogram32 {
    /// A zeroed histogram.
    fn default() -> (result: Self)
        ensures
            forall|v: int| 0 <= v < 256 ==> result@[v] == 0,
    {
        Histogram32 { inner: Histogram::default() }
    }
}

impl Histogram32 {
    /// This is a shortcut for [`histogram32_from_bytes`].
    pub fn from_bytes(bytes: &[u8]) -> (histogram: Self)
        requires
            bytes@.len() <= u32::MAX,
        ensures
            forall|v: u8| histogram@[v as int] == #[trigger] byte_count(bytes@, v),
    {
        let mut histogram = Histogram32::default();
        proof {
            lemma_byte_count_le_len(bytes@);
        }
        histogram32_from_bytes(bytes, &mut histogram);
        histogram
    }
}

/// Adds one to the bucket of `value`.
pub(crate) fn increment_bucket(histogram: &mut Histogram32, value: u8)
    requires
        old(histogram)@[value as int] < u32::MAX,
    ensures
        final(histogram)@ == old(histogram)@.update(
            value as int,
            (old(histogram)@[value as int] + 1) as u32,
        ),
{
    let idx: usize = value as usize;
    let count: u32 = histogram.inner.counter[idx];
    histogram.inner.counter[idx] = count + 1;
}

/// Processes `bytes[start..]` one byte at a time, adding each occurrence to
/// its bucket.
pub(crate) fn process_slice_bytewise(bytes: &[u8], histogram: &mut Histogram32, start: usize)
    requires
        start <= bytes@.len(),
        can_add_counts(old(histogram)@, bytes@.subrange(start as int, bytes@.len() as int)),
    ensures
        adds_counts(
            old(histogram)@,
            final(histogram)@,
            bytes@.subrange(start as int, bytes@.len() as int),
        ),
{
    let ghost orig: Seq<u32> = histogram@;
    let len: usize = bytes.len();
    let mut i: usize = start;
    proof {
        assert(bytes@.subrange(start as int, start as int) =~= Seq::<u8>::empty());
        lemma_byte_count_empty(bytes@.subrange(start as int, start as int));
    }
    while i < len
        invariant
            start <= i <= len,
            len == bytes@.len(),
            orig.len() == 256,
            can_add_counts(orig, bytes@.subrange(start as int, len as int)),
            adds_counts(orig, histogram@, bytes@.subrange(start as int, i as int)),
        decreases len - i,
    {
        let b: u8 = bytes[i];
        proof {
            lemma_chunk_one_byte(orig, histogram@, bytes@, start as int, i as int, len as int);
        }
        let ghost mid: Seq<u32> = histogram@;
        increment_bucket(histogram, b);
        proof {
            lemma_chunk_extend_one(
                orig,
                mid,
                histogram@,
                bytes@,
                start as int,
                i as int,
                i as int + 1,
            );
        }
        i = i + 1;
    }
}

/// Generic, slower [`Histogram32`] generation that assumes nothing about the
/// input. This is the reference implementation that every other builder is
/// measured against.
pub fn histogram32_reference(bytes: &[u8], histogram: &mut Histogram32)
    requires
        can_add_counts(old(histogram)@, bytes@),
    ensures
        adds_counts(old(histogram)@, final(histogram)@, bytes@),
{
    proof {
        lemma_subrange_full(bytes@);
    }
    process_slice_bytewise(bytes, histogram, 0);
}

/// Calculates a histogram from a byte slice, selecting the implementation by
/// input size: short inputs use the reference loop, longer ones the batched,
/// unrolled-by-4 word decomposition. Both add identical counts.
pub fn histogram32_from_bytes(bytes: &[u8], hist: &mut Histogram32)
    requires
        can_add_counts(old(hist)@, bytes@),
    ensures
        adds_counts(old(hist)@, final(hist)@, bytes@),
{
    // The crossover point is a tuning constant, not a correctness boundary.
    if bytes.len() < 64 {
        histogram32_reference(bytes, hist)
    } else {
        histogram32_generic_batched_unroll_4_u32(bytes, hist)
    }
}

/// The value read by a little-endian 4-byte load at offset `i` of `s`.
pub open spec fn u32_le_from_4_bytes(s: Seq<u8>, i: int) -> u32 {
    (s[i] as u32) | (s[i + 1] as u32) << 8 | (s[i + 2] as u32) << 16 | (s[i + 3] as u32) << 24
}

/// The four bytes of a little-endian 32-bit word are recovered by its byte
/// lanes.
proof fn lemma_u32_le_lanes(value: u32, x0: u8, x1: u8, x2: u8, x3: u8)
    requires
        value == (x0 as u32) | (x1 as u32) << 8 | (x2 as u32) << 16 | (x3 as u32) << 24,
    ensures
        value & 0xFF == x0 as u32,
        (value >> 8) & 0xFF == x1 as u32,
        (value >> 16) & 0xFF == x2 as u32,
        value >> 24 == x3 as u32,
{
    assert(value == (x0 as u32) | (x1 as u32) << 8 | (x2 as u32) << 16 | (x3 as u32) << 24
        ==> value & 0xFF == x0 as u32 && (value >> 8) & 0xFF == x1 as u32 && (value >> 16) & 0xFF
        == x2 as u32 && value >> 24 == x3 as u32) by (bit_vector);
}

/// Reads a 32-bit little-endian word from `bytes` at offset `i`.
pub(crate) fn read_u32_le(bytes: &[u8], i: usize) -> (value: u32)
    requires
        i + 4 <= bytes@.len(),
    ensures
        value == u32_le_from_4_bytes(bytes@, i as int),
{
    (bytes[i] as u32) | (bytes[i + 1] as u32) << 8 | (bytes[i + 2] as u32) << 16 | (bytes[i + 3]
        as u32) << 24
}

/// Unpacks the four byte lanes of `value`, read at offset `i`, and adds each
/// to its bucket.
pub(crate) fn add_u32_lanes(bytes: &[u8], histogram: &mut Histogram32, i: usize, value: u32)
    requires
        i + 4 <= bytes@.len(),
        value == u32_le_from_4_bytes(bytes@, i as int),
        can_add_counts(old(histogram)@, bytes@.subrange(i as int, i as int + 4)),
    ensures
        adds_counts(
            old(histogram)@,
            final(histogram)@,
            bytes@.subrange(i as int, i as int + 4),
        ),
{
    let ghost orig: Seq<u32> = histogram@;
    let ghost s = bytes@;
    let ghost ii = i as int;
    proof {
        lemma_u32_le_lanes(value, s[ii], s[ii + 1], s[ii + 2], s[ii + 3]);
        assert(s.subrange(ii, ii) =~= Seq::<u8>::empty());
    }
    let b0: u8 = (value & 0xFF) as u8;
    let b1: u8 = ((value >> 8) & 0xFF) as u8;
    let b2: u8 = ((value >> 16) & 0xFF) as u8;
    let b3: u8 = (value >> 24) as u8;

    proof {
        lemma_chunk_one_byte(orig, histogram@, s, ii, ii, ii + 4);
        assert(b0 == s[ii]);
    }
    let ghost mid0: Seq<u32> = histogram@;
    increment_bucket(histogram, b0);
    proof {
        lemma_chunk_extend_one(orig, mid0, histogram@, s, ii, ii, ii + 1);
    }

    proof {
        lemma_chunk_one_byte(orig, histogram@, s, ii, ii + 1, ii + 4);
        assert(b1 == s[ii + 1]);
    }
    let ghost mid1: Seq<u32> = histogram@;
    increment_bucket(histogram, b1);
    proof {
        lemma_chunk_extend_one(orig, mid1, histogram@, s, ii, ii + 1, ii + 2);
    }

    proof {
        lemma_chunk_one_byte(orig, histogram@, s, ii, ii + 2, ii + 4);
        assert(b2 == s[ii + 2]);
    }
    let ghost mid2: Seq<u32> = histogram@;
    increment_bucket(histogram, b2);
    proof {
        lemma_chunk_extend_one(orig, mid2, histogram@, s, ii, ii + 2, ii + 3);
    }

    proof {
        lemma_chunk_one_byte(orig, histogram@, s, ii, ii + 3, ii + 4);
        assert(b3 == s[ii + 3]);
    }
    let ghost mid3: Seq<u32> = histogram@;
    increment_bucket(histogram, b3);
    proof {
        lemma_chunk_extend_one(orig, mid3, histogram@, s, ii, ii + 3, ii + 4);
    }
}

/// Batched histogram generation: reads four 32-bit words (16 bytes) per
/// iteration and unpacks their byte lanes, amortizing loop overhead; the
/// remainder is processed one byte at a time.
pub fn histogram32_generic_batched_unroll_4_u32(bytes: &[u8], histogram: &mut Histogram32)
    requires
        can_add_counts(old(histogram)@, bytes@),
    ensures
        adds_counts(old(histogram)@, final(histogram)@, bytes@),
{
    let ghost orig: Seq<u32> = histogram@;
    let len: usize = bytes.len();
    // Round down to a multiple of the 16-byte unrolled step.
    let end_unroll: usize = len - len % 16;
    proof {
        lemma_subrange_full(bytes@);
        assert(bytes@.subrange(0, 0) =~= Seq::<u8>::empty());
    }
    let i: usize = process_four_u32_generic(bytes, histogram, 0, end_unroll);

    // Handle remaining bytes that didn't fit in the unrolled loop.
    proof {
        lemma_chunk_can_add(orig, histogram@, bytes@, 0, i as int, len as int, len as int);
    }
    let ghost mid: Seq<u32> = histogram@;
    process_slice_bytewise(bytes, histogram, i);
    proof {
        lemma_chunk_extend(orig, mid, histogram@, bytes@, 0, i as int, len as int);
        lemma_subrange_full(bytes@);
    }
}

/// The unrolled core of [`histogram32_generic_batched_unroll_4_u32`]:
/// processes 16-byte chunks of `bytes[start..end_unroll]` as four 32-bit
/// words each, and returns the position it stopped at.
pub(crate) fn process_four_u32_generic(
    bytes: &[u8],
    histogram: &mut Histogram32,
    start: usize,
    end_unroll: usize,
) -> (pos: usize)
    requires
        start <= end_unroll <= bytes@.len(),
        (end_unroll - start) % 16 == 0,
        can_add_counts(old(histogram)@, bytes@.subrange(start as int, bytes@.len() as int)),
    ensures
        pos == end_unroll,
        adds_counts(
            old(histogram)@,
            final(histogram)@,
            bytes@.subrange(start as int, end_unroll as int),
        ),
{
    let ghost orig: Seq<u32> = histogram@;
    let ghost s = bytes@;
    let mut i: usize = start;
    proof {
        assert(s.subrange(start as int, start as int) =~= Seq::<u8>::empty());
        lemma_byte_count_empty(s.subrange(start as int, start as int));
    }
    while i < end_unroll
        invariant
            start <= i <= end_unroll <= s.len(),
            (end_unroll - i) % 16 == 0,
            s == bytes@,
            orig.len() == 256,
            can_add_counts(orig, s.subrange(start as int, s.len() as int)),
            adds_counts(orig, histogram@, s.subrange(start as int, i as int)),
        decreases end_unroll - i,
    {
        let ghost ii = i as int;
        // Read four 32-bit values at once.
        let value1: u32 = read_u32_le(bytes, i);
        let value2: u32 = read_u32_le(bytes, i + 4);
        let value3: u32 = read_u32_le(bytes, i + 8);
        let value4: u32 = read_u32_le(bytes, i + 12);

        proof {
            lemma_chunk_can_add(orig, histogram@, s, start as int, ii, ii + 4, s.len() as int);
        }
        let ghost mid1: Seq<u32> = histogram@;
        add_u32_lanes(bytes, histogram, i, value1);
        proof {
            lemma_chunk_extend(orig, mid1, histogram@, s, start as int, ii, ii + 4);
            lemma_chunk_can_add(orig, histogram@, s, start as int, ii + 4, ii + 8, s.len() as int);
        }
        let ghost mid2: Seq<u32> = histogram@;
        add_u32_lanes(bytes, histogram, i + 4, value2);
        proof {
            lemma_chunk_extend(orig, mid2, histogram@, s, start as int, ii + 4, ii + 8);
            lemma_chunk_can_add(orig, histogram@, s, start as int, ii + 8, ii + 12, s.len() as int);
        }
        let ghost mid3: Seq<u32> = histogram@;
        add_u32_lanes(bytes, histogram, i + 8, value3);
        proof {
            lemma_chunk_extend(orig, mid3, histogram@, s, start as int, ii + 8, ii + 12);
            lemma_chunk_can_add(
                orig,
                histogram@,
                s,
                start as int,
                ii + 12,
                ii + 16,
                s.len() as int,
            );
        }
        let ghost mid4: Seq<u32> = histogram@;
        add_u32_lanes(bytes, histogram, i + 12, value4);
        proof {
            lemma_chunk_extend(orig, mid4, histogram@, s, start as int, ii + 12, ii + 16);
        }
        i = i + 16;
    }
    i
}

} // verus!
