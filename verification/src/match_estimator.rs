//! Match Estimator
//!
//! This module estimates the number of matches in the data, once LZ
//! compression is applied to a given byte array: positions at which a
//! repeated substring of three or more bytes occurs.
//!
//! The algorithm streams the buffer through a fixed-size, direct-mapped
//! table of 32-bit hashes with unconditional overwrite. For each window
//! position the low three bytes of a four-byte read are hashed by
//! multiplying with a golden-ratio constant; if the table slot addressed by
//! the hash's high bits already holds that hash, one match is counted, and
//! the slot is overwritten either way. Hash collisions are silently counted
//! as matches — the result is a bounded approximation, not an exact count.
//!
//! Four window positions are processed per loop iteration, and all four
//! lookups of a batch happen before any of that batch's writes, so matches
//! of a position against an earlier position of the same batch are never
//! detected. This is a deliberate speed/accuracy trade-off, and the
//! specification ([`spec_estimate_num_lz_matches`]) pins it down exactly.

use crate::histogram::histogram32::u32_le_from_4_bytes;
use vstd::prelude::*;

verus! {

/// Golden ratio constant used for better hash scattering: a very
/// "irrational" multiplier that spreads input bits evenly across the high
/// bits of the product.
pub const GOLDEN_RATIO: u32 = 0x9E3779B1;

/// Number of hash bits used to index the table.
///
/// The table is sized to fill a CPU L1 data cache: 2^15 slots of 4 bytes
/// each are 128 KiB, chosen empirically as the best accuracy/speed point.
pub const HASH_BITS: usize = 15;

/// Number of slots in the hash table; equals 2 to the power [`HASH_BITS`].
pub const HASH_SIZE: usize = 32768;

/// The hash of a 32-bit value: multiplication by [`GOLDEN_RATIO`] modulo
/// 2^32.
#[verifier::opaque]
pub open spec fn spec_hash_u32(value: u32) -> u32 {
    vstd::wrapping::u32_specs::wrapping_mul(value, GOLDEN_RATIO)
}

/// Hashes a 32-bit value by multiplying it with the golden ratio.
pub fn hash_u32(value: u32) -> (r: u32)
    ensures
        r == spec_hash_u32(value),
{
    proof {
        reveal(spec_hash_u32);
    }
    value.wrapping_mul(GOLDEN_RATIO)
}

/// Drops the upper 8 bits of a 32-bit value.
pub fn reduce_to_3byte(value: u32) -> (r: u32)
    ensures
        r == value & 0xFFFFFF,
{
    value & 0xFFFFFF
}

/// Reads a 4 byte little-endian value from `bytes` at `offset`.
fn read_4_byte_le_unaligned(bytes: &[u8], offset: usize) -> (r: u32)
    requires
        offset + 4 <= bytes@.len(),
    ensures
        r == u32_le_from_4_bytes(bytes@, offset as int),
{
    (bytes[offset] as u32) | (bytes[offset + 1] as u32) << 8 | (bytes[offset + 2] as u32) << 16 | (
    bytes[offset + 3] as u32) << 24
}

/// The hash stored for the window at position `pos`: the low three bytes of
/// the four-byte read, scattered by the golden-ratio multiply.
pub open spec fn window_hash(s: Seq<u8>, pos: int) -> u32 {
    spec_hash_u32(u32_le_from_4_bytes(s, pos) & 0xFFFFFF)
}

/// The table slot addressed by hash `h`: its high [`HASH_BITS`] bits.
pub open spec fn table_index(h: u32) -> int {
    (h >> ((32 - HASH_BITS) as u32)) as int
}

proof fn lemma_table_index_bound(h: u32)
    ensures
        0 <= table_index(h) < HASH_SIZE,
{
    assert(h >> 17u32 < 32768) by (bit_vector);
}

/// Matches counted by one four-window batch at `pos`: every lookup happens
/// against the table as it stood before the batch.
pub open spec fn batch_match_count(table: Seq<u32>, s: Seq<u8>, pos: int) -> nat {
    (if table[table_index(window_hash(s, pos))] == window_hash(s, pos) {
        1nat
    } else {
        0nat
    }) + (if table[table_index(window_hash(s, pos + 1))] == window_hash(s, pos + 1) {
        1nat
    } else {
        0nat
    }) + (if table[table_index(window_hash(s, pos + 2))] == window_hash(s, pos + 2) {
        1nat
    } else {
        0nat
    }) + (if table[table_index(window_hash(s, pos + 3))] == window_hash(s, pos + 3) {
        1nat
    } else {
        0nat
    })
}

/// The table after one four-window batch at `pos`: the four slots are
/// overwritten in window order, last write wins.
pub open spec fn batch_table_update(table: Seq<u32>, s: Seq<u8>, pos: int) -> Seq<u32> {
    table.update(table_index(window_hash(s, pos)), window_hash(s, pos)).update(
        table_index(window_hash(s, pos + 1)),
        window_hash(s, pos + 1),
    ).update(table_index(window_hash(s, pos + 2)), window_hash(s, pos + 2)).update(
        table_index(window_hash(s, pos + 3)),
        window_hash(s, pos + 3),
    )
}

/// How many four-window batches a buffer of length `len` is processed in:
/// window positions run up to `len - 7`, in steps of four.
pub open spec fn num_batches(len: nat) -> nat {
    if len <= 7 {
        0
    } else {
        (((len - 7) + 3) / 4) as nat
    }
}

/// The hash table after the first `k` batches, starting from all zeroes.
pub open spec fn table_after_batches(s: Seq<u8>, k: nat) -> Seq<u32>
    decreases k,
{
    if k == 0 {
        Seq::new(HASH_SIZE as nat, |i: int| 0u32)
    } else {
        batch_table_update(table_after_batches(s, (k - 1) as nat), s, 4 * ((k - 1) as int))
    }
}

/// The match count after the first `k` batches.
pub open spec fn matches_after_batches(s: Seq<u8>, k: nat) -> nat
    decreases k,
{
    if k == 0 {
        0
    } else {
        matches_after_batches(s, (k - 1) as nat) + batch_match_count(
            table_after_batches(s, (k - 1) as nat),
            s,
            4 * ((k - 1) as int),
        )
    }
}

/// The exact result of the streaming match estimator on `s`.
pub open spec fn spec_estimate_num_lz_matches(s: Seq<u8>) -> nat {
    matches_after_batches(s, num_batches(s.len()))
}

proof fn lemma_batch_step(s: Seq<u8>, k: nat, k1: nat)
    requires
        k1 == k + 1,
    ensures
        table_after_batches(s, k1) == batch_table_update(
            table_after_batches(s, k),
            s,
            4 * (k as int),
        ),
        matches_after_batches(s, k1) == matches_after_batches(s, k) + batch_match_count(
            table_after_batches(s, k),
            s,
            4 * (k as int),
        ),
{
    assert((k1 - 1) as nat == k);
}

/// Processes the four windows at `pos`, `pos + 1`, `pos + 2`, `pos + 3`:
/// looks all four hashes up against the table as it stands, counts the
/// slots that already hold their hash, then overwrites all four slots.
fn process_batch(hash_table: &mut Vec<u32>, bytes: &[u8], pos: usize, matches: &mut usize)
    requires
        old(hash_table)@.len() == HASH_SIZE,
        pos + 7 <= bytes@.len(),
        bytes@.len() <= usize::MAX,
        *old(matches) + 4 <= usize::MAX,
    ensures
        final(hash_table)@.len() == HASH_SIZE,
        final(hash_table)@ == batch_table_update(old(hash_table)@, bytes@, pos as int),
        *final(matches) == *old(matches) + batch_match_count(old(hash_table)@, bytes@, pos as int),
{
    let ghost s = bytes@;
    // Get the windows at pos, pos+1, pos+2, pos+3.
    let d0: u32 = read_4_byte_le_unaligned(bytes, pos);
    let d1: u32 = read_4_byte_le_unaligned(bytes, pos + 1);
    let d2: u32 = read_4_byte_le_unaligned(bytes, pos + 2);
    let d3: u32 = read_4_byte_le_unaligned(bytes, pos + 3);

    // Drop the byte we're not accounting for.
    let d0: u32 = reduce_to_3byte(d0);
    let d1: u32 = reduce_to_3byte(d1);
    let d2: u32 = reduce_to_3byte(d2);
    let d3: u32 = reduce_to_3byte(d3);

    // Convert to hashes.
    let h0: u32 = hash_u32(d0);
    let h1: u32 = hash_u32(d1);
    let h2: u32 = hash_u32(d2);
    let h3: u32 = hash_u32(d3);

    // Index by the high HASH_BITS bits of each hash; the low bits of the
    // product are poorly mixed, the high bits well mixed.
    let index0: usize = (h0 >> ((32 - HASH_BITS) as u32)) as usize;
    let index1: usize = (h1 >> ((32 - HASH_BITS) as u32)) as usize;
    let index2: usize = (h2 >> ((32 - HASH_BITS) as u32)) as usize;
    let index3: usize = (h3 >> ((32 - HASH_BITS) as u32)) as usize;
    proof {
        lemma_table_index_bound(h0);
        lemma_table_index_bound(h1);
        lemma_table_index_bound(h2);
        lemma_table_index_bound(h3);
        assert(h0 == window_hash(s, pos as int));
        assert(h1 == window_hash(s, pos as int + 1));
        assert(h2 == window_hash(s, pos as int + 2));
        assert(h3 == window_hash(s, pos as int + 3));
        assert(index0 as int == table_index(h0));
        assert(index1 as int == table_index(h1));
        assert(index2 as int == table_index(h2));
        assert(index3 as int == table_index(h3));
    }
    let ghost table0: Seq<u32> = hash_table@;

    // A slot already holding the same 32-bit hash indicates a very likely
    // LZ match. All four lookups read the table as it stood before this
    // batch's writes.
    let m0: bool = hash_table[index0] == h0;
    let m1: bool = hash_table[index1] == h1;
    let m2: bool = hash_table[index2] == h2;
    let m3: bool = hash_table[index3] == h3;
    if m0 {
        *matches = *matches + 1;
    }
    if m1 {
        *matches = *matches + 1;
    }
    if m2 {
        *matches = *matches + 1;
    }
    if m3 {
        *matches = *matches + 1;
    }

    // Update the slots, last write wins.
    hash_table[index0] = h0;
    hash_table[index1] = h1;
    hash_table[index2] = h2;
    hash_table[index3] = h3;

    proof {
        assert(hash_table@ == batch_table_update(table0, s, pos as int));
        assert(*matches == *old(matches) + batch_match_count(table0, s, pos as int));
    }
}

/// Estimates the number of >=3 byte LZ matches in a given input data stream,
/// sacrificing a bit of accuracy for speed: short-range matches are found
/// reliably, long-range ones are undercounted.
///
/// The result is exactly [`spec_estimate_num_lz_matches`] of the input: a
/// deterministic, bounded approximation of the true number of repeated
/// substrings. Inputs too short for even one window (fewer than 8 bytes)
/// yield zero.
pub fn estimate_num_lz_matches_fast(bytes: &[u8]) -> (matches: usize)
    ensures
        matches == spec_estimate_num_lz_matches(bytes@),
        matches <= bytes@.len(),
        bytes@.len() < 8 ==> matches == 0,
{
    let ghost s = bytes@;
    let len: usize = bytes.len();

    // The hash table stores 3-byte hashes, allocated zeroed per call.
    let mut hash_table: Vec<u32> = Vec::new();
    let mut t: usize = 0;
    while t < HASH_SIZE
        invariant
            t <= HASH_SIZE,
            hash_table@.len() == t,
            forall|q: int| 0 <= q < t ==> hash_table@[q] == 0u32,
        decreases HASH_SIZE - t,
    {
        hash_table.push(0);
        t = t + 1;
    }
    proof {
        assert(hash_table@ =~= Seq::new(HASH_SIZE as nat, |i: int| 0u32));
        assert(hash_table@ == table_after_batches(s, 0));
    }

    // 7 == 4 bytes for the u32 hash window, plus 3 bytes of trailing
    // context that the estimate drops.
    let end: usize = len.saturating_sub(7);

    let mut matches: usize = 0;
    let mut pos: usize = 0;
    let ghost mut k: nat = 0;
    while pos < end
        invariant
            len == s.len(),
            s == bytes@,
            end == len.saturating_sub(7),
            pos == 4 * k,
            pos < end + 4,
            pos <= len,
            matches <= pos,
            hash_table@.len() == HASH_SIZE,
            hash_table@ == table_after_batches(s, k),
            matches == matches_after_batches(s, k),
        decreases len - pos,
    {
        let ghost table0: Seq<u32> = hash_table@;
        process_batch(&mut hash_table, bytes, pos, &mut matches);
        proof {
            lemma_batch_step(s, k, k + 1);
            assert(4 * (k as int) == pos as int);
            assert(hash_table@ == batch_table_update(table0, s, pos as int));
            assert(batch_match_count(table0, s, pos as int) <= 4);
            k = k + 1;
        }
        pos = pos + 4;
    }
    proof {
        if len <= 7 {
            assert(end == 0);
            assert(k == 0);
            assert(num_batches(s.len()) == 0);
        } else {
            assert(end == len - 7);
            assert(end <= 4 * k < end + 4);
            assert(k as int == ((len - 7) + 3) / 4);
            assert(k == num_batches(s.len()));
        }
    }
    matches
}

} // verus!
