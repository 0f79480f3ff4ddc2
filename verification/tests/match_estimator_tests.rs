use lossless_transform_utils::match_estimator::estimate_num_lz_matches_fast;
use lossless_transform_utils::match_estimator::hash_u32;
use lossless_transform_utils::match_estimator::reduce_to_3byte;

#[test]
fn can_hash_u32() {
    // Test that different inputs produce different hashes
    assert_ne!(
        hash_u32(1),
        hash_u32(2),
        "Different inputs should produce different hashes"
    );
}

#[test]
fn hash_u32_is_golden_ratio_multiply() {
    assert_eq!(hash_u32(1), 0x9E3779B1);
    assert_eq!(hash_u32(2), 0x9E3779B1u32.wrapping_mul(2));
    assert_eq!(hash_u32(0), 0);
}

#[test]
fn reduce_to_3byte_drops_high_byte() {
    assert_eq!(reduce_to_3byte(0xAABBCCDD), 0x00BBCCDD);
    assert_eq!(reduce_to_3byte(0x00123456), 0x00123456);
    assert_eq!(reduce_to_3byte(0xFF000000), 0);
}

#[test]
fn is_zero_on_empty_input() {
    let empty: Vec<u8> = vec![];
    assert_eq!(
        estimate_num_lz_matches_fast(&empty),
        0,
        "Empty input should return 0 matches"
    );
}

#[test]
fn is_0_on_small_input() {
    // Test input smaller than minimum required length (7 bytes)
    let small = vec![1, 2, 3, 4, 5, 6];
    assert_eq!(
        estimate_num_lz_matches_fast(&small),
        0,
        "Input smaller than 7 bytes should return 0 matches"
    );
}

#[test]
fn test_estimate_num_lz_matches_fast() {
    // Test with data that has some repetition
    let test_data = b"hello world hello world hello";
    let estimate = estimate_num_lz_matches_fast(test_data);
    assert!(
        estimate > 0,
        "Repetitive data should produce at least one match, got {estimate}"
    );
}

// Sixteen zero bytes: every window hashes to zero, which equals both the
// zero-initialized slot and every later overwrite, so each of the twelve
// window positions (three batches of four) counts as a match.
#[test]
fn counts_every_window_on_constant_zero_input() {
    let zeroes = [0u8; 16];
    assert_eq!(estimate_num_lz_matches_fast(&zeroes), 12);
}

fn cast_u16_vec_to_u8_vec(values: &[u16]) -> Vec<u8> {
    let mut bytes = Vec::with_capacity(values.len() * 2);
    for v in values {
        bytes.push((*v & 0xFF) as u8);
        bytes.push((*v >> 8) as u8);
    }
    bytes
}

#[test]
fn with_no_repetition_should_have_no_matches() {
    // 128K of data (a common compressor block size), 0.1% error margin.
    let test_size: usize = 1 << 17;
    let expected = test_size / 1000;

    // Create a sequence with no repeated 3-byte substrings using u16 values.
    let unique: Vec<u16> = (0..u16::MAX).collect();
    let data = cast_u16_vec_to_u8_vec(&unique);

    // There should actually be 0 matches, but there's always going to be a
    // bit of error from hash collisions.
    let matches = estimate_num_lz_matches_fast(&data);
    assert!(
        matches < expected,
        "Sequence with no repetitions should have very few matches, \
         but got {matches} matches, expected at most {expected}"
    );
}

#[test]
fn estimate_num_lz_matches_at_various_offsets() {
    // 128K buffers that repeat every `interval` bytes: after the first
    // interval every position repeats data seen `interval` bytes earlier.
    // The smaller the interval relative to the hash table, the more of
    // those repeats the estimator finds.
    let test_size: usize = 1 << 17;
    let cases: [(usize, usize); 5] = [
        (1 << 12, 113000), // 4K offset: ~89% of repeats found
        (1 << 13, 95000),  // 8K offset: ~78%
        (1 << 14, 60000),  // 16K offset: ~54%
        (1 << 15, 13000),  // 32K offset: ~14%
        (1 << 16, 450),    // 64K offset: under 1%
    ];
    let mut previous_matches = usize::MAX;
    for (match_interval, min_matches) in cases.iter().copied() {
        let mut unique: Vec<u16> = Vec::with_capacity(test_size / 2);
        for x in 0..test_size / 2 {
            unique.push((x % (match_interval / 2)) as u16);
        }
        let matches = estimate_num_lz_matches_fast(&cast_u16_vec_to_u8_vec(&unique));

        assert!(
            matches >= min_matches,
            "Got {matches} matches at interval {match_interval}, below minimum {min_matches}"
        );
        // Shrinking the repeat interval must not reduce the match count.
        assert!(
            matches <= previous_matches,
            "Match count should grow as the interval shrinks: \
             {matches} at interval {match_interval} after {previous_matches}"
        );
        previous_matches = matches;
    }
}
