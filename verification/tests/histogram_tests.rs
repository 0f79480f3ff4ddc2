use lossless_transform_utils::histogram::histogram32::histogram32_from_bytes;
use lossless_transform_utils::histogram::histogram32::histogram32_reference;
use lossless_transform_utils::histogram::histogram32::Histogram32;
use lossless_transform_utils::histogram::histogram32_private::histogram32_generic_batched_u32;
use lossless_transform_utils::histogram::histogram32_private::histogram32_generic_batched_u64;
use lossless_transform_utils::histogram::histogram32_private::histogram32_generic_batched_unroll_2_u32;
use lossless_transform_utils::histogram::histogram32_private::histogram32_generic_batched_unroll_2_u64;
use lossless_transform_utils::histogram::histogram32_private::histogram32_generic_batched_unroll_4_u64;
use lossless_transform_utils::histogram::histogram32_private::histogram_nonaliased_withruns_core;

#[test]
fn test_histogram32_from_bytes() {
    let test_data = [1u8, 2, 3, 1, 2, 1, 0, 255];
    let mut free_fn_histogram = Histogram32::default();
    histogram32_from_bytes(&test_data, &mut free_fn_histogram);
    let method_histogram = Histogram32::from_bytes(&test_data);

    // Both entry points should produce identical histograms
    assert_eq!(free_fn_histogram.inner.counter, method_histogram.inner.counter);

    // Verify specific counts
    assert_eq!(free_fn_histogram.inner.counter[0], 1); // byte 0 appears once
    assert_eq!(free_fn_histogram.inner.counter[1], 3); // byte 1 appears three times
    assert_eq!(free_fn_histogram.inner.counter[2], 2); // byte 2 appears twice
    assert_eq!(free_fn_histogram.inner.counter[3], 1); // byte 3 appears once
    assert_eq!(free_fn_histogram.inner.counter[255], 1); // byte 255 appears once
}

#[test]
fn test_histogram_with_empty_data() {
    let test_data: &[u8] = &[];
    let mut histogram = Histogram32::default();
    histogram32_from_bytes(test_data, &mut histogram);

    let method_histogram = Histogram32::from_bytes(test_data);
    assert_eq!(histogram.inner.counter, method_histogram.inner.counter);

    // All counts should be zero
    for count in histogram.inner.counter.iter() {
        assert_eq!(*count, 0);
    }
}

#[test]
fn test_histogram_with_all_same_byte() {
    let test_data = [42u8; 100];
    let mut histogram = Histogram32::default();
    histogram32_from_bytes(&test_data, &mut histogram);

    let method_histogram = Histogram32::from_bytes(&test_data);
    assert_eq!(histogram.inner.counter, method_histogram.inner.counter);
    assert_eq!(histogram.inner.counter[42], 100);

    // All other counts should be zero
    for (i, count) in histogram.inner.counter.iter().enumerate() {
        if i == 42 {
            assert_eq!(*count, 100);
        } else {
            assert_eq!(*count, 0);
        }
    }
}

#[test]
fn test_histogram_with_full_byte_range() {
    let test_data: [u8; 256] = core::array::from_fn(|i| i as u8);
    let mut histogram = Histogram32::default();
    histogram32_from_bytes(&test_data, &mut histogram);

    let method_histogram = Histogram32::from_bytes(&test_data);
    assert_eq!(histogram.inner.counter, method_histogram.inner.counter);

    // Every byte should appear exactly once
    for count in histogram.inner.counter.iter() {
        assert_eq!(*count, 1);
    }
}

// Creates bytes 0..255, to verify we reach the full range.
// This should be sufficient for unrolled impl.
#[test]
fn verify_full_range_in_reference_impl() {
    let input: Vec<u8> = (0..=255).collect();
    let mut histogram = Histogram32::default();
    histogram32_reference(&input, &mut histogram);

    // Every value should appear exactly once
    for count in histogram.inner.counter.iter() {
        assert_eq!(*count, 1);
    }
}

// Helper function to generate test data
fn generate_test_data(size: usize) -> Vec<u8> {
    (0..size).map(|i| (i % 256) as u8).collect()
}

// Every alternative implementation must agree bit-for-bit with the
// reference implementation on every input length.
#[test]
fn test_against_reference() {
    let implementations: [(&str, fn(&[u8], &mut Histogram32)); 6] = [
        ("batched_u32", histogram32_generic_batched_u32),
        ("batched_u64", histogram32_generic_batched_u64),
        ("batched_unroll2_u32", histogram32_generic_batched_unroll_2_u32),
        ("batched_unroll2_u64", histogram32_generic_batched_unroll_2_u64),
        ("batched_unroll4_u64", histogram32_generic_batched_unroll_4_u64),
        ("nonaliased_withruns", histogram_nonaliased_withruns_core),
    ];
    for (name, implementation) in implementations.iter() {
        // Test sizes from 0 to 767 bytes
        for size in 0..=767 {
            let test_data = generate_test_data(size);

            // Get results from both implementations
            let mut implementation_result = Histogram32::default();
            let mut reference_result = Histogram32::default();
            implementation(&test_data, &mut implementation_result);
            histogram32_reference(&test_data, &mut reference_result);

            assert_eq!(
                implementation_result.inner.counter, reference_result.inner.counter,
                "Implementation {name} failed for size {size}"
            );
        }
    }
}

#[test]
fn test_unroll_4_u32_against_reference() {
    for size in 0..=767 {
        let test_data = generate_test_data(size);

        let mut implementation_result = Histogram32::default();
        let mut reference_result = Histogram32::default();
        lossless_transform_utils::histogram::histogram32::histogram32_generic_batched_unroll_4_u32(
            &test_data,
            &mut implementation_result,
        );
        histogram32_reference(&test_data, &mut reference_result);

        assert_eq!(
            implementation_result.inner.counter, reference_result.inner.counter,
            "Implementation failed for size {size}"
        );
    }
}

// With highly repetitive data the run-detection fast path is taken; it must
// still agree with the reference implementation.
#[test]
fn test_withruns_on_repetitive_data() {
    let mut data = vec![7u8; 500];
    data.extend(std::iter::repeat([1u8, 2, 3, 4, 5, 6, 7, 8]).take(40).flatten());
    data.extend(generate_test_data(100));

    let mut withruns_result = Histogram32::default();
    let mut reference_result = Histogram32::default();
    histogram_nonaliased_withruns_core(&data, &mut withruns_result);
    histogram32_reference(&data, &mut reference_result);

    assert_eq!(withruns_result.inner.counter, reference_result.inner.counter);
}

// The bucket sum of a histogram always equals the input length.
#[test]
fn test_counter_sum_equals_length() {
    for size in [0usize, 1, 63, 64, 100, 256, 767] {
        let data = generate_test_data(size);
        let histogram = Histogram32::from_bytes(&data);
        let total: u64 = histogram.inner.counter.iter().map(|&c| c as u64).sum();
        assert_eq!(total, size as u64, "Bucket sum mismatch for size {size}");
    }
}

#[test]
fn test_default_is_zeroed() {
    let histogram = Histogram32::default();
    for count in histogram.inner.counter.iter() {
        assert_eq!(*count, 0);
    }
}
