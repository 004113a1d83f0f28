//! How work is spread over threads.

use wgpu_tensor::workgroups::{clamp, counts_n_sizes, counts_n_sizes_reduce};

#[test]
fn small_work_takes_one_workgroup() {
    assert_eq!(counts_n_sizes(0), ((0, 1), 1, 1));
    assert_eq!(counts_n_sizes(1), ((1, 1), 1, 1));
    assert_eq!(counts_n_sizes(255), ((255, 1), 1, 1));
    assert_eq!(counts_n_sizes(256), ((256, 1), 1, 1));
}

#[test]
fn more_work_takes_full_workgroups() {
    assert_eq!(counts_n_sizes(257), ((256, 1), 2, 1));
    assert_eq!(counts_n_sizes(512), ((256, 1), 2, 1));
    assert_eq!(counts_n_sizes(513), ((256, 1), 3, 1));
    assert_eq!(counts_n_sizes(256 * 65535), ((256, 1), 65535, 1));
}

#[test]
fn still_more_work_is_done_in_chunks() {
    assert_eq!(counts_n_sizes(256 * 65535 + 1), ((256, 1), 65535, 257));
    assert_eq!(counts_n_sizes(65535 * 1000), ((256, 1), 65535, 1000));
    assert_eq!(counts_n_sizes(65535 * 1000 + 1), ((256, 1), 65535, 1001));
}

#[test]
fn the_threads_take_on_all_elements_within_the_limits() {
    for n in [0, 1, 200, 256, 257, 70_000, 16_776_960, 16_776_961, 100_000_000] {
        let ((x, y), count, chunk) = counts_n_sizes(n);
        assert!(x * count * chunk >= n);
        assert!(x * y <= 256);
        assert!(count <= 65535);
    }
}

#[test]
fn clamp_keeps_to_the_range() {
    assert_eq!(clamp(0, 1, 4), 1);
    assert_eq!(clamp(3, 1, 4), 3);
    assert_eq!(clamp(9, 1, 4), 4);
    // The lower end is looked at first.
    assert_eq!(clamp(3, 5, 2), 5);
}

#[test]
fn a_reduction_to_few_elements_is_shared() {
    // 3600 elements to one: 3600 / 64 threads.
    assert_eq!(counts_n_sizes_reduce(3600, 1), ((1, 56), 1, 1));
    // 256 elements to two: 128 / 64 threads each.
    assert_eq!(counts_n_sizes_reduce(256, 2), ((2, 2), 1, 1));
    // Two elements to each of 128: not worth sharing.
    assert_eq!(counts_n_sizes_reduce(256, 128), ((128, 1), 1, 1));
    // No more threads than a workgroup can have.
    assert_eq!(counts_n_sizes_reduce(1_000_000, 1), ((1, 256), 1, 1));
    assert_eq!(counts_n_sizes_reduce(1_000_000, 100), ((100, 2), 1, 1));
    assert_eq!(counts_n_sizes_reduce(1_000_000, 200), ((200, 1), 1, 1));
    assert_eq!(counts_n_sizes_reduce(0, 3), ((3, 1), 1, 1));
}

#[test]
fn a_reduction_to_many_elements_is_not_shared() {
    assert_eq!(counts_n_sizes_reduce(1_000_000, 1000), ((256, 1), 4, 1));
    assert_eq!(counts_n_sizes_reduce(100_000_000, 50_000_000), ((256, 1), 65535, 763));
}

#[test]
fn each_thread_that_shares_a_reduction_has_its_share() {
    for input in [1, 63, 64, 127, 128, 5000, 123_456] {
        for output in [1, 2, 3, 100, 256] {
            let ((x, y), count, chunk) = counts_n_sizes_reduce(input, output);
            assert_eq!((x, count, chunk), (output, 1, 1));
            assert!(x * y <= 256);
            assert!(y == 1 || input / output >= 64 * y);
        }
    }
}
