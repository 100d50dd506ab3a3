use grepgrep::viewport::{
    bucket_range, ceil_div, clamp_window, column_maxima, time_bin_count, visible_bins,
    SpectrogramView, WindowCache, WindowKey, FFT_HOP_SIZE, MAX_CACHED_WINDOWS,
};

fn key(start_frame: usize, end_frame: usize, width: usize) -> WindowKey {
    WindowKey { start_frame, end_frame, width, height: 0 }
}

#[test]
fn ceil_div_rounds_up_and_saturates() {
    assert_eq!(ceil_div(0, 4), 0);
    assert_eq!(ceil_div(1, 4), 1);
    assert_eq!(ceil_div(8, 4), 2);
    assert_eq!(ceil_div(9, 4), 3);
    assert_eq!(ceil_div(usize::MAX, 2), usize::MAX / 2);
}

#[test]
fn clamp_window_keeps_one_frame_at_least() {
    assert_eq!(clamp_window(10, 12, 16), (10, 12));
    assert_eq!(clamp_window(10, 5, 16), (10, 11));
    assert_eq!(clamp_window(10, 99, 16), (10, 16));
    assert_eq!(clamp_window(15, 15, 16), (15, 16));
}

#[test]
fn buckets_split_a_window_evenly() {
    // 37 pixels over 128 frames.
    let mut previous_end = 0;
    for i in 0..37 {
        let (lo, hi) = bucket_range(0, 128, 37, i);
        assert_eq!(lo, i * 128 / 37);
        assert!(lo < hi);
        assert!(lo >= previous_end || lo + 1 == hi);
        previous_end = hi;
    }
    assert_eq!(bucket_range(0, 128, 37, 36).1, 128);
    // More pixels than frames: each pixel still gets a frame.
    assert_eq!(bucket_range(10, 12, 8, 0), (10, 11));
    assert_eq!(bucket_range(10, 12, 8, 3), (10, 11));
    assert_eq!(bucket_range(10, 12, 8, 4), (11, 12));
    assert_eq!(bucket_range(10, 12, 8, 7), (11, 12));
}

#[test]
fn visible_bins_cover_the_window() {
    assert_eq!(visible_bins(0, 48_000, FFT_HOP_SIZE, 24), (0, 24));
    assert_eq!(visible_bins(4096, 6000, FFT_HOP_SIZE, 24), (2, 3));
    // Start past the last bin is capped; the end stays one past it.
    assert_eq!(visible_bins(1_000_000, 2_000_000, FFT_HOP_SIZE, 24), (23, 24));
    assert_eq!(visible_bins(4096, 0, FFT_HOP_SIZE, 24), (2, 3));
}

#[test]
fn time_bins_count_started_hops() {
    assert_eq!(time_bin_count(0), 1);
    assert_eq!(time_bin_count(1), 1);
    assert_eq!(time_bin_count(2048), 1);
    assert_eq!(time_bin_count(2049), 2);
    assert_eq!(time_bin_count(48_000), 24);
}

#[test]
fn column_maxima_take_the_brightest_row() {
    // 3 time bins of 2 frequency bins.
    let mags = vec![1, 9, 7, 2, 3, 4];
    assert_eq!(column_maxima(&mags, 2, 0, 3), vec![7, 9]);
    assert_eq!(column_maxima(&mags, 2, 1, 3), vec![7, 4]);
    assert_eq!(column_maxima(&mags, 2, 2, 2), vec![0, 0]);
}

#[test]
fn cache_returns_what_was_inserted() {
    let mut cache: WindowCache<SpectrogramView> = WindowCache::new();
    assert!(cache.find(&key(0, 10, 5)).is_none());
    cache.insert(
        key(0, 10, 5),
        SpectrogramView { width: 5, height: 1, intensities: vec![1, 2, 3, 4, 5] },
    );
    let found = cache.find(&key(0, 10, 5)).expect("cached view");
    assert_eq!(found.intensities, vec![1, 2, 3, 4, 5]);
    assert!(cache.find(&key(0, 10, 6)).is_none());
}

#[test]
fn cache_keeps_only_the_most_recent_windows() {
    let mut cache: WindowCache<usize> = WindowCache::new();
    for i in 0..12 {
        cache.insert(key(i, i + 1, 1), i);
        assert!(cache.len() <= MAX_CACHED_WINDOWS);
    }
    assert_eq!(cache.len(), MAX_CACHED_WINDOWS);
    for i in 0..4 {
        assert!(cache.find(&key(i, i + 1, 1)).is_none());
    }
    for i in 4..12 {
        assert_eq!(cache.find(&key(i, i + 1, 1)), Some(&i));
    }
}

#[test]
fn cache_returns_the_first_window_for_a_key() {
    let mut cache: WindowCache<&str> = WindowCache::new();
    cache.insert(key(0, 4, 2), "first");
    cache.insert(key(0, 4, 2), "second");
    assert_eq!(cache.find(&key(0, 4, 2)), Some(&"first"));
}

#[test]
fn buckets_tile_the_window_when_wide_enough() {
    for (start, end, count) in [(0usize, 100usize, 7usize), (48_000, 48_037, 37), (5, 1_000_005, 128)] {
        assert_eq!(bucket_range(start, end, count, 0).0, start);
        assert_eq!(bucket_range(start, end, count, count - 1).1, end);
        for i in 0..count - 1 {
            assert_eq!(bucket_range(start, end, count, i).1, bucket_range(start, end, count, i + 1).0);
        }
    }
}
