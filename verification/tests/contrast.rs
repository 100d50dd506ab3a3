use grepgrep::contrast::{enhance_spectrogram_contrast, gamma_level_exec, percentile_from_histogram};

#[test]
fn spectrogram_contrast_stretch_suppresses_floor_and_boosts_peaks() {
    let mut intensities = vec![
        0, 0, 12, 14, 16, 18, 20, 20, 22, 24, 26, 160, 180, 220, 255,
    ];

    enhance_spectrogram_contrast(&mut intensities);

    assert_eq!(intensities[0], 0);
    assert_eq!(intensities[2], 0);
    assert!(intensities[11] > 180, "expected strong bins to be boosted");
    assert_eq!(intensities[14], 255);
}

#[test]
fn contrast_stretch_exact_values() {
    // 13 non-zero values; rank round(12 * 0.7) = 8 picks 26 as the floor,
    // and 255 is the ceiling, so the range is 229.
    let mut intensities = vec![
        0, 0, 12, 14, 16, 18, 20, 20, 22, 24, 26, 160, 180, 220, 255,
    ];
    enhance_spectrogram_contrast(&mut intensities);
    for i in 0..=10 {
        assert_eq!(intensities[i], 0);
    }
    // 255 * (134 / 229)^0.6 = 184.9
    assert_eq!(intensities[11], 185);
    let expected = |v: f64| (255.0 * ((v - 26.0) / 229.0).powf(0.6)).round() as u8;
    assert_eq!(intensities[12], expected(180.0));
    assert_eq!(intensities[13], expected(220.0));
    assert_eq!(intensities[14], 255);
}

#[test]
fn contrast_stretch_leaves_silent_or_empty_heatmaps_alone() {
    let mut empty: Vec<u8> = Vec::new();
    enhance_spectrogram_contrast(&mut empty);
    assert!(empty.is_empty());

    let mut silent = vec![0u8; 10];
    enhance_spectrogram_contrast(&mut silent);
    assert_eq!(silent, vec![0u8; 10]);
}

#[test]
fn contrast_stretch_of_a_flat_heatmap_silences_everything() {
    // All values equal the floor.
    let mut flat = vec![40u8; 6];
    enhance_spectrogram_contrast(&mut flat);
    assert_eq!(flat, vec![0u8; 6]);
}

#[test]
fn contrast_stretch_keeps_order() {
    let mut values: Vec<u8> = (0..=255u16).map(|v| v as u8).collect();
    enhance_spectrogram_contrast(&mut values);
    for w in values.windows(2) {
        assert!(w[0] <= w[1]);
    }
    assert_eq!(values[255], 255);
}

#[test]
fn gamma_curve_matches_floating_point_reference() {
    for r in 1..=255u64 {
        for d in 0..=r {
            let reference = (255.0 * (d as f64 / r as f64).powf(0.6)).round() as u8;
            let exact = gamma_level_exec(d, r);
            let diff = (reference as i32 - exact as i32).abs();
            assert!(diff <= 1, "d={d} r={r} reference={reference} exact={exact}");
        }
        assert_eq!(gamma_level_exec(r, r), 255);
        assert_eq!(gamma_level_exec(0, r), 0);
    }
}

#[test]
fn percentile_picks_first_bucket_past_rank() {
    let mut histogram = vec![0usize; 256];
    histogram[3] = 2;
    histogram[7] = 2;
    histogram[9] = 1;
    // 5 samples: ranks 0..=4; 70th percentile rank round(4 * 0.7) = 3.
    assert_eq!(percentile_from_histogram(&histogram, 5, 70), 7);
    assert_eq!(percentile_from_histogram(&histogram, 5, 0), 3);
    assert_eq!(percentile_from_histogram(&histogram, 5, 100), 9);
    // Percentages above 100 count as 100.
    assert_eq!(percentile_from_histogram(&histogram, 5, 250), 9);
    assert_eq!(percentile_from_histogram(&histogram, 0, 70), 0);
    // No bucket passes the rank: the top value.
    let empty = vec![0usize; 256];
    assert_eq!(percentile_from_histogram(&empty, 3, 50), 255);
}

#[test]
fn contrast_floor_is_the_percentile_value_and_stretch_beats_linear() {
    let original: Vec<u8> = vec![0, 5, 9, 9, 30, 44, 60, 61, 90, 120, 200, 0, 17];
    let mut nonzero: Vec<u8> = original.iter().copied().filter(|v| *v > 0).collect();
    nonzero.sort();
    let rank = ((nonzero.len() - 1) as f64 * 0.7).round() as usize;
    let floor = nonzero[rank];
    let top = *nonzero.last().unwrap();

    let mut stretched = original.clone();
    enhance_spectrogram_contrast(&mut stretched);
    for (before, after) in original.iter().zip(stretched.iter()) {
        assert_eq!(*after != 0, *before > floor);
        if *before > floor {
            let linear = (255.0 * (*before - floor) as f64 / (top - floor) as f64).round() as u8;
            assert!(*after >= linear, "before={before} after={after} linear={linear}");
        }
        if *before == top {
            assert_eq!(*after, 255);
        }
    }
}
