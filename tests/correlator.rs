use anomaly_monitor::correlator::{
    correlate, summarize, CorrelateError, CorrelationResult, CorrelationSummary, PPM_ONE,
};

fn ok(similarity_ppm: i32, confidence_ppm: u32) -> Result<CorrelationResult, CorrelateError> {
    Ok(CorrelationResult { similarity_ppm, confidence_ppm })
}

#[test]
fn single_point_gives_zero_similarity_and_confidence() {
    assert_eq!(correlate(&[1], &[2]), ok(0, 0));
}

#[test]
fn doubled_series_is_fully_similar() {
    let r = correlate(&[1, 2, 3, 4, 5], &[2, 4, 6, 8, 10]).unwrap();
    assert_eq!(r.similarity_ppm, PPM_ONE as i32);
    assert_eq!(r.confidence_ppm, PPM_ONE);
}

#[test]
fn correlation_is_symmetric() {
    let a = [3, 1, 4, 1, 5, 9, 2, 6];
    let b = [2, 7, 1, 8, 2, 8, 1, 8];
    assert_eq!(correlate(&a, &b), correlate(&b, &a));
    assert_eq!(correlate(&a, &[1, 2]), correlate(&[1, 2], &a));
}

#[test]
fn series_with_itself_is_fully_similar() {
    let a = [5, 3, 8, 13, 21, 1];
    assert_eq!(correlate(&a, &a), ok(1_000_000, 1_000_000));
}

#[test]
fn reversed_series_is_fully_opposite() {
    assert_eq!(correlate(&[1, 2, 3], &[3, 2, 1]), ok(-1_000_000, 1_000_000));
}

#[test]
fn partial_correlation_exact_values() {
    // cov = 3, vx = vy = 6: r = 1/2; confidence 1 - 1/(3 - 1)
    assert_eq!(correlate(&[1, 2, 3], &[1, 3, 2]), ok(500_000, 500_000));
}

#[test]
fn constant_series_gives_zero() {
    assert_eq!(correlate(&[4, 4, 4], &[1, 2, 3]), ok(0, 0));
    assert_eq!(correlate(&[7, 7], &[7, 7]), ok(0, 0));
}

#[test]
fn length_mismatch_is_an_error() {
    assert_eq!(correlate(&[1, 2, 3], &[1, 2]), Err(CorrelateError::LengthMismatch));
}

#[test]
fn empty_series_is_an_error() {
    assert_eq!(correlate(&[], &[]), Err(CorrelateError::LengthMismatch));
}

#[test]
fn largest_readings_do_not_overflow() {
    let a = [65535, 0, 65535, 0];
    let b = [0, 65535, 0, 65535];
    assert_eq!(correlate(&a, &b), ok(-1_000_000, 1_000_000));
}

#[test]
fn non_square_denominator_rounds_toward_zero() {
    // cov = 3, vx = 2, vy = 6: r = 3 / sqrt(12) = 0.8660254...
    assert_eq!(correlate(&[0, 0, 1], &[0, 1, 2]), ok(866_025, 500_000));
}

#[test]
fn scaling_a_series_keeps_its_similarity() {
    let base = correlate(&[0, 0, 1], &[0, 1, 2]).unwrap();
    let scaled = correlate(&[0, 0, 10], &[0, 1, 2]).unwrap();
    let shifted = correlate(&[7, 7, 27], &[0, 1, 2]).unwrap();
    assert_eq!(scaled, base);
    assert_eq!(shifted, base);
}

#[test]
fn more_points_never_lower_confidence_at_equal_fit() {
    let short = correlate(&[0, 1], &[0, 1]).unwrap();
    let long = correlate(&[0, 1, 2, 3], &[0, 2, 4, 6]).unwrap();
    assert_eq!(short.similarity_ppm, long.similarity_ppm);
    assert!(long.confidence_ppm >= short.confidence_ppm);
    let three = correlate(&[1, 2, 3], &[1, 3, 2]).unwrap();
    let five = correlate(&[1, 2, 3, 4, 5], &[1, 3, 2, 5, 4]).unwrap();
    assert!(five.confidence_ppm >= three.confidence_ppm);
}

#[test]
fn summary_counts_strong_pairs() {
    let rs = [
        CorrelationResult { similarity_ppm: 1_000_000, confidence_ppm: 1_000_000 },
        CorrelationResult { similarity_ppm: -500_000, confidence_ppm: 500_000 },
        CorrelationResult { similarity_ppm: 200_000, confidence_ppm: 750_000 },
        CorrelationResult { similarity_ppm: 0, confidence_ppm: 0 },
    ];
    assert_eq!(
        summarize(&rs, 500_000),
        CorrelationSummary {
            similarity_matches: 2,
            pattern_strength_ppm: 425_000,
            network_density_ppm: 500_000,
        }
    );
}

#[test]
fn summary_of_nothing_is_zero() {
    assert_eq!(
        summarize(&[], 500_000),
        CorrelationSummary { similarity_matches: 0, pattern_strength_ppm: 0, network_density_ppm: 0 }
    );
}
