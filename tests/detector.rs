use anomaly_monitor::baseline::{BaselineModel, BaselineState, Sample};
use anomaly_monitor::detector::{
    exceeds_threshold, z_score_milli, AnomalyEvent, Detector, DEFAULT_THRESHOLD_MILLI,
    MAX_THRESHOLD_MILLI, Z_CAP_MILLI,
};
use anomaly_monitor::monitor::Monitor;

fn sample(timestamp: u64, values: &[u32]) -> Sample {
    Sample { timestamp, values: values.to_vec() }
}

#[test]
fn warm_up_raises_no_event() {
    let mut mon = Monitor::new(5, 2, Detector::default());
    let readings = [[1, 0], [1_000_000, 7], [3, 0], [4_000_000_000, 9]];
    for (i, r) in readings.iter().enumerate() {
        assert!(mon.observe(&sample(i as u64, r)).is_empty());
    }
}

#[test]
fn spike_after_stable_baseline_raises_one_event() {
    let mut mon = Monitor::new(10, 2, Detector::default());
    let mut events: Vec<AnomalyEvent> = Vec::new();
    for i in 0..10u64 {
        let v = if i % 2 == 0 { 9 } else { 11 };
        events.extend(mon.observe(&sample(i, &[v, 50])));
    }
    let st = mon.baseline();
    assert_eq!(st.count, 10);
    assert_eq!(st.sums, vec![100, 500]);
    assert_eq!(st.sq_sums, vec![1010, 25000]);
    events.extend(mon.observe(&sample(10, &[100, 50])));
    assert_eq!(
        events,
        vec![AnomalyEvent { metric: 0, value: 100, z_milli: 90_000, timestamp: 10 }]
    );
}

#[test]
fn z_score_sign_follows_deviation() {
    // ten readings of mean 10 and standard deviation 1
    assert_eq!(z_score_milli(10, 100, 1010, 11), 1000);
    assert_eq!(z_score_milli(10, 100, 1010, 9), -1000);
    assert_eq!(z_score_milli(10, 100, 1010, 10), 0);
    assert_eq!(z_score_milli(10, 100, 1010, 100), 90_000);
}

#[test]
fn z_score_rounds_away_from_zero() {
    // mean 1, variance 2/3 over three readings 0, 1, 2: z of 2 is 1.2247...
    assert_eq!(z_score_milli(3, 3, 5, 2), 1225);
    assert_eq!(z_score_milli(3, 3, 5, 0), -1225);
}

#[test]
fn zero_spread_gives_capped_sentinel() {
    assert_eq!(z_score_milli(4, 20, 100, 6), Z_CAP_MILLI);
    assert_eq!(z_score_milli(4, 20, 100, 4), Z_CAP_MILLI);
    assert_eq!(z_score_milli(4, 20, 100, 0), Z_CAP_MILLI);
    assert_eq!(z_score_milli(4, 20, 100, 5), 0);
    assert!(exceeds_threshold(4, 20, 100, 6, DEFAULT_THRESHOLD_MILLI));
    assert!(exceeds_threshold(4, 20, 100, 4, DEFAULT_THRESHOLD_MILLI));
    assert!(!exceeds_threshold(4, 20, 100, 5, DEFAULT_THRESHOLD_MILLI));
}

#[test]
fn threshold_is_strict() {
    assert!(!exceeds_threshold(10, 100, 1010, 13, 3000));
    assert!(exceeds_threshold(10, 100, 1010, 14, 3000));
    assert!(!exceeds_threshold(10, 100, 1010, 7, 3000));
    assert!(exceeds_threshold(10, 100, 1010, 6, 3000));
}

#[test]
fn simultaneous_breaches_each_raise_an_event() {
    let st = BaselineState { window: 4, count: 4, sums: vec![20, 8, 40], sq_sums: vec![100, 20, 402] };
    let d = Detector::new(2000).unwrap();
    let evs = d.evaluate(&sample(77, &[6, 2, 0]), &st);
    assert_eq!(
        evs,
        vec![
            AnomalyEvent { metric: 0, value: 6, z_milli: Z_CAP_MILLI, timestamp: 77 },
            AnomalyEvent { metric: 2, value: 0, z_milli: -14_143, timestamp: 77 },
        ]
    );
}

#[test]
fn cold_state_raises_nothing() {
    let st = BaselineState { window: 4, count: 3, sums: vec![15], sq_sums: vec![75] };
    assert!(Detector::default().evaluate(&sample(1, &[1000]), &st).is_empty());
}

#[test]
fn detector_thresholds() {
    assert_eq!(Detector::default().threshold_milli(), 3000);
    assert_eq!(Detector::new(1500).unwrap().threshold_milli(), 1500);
    assert!(Detector::new(MAX_THRESHOLD_MILLI).is_some());
    assert!(Detector::new(MAX_THRESHOLD_MILLI + 1).is_none());
}

#[test]
fn baseline_rolls_over_the_window() {
    let mut b = BaselineModel::new(2, 1);
    assert!(!b.is_warm());
    b.update(&sample(0, &[1]));
    b.update(&sample(1, &[2]));
    assert!(b.is_warm());
    b.update(&sample(2, &[4]));
    assert_eq!(b.len(), 2);
    let st = b.current();
    assert_eq!((st.window, st.count), (2, 2));
    assert_eq!(st.sums, vec![6]);
    assert_eq!(st.sq_sums, vec![20]);
}

#[test]
fn baseline_takes_largest_readings() {
    let mut b = BaselineModel::new(3, 1);
    for i in 0..5 {
        b.update(&sample(i, &[u32::MAX]));
    }
    let st = b.current();
    let m = u32::MAX as u128;
    assert_eq!(st.sums, vec![3 * u32::MAX as u64]);
    assert_eq!(st.sq_sums, vec![3 * m * m]);
}
