use sf_ope::collector::fault_tolerant_handler::FaultTolerantHandler;
use sf_ope::data::encrypted_sensor_value::EncryptedSensorValue;

fn sensor(lower_bound: u64, upper_bound: u64, tag: u8) -> EncryptedSensorValue {
    EncryptedSensorValue {
        lower_bound,
        upper_bound,
        enc_lower_bound: [tag; 24],
        enc_upper_bound: [tag + 100; 24],
    }
}

fn marzullo(results: Vec<EncryptedSensorValue>) -> Option<EncryptedSensorValue> {
    FaultTolerantHandler { results }.calculate_marzullo()
}

#[test]
fn no_sensors_give_no_interval() {
    assert_eq!(marzullo(vec![]), None);
}

#[test]
fn a_point_sensor_gives_no_interval() {
    assert_eq!(marzullo(vec![sensor(5, 5, 1)]), None);
}

#[test]
fn a_single_sensor_gives_its_interval() {
    assert_eq!(marzullo(vec![sensor(3, 8, 1)]), Some(sensor(3, 8, 1)));
}

#[test]
fn picks_the_overlap_of_the_majority() {
    let result = marzullo(vec![sensor(10, 20, 1), sensor(15, 25, 2), sensor(30, 40, 3)]);
    assert_eq!(
        result,
        Some(EncryptedSensorValue {
            lower_bound: 15,
            upper_bound: 20,
            enc_lower_bound: [2; 24],
            enc_upper_bound: [101; 24],
        })
    );
}

#[test]
fn reversed_bounds_are_read_the_other_way_round() {
    let result = marzullo(vec![sensor(20, 10, 1), sensor(15, 25, 2), sensor(40, 30, 3)]);
    assert_eq!(
        result,
        Some(EncryptedSensorValue {
            lower_bound: 15,
            upper_bound: 20,
            enc_lower_bound: [2; 24],
            enc_upper_bound: [1; 24],
        })
    );
}

#[test]
fn an_outlier_does_not_move_the_result() {
    let result = marzullo(vec![
        sensor(100, 200, 1),
        sensor(150, 250, 2),
        sensor(120, 180, 3),
        sensor(9000, 9100, 4),
    ]);
    let r = result.unwrap();
    assert_eq!((r.lower_bound, r.upper_bound), (150, 180));
    assert_eq!(r.enc_lower_bound, [2; 24]);
    assert_eq!(r.enc_upper_bound, [103; 24]);
}

#[test]
fn touching_intervals_keep_the_first_maximum() {
    let first = marzullo(vec![sensor(1, 5, 1), sensor(5, 9, 2)]).unwrap();
    assert_eq!((first.lower_bound, first.upper_bound), (1, 5));
    let second = marzullo(vec![sensor(5, 9, 2), sensor(1, 5, 1)]).unwrap();
    assert_eq!((second.lower_bound, second.upper_bound), (5, 5));
}

#[test]
fn a_later_sensor_overrides_the_cached_ciphertext() {
    let r = marzullo(vec![sensor(10, 20, 1), sensor(10, 30, 2)]).unwrap();
    assert_eq!((r.lower_bound, r.upper_bound), (10, 20));
    assert_eq!(r.enc_lower_bound, [2; 24]);
    assert_eq!(r.enc_upper_bound, [101; 24]);
}

#[test]
fn populate_map_lists_events_and_caches_ciphertexts() {
    let handler = FaultTolerantHandler { results: vec![sensor(10, 20, 1), sensor(40, 30, 2)] };
    let (events, cache) = handler._populate_map();
    assert_eq!(events, vec![(10, -1), (20, 1), (40, 1), (30, -1)]);
    assert_eq!(cache.len(), 4);
    assert_eq!(cache[&10], [1; 24]);
    assert_eq!(cache[&20], [101; 24]);
    assert_eq!(cache[&40], [2; 24]);
    assert_eq!(cache[&30], [102; 24]);
}

#[test]
fn result_is_covered_by_the_most_sensors() {
    let results = vec![
        sensor(0, 50, 1),
        sensor(40, 90, 2),
        sensor(45, 60, 3),
        sensor(55, 70, 4),
        sensor(200, 10, 5),
    ];
    let r = marzullo(results.clone()).unwrap();
    let covers = |v: &EncryptedSensorValue, x: u64| {
        let (lo, hi) = if v.upper_bound > v.lower_bound {
            (v.lower_bound, v.upper_bound)
        } else {
            (v.upper_bound, v.lower_bound)
        };
        lo < x && x <= hi
    };
    let coverage = |x: u64| results.iter().filter(|v| covers(v, x)).count();
    assert!(r.lower_bound < r.upper_bound);
    let best = coverage(r.upper_bound);
    assert!(best >= 1);
    for y in r.lower_bound + 1..=r.upper_bound {
        assert_eq!(coverage(y), best);
    }
    for x in 0..300 {
        assert!(coverage(x) <= best);
    }
}

#[test]
fn relabelling_bounds_increasingly_relabels_the_result() {
    let results = vec![sensor(10, 20, 1), sensor(15, 25, 2), sensor(30, 40, 3), sensor(22, 12, 4)];
    let f = |x: u64| 3 * x + 7;
    let mapped: Vec<EncryptedSensorValue> = results
        .iter()
        .map(|v| EncryptedSensorValue { lower_bound: f(v.lower_bound), upper_bound: f(v.upper_bound), ..*v })
        .collect();
    let plain = marzullo(results).unwrap();
    let on_mapped = marzullo(mapped).unwrap();
    assert_eq!(
        on_mapped,
        EncryptedSensorValue { lower_bound: f(plain.lower_bound), upper_bound: f(plain.upper_bound), ..plain }
    );
}

#[test]
fn many_agreeing_sensors_fit_the_counter() {
    let results: Vec<EncryptedSensorValue> = (0..127).map(|i| sensor(100 + i as u64, 1000, 1)).collect();
    let r = marzullo(results).unwrap();
    assert_eq!((r.lower_bound, r.upper_bound), (226, 1000));
}

#[test]
fn counts_fit_tells_when_the_counter_would_overflow() {
    let fits: Vec<EncryptedSensorValue> = (0..127).map(|_| sensor(10, 20, 1)).collect();
    assert!(FaultTolerantHandler { results: fits }.counts_fit());
    let too_many: Vec<EncryptedSensorValue> = (0..128).map(|_| sensor(10, 20, 1)).collect();
    assert!(!FaultTolerantHandler { results: too_many }.counts_fit());
    let disjoint: Vec<EncryptedSensorValue> = (0..200).map(|i| sensor(10 * i, 10 * i + 5, 1)).collect();
    assert!(FaultTolerantHandler { results: disjoint }.counts_fit());
}

#[test]
fn answer_order_does_not_matter_with_distinct_bounds() {
    let a = sensor(10, 20, 1);
    let b = sensor(15, 25, 2);
    let c = sensor(32, 18, 3);
    let d = sensor(30, 40, 4);
    let expected = marzullo(vec![a, b, c, d]);
    assert!(expected.is_some());
    for order in [vec![d, c, b, a], vec![b, d, a, c], vec![c, a, d, b]] {
        assert_eq!(marzullo(order), expected);
    }
}
