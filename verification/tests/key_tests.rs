use forest::keys::{key_lt, key_starts_with, parse_key_digits, to_bucket_key};
use forest::timeseries::TimeSeries;

#[test]
fn bucket_keys_reverse_time() {
    let k1 = TimeSeries::<u8>::ts_to_key(1710511200);
    let k2 = TimeSeries::<u8>::ts_to_key(1710511200 + 3600);
    assert_eq!(k1, "0976091609");
    assert_eq!(k2, "0976091608");
    assert!(k1 > k2);
    assert!(key_lt(k2.as_bytes(), k1.as_bytes()));
    assert!(!key_lt(k1.as_bytes(), k2.as_bytes()));
    assert!(!key_lt(k1.as_bytes(), k1.as_bytes()));
}

#[test]
fn key_of_the_first_and_of_the_last_hour() {
    assert_eq!(TimeSeries::<u8>::ts_to_key(0), "1030113023");
    assert_eq!(TimeSeries::<u8>::ts_to_key(3599), "1030113023");
    assert_eq!(TimeSeries::<u8>::ts_to_key(3600), "1030113022");
    assert_eq!(TimeSeries::<u8>::ts_to_key(32535215999), "0000000000");
    assert_eq!(TimeSeries::<u8>::key_to_ts("0000000000").unwrap(), 32535212400);
    assert_eq!(TimeSeries::<u8>::key_to_ts("1030113023").unwrap(), 0);
    assert!(TimeSeries::<u8>::key_to_ts("1031113023").is_err());
    assert!(TimeSeries::<u8>::key_to_ts("9999999999").is_err());
    assert!(TimeSeries::<u8>::key_to_ts("+030113023").is_err());
    assert!(TimeSeries::<u8>::key_to_ts("").is_err());
    assert!(TimeSeries::<u8>::key_to_ts("０976091609").is_err());
}

#[test]
fn key_of_a_day_that_is_not_in_the_calendar() {
    // 29 February 2024 exists, 30 February 2024 and 29 February 2023 do not
    assert_eq!(TimeSeries::<u8>::key_to_ts("0976100223").unwrap(), 1709164800);
    assert!(TimeSeries::<u8>::key_to_ts("0976100123").is_err());
    assert!(TimeSeries::<u8>::key_to_ts("0977100223").is_err());
    // month 13, day 0, hour 24
    assert!(TimeSeries::<u8>::key_to_ts("0976123023").is_err());
    assert!(TimeSeries::<u8>::key_to_ts("0976093123").is_err());
    assert!(TimeSeries::<u8>::key_to_ts("0976091624").is_err());
}

#[test]
fn key_round_trip_names_the_start_of_the_hour() {
    for ts in [
        0u64, 1, 3599, 3600, 86399, 86400, 951782400, 951868799, 1709164800, 1710511200,
        1710511200 + 1799, 4102444800, 32535215999,
    ] {
        let key = TimeSeries::<u8>::ts_to_key(ts);
        assert_eq!(key.len(), 10);
        assert_eq!(TimeSeries::<u8>::key_to_ts(&key).unwrap(), ts - ts % 3600);
        assert_eq!(parse_key_digits(key.as_bytes()), Some(ts - ts % 3600));
    }
}

#[test]
fn later_hours_have_smaller_keys() {
    let mut previous = TimeSeries::<u8>::ts_to_key(0);
    let mut ts: u64 = 0;
    while ts < 32535215999 - 40_000_000 {
        ts += 3600 * 11_111;
        let key = TimeSeries::<u8>::ts_to_key(ts);
        assert!(key < previous, "{} {} {}", ts, key, previous);
        assert!(key_lt(key.as_bytes(), previous.as_bytes()));
        previous = key;
    }
}

#[test]
fn bucket_key_is_base_separator_field() {
    assert_eq!(to_bucket_key(b"a", 1710511200), b"a#0976091609".to_vec());
    assert_eq!(to_bucket_key(b"", 0), b"#1030113023".to_vec());
}

#[test]
fn key_order_is_the_order_of_byte_strings() {
    let samples: Vec<&[u8]> = vec![b"", b"a", b"a#", b"ab", b"b", b"a#0976091608", b"a#0976091609", &[0xff], &[0x00]];
    for a in &samples {
        for b in &samples {
            assert_eq!(key_lt(a, b), a < b);
            assert_eq!(key_starts_with(a, b), a.starts_with(b));
        }
    }
}
