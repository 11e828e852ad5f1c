use forest::metric::{
    LatLong, MetricTimeSeries, MetricValue, SerializationFormat, TimeseriesSerializationError,
};
use forest::timeseries::TimeSeries;
use std::time::{SystemTime, UNIX_EPOCH};

type FloatTimeSeries = TimeSeries<f64>;
type LocationTimeSeries = TimeSeries<LatLong>;

fn lat_long(lat: f64, lon: f64) -> LatLong {
    LatLong::new(lat.to_bits(), lon.to_bits())
}

#[test]
fn test_add_point() {
    let mut ts = FloatTimeSeries::new();
    let now = SystemTime::now()
        .duration_since(UNIX_EPOCH)
        .unwrap()
        .as_secs();
    ts.add_point(now, 42.0);
    ts.add_point(now + 10, 44.0);
    ts.add_point(now + 5, 43.0);
    ts.add_point(now + 15, 45.0);

    assert_eq!(ts.timestamps.len(), 4);
    assert_eq!(ts.values.len(), 4);
    assert_eq!(ts.values[0], 42.0);
    assert_eq!(ts.values[1], 43.0);
    assert_eq!(ts.values[2], 44.0);
    assert_eq!(ts.values[3], 45.0);
}

#[test]
fn test_get_value_for_timestamp() {
    let mut ts = FloatTimeSeries::new();
    let now = SystemTime::now()
        .duration_since(UNIX_EPOCH)
        .unwrap()
        .as_secs();
    ts.add_point(now, 42.0);
    ts.add_point(now + 1000, 43.0);

    assert_eq!(ts.get_value_for_timestamp(now), Some(&42.0));
    assert_eq!(ts.get_value_for_timestamp(now + 1000), Some(&43.0));
    assert_eq!(ts.get_value_for_timestamp(now + 2000), None);
}

#[test]
fn test_clear() {
    let mut ts = FloatTimeSeries::new();
    let now = SystemTime::now()
        .duration_since(UNIX_EPOCH)
        .unwrap()
        .as_secs();
    ts.add_point(now, 42.0);
    ts.add_point(now + 1000, 43.0);

    ts.clear();
    assert_eq!(ts.timestamps.len(), 0);
    assert_eq!(ts.values.len(), 0);
}

#[test]
fn test_float_timeseries_iterator() {
    let mut ts = FloatTimeSeries::new();

    ts.add_point(1000, 42.0);
    ts.add_point(2000, 43.0);
    ts.add_point(3000, 44.0);

    let mut iter = ts.iter().into_iter();
    assert_eq!(iter.next(), Some((1000, 42.0)));
    assert_eq!(iter.next(), Some((2000, 43.0)));
    assert_eq!(iter.next(), Some((3000, 44.0)));
    assert_eq!(iter.next(), None);

    let mut count = 0;
    for (ts, val) in ts.iter() {
        count += 1;
        assert!(val >= 42.0 && val <= 44.0);
        assert!(ts >= 1000 && ts <= 3000);
    }
    assert_eq!(count, 3);

    let collected: Vec<(u64, f64)> = ts.iter();
    assert_eq!(collected, vec![(1000, 42.0), (2000, 43.0), (3000, 44.0)]);
}

#[test]
fn test_range_iterator() {
    let mut ts = TimeSeries::new();
    ts.add_point(1000, 10.0);
    ts.add_point(2000, 20.0);
    ts.add_point(3000, 30.0);
    ts.add_point(4000, 40.0);

    let values: Vec<(u64, f64)> = ts.range(0, 5000);
    assert_eq!(
        values,
        vec![(1000, 10.0), (2000, 20.0), (3000, 30.0), (4000, 40.0)]
    );

    let values: Vec<(u64, f64)> = ts.range(2000, 3000);
    assert_eq!(values, vec![(2000, 20.0), (3000, 30.0)]);

    let values: Vec<(u64, f64)> = ts.range(2500, 2900);
    assert!(values.is_empty());

    let values: Vec<(u64, f64)> = ts.range(2000, 4000);
    assert_eq!(values, vec![(2000, 20.0), (3000, 30.0), (4000, 40.0)]);

    let values: Vec<(u64, f64)> = ts.range(1999, 4001);
    assert_eq!(values, vec![(2000, 20.0), (3000, 30.0), (4000, 40.0)]);
}

#[test]
fn test_trim() {
    let mut ts = TimeSeries::new();
    ts.add_point(1000, 10.0);
    ts.add_point(2000, 20.0);
    ts.add_point(3000, 30.0);
    ts.add_point(4000, 40.0);

    ts.trim(2000, 3000);

    assert_eq!(ts.timestamps, vec![2000, 3000]);
    assert_eq!(ts.values, vec![20.0, 30.0]);
    assert_eq!(ts.len(), 2);

    ts.trim(2001, 2005);
    assert!(ts.is_empty());
    assert_eq!(ts.len(), 0);
}

#[test]
fn test_serde() {
    let mut ts = MetricTimeSeries::new();
    ts.add_point(1000, MetricValue::Float(42.0f64.to_bits()));

    let binary = ts.serialize(SerializationFormat::Binary).unwrap();
    let from_binary = MetricTimeSeries::deserialize(&binary, SerializationFormat::Binary).unwrap();
    assert_eq!(from_binary.len(), ts.len());

    let json = ts.serialize(SerializationFormat::Json);
    assert!(json.is_err());
}

#[test]
fn test_bucket_iterator() {
    let mut ts = TimeSeries::new();

    let buckets: Vec<TimeSeries<i32>> = ts.buckets();
    assert_eq!(buckets.len(), 0);

    ts.add_point(0, 10);
    ts.add_point(1800, 20);
    ts.add_point(3599, 30);

    ts.add_point(3600, 40);
    ts.add_point(5400, 50);

    ts.add_point(7200, 60);

    let buckets: Vec<TimeSeries<i32>> = ts.buckets();

    assert_eq!(buckets.len(), 3);

    assert_eq!(buckets[0].len(), 3);
    assert_eq!(buckets[0].timestamps, vec![0, 1800, 3599]);
    assert_eq!(buckets[0].values, vec![10, 20, 30]);

    assert_eq!(buckets[1].len(), 2);
    assert_eq!(buckets[1].timestamps, vec![3600, 5400]);
    assert_eq!(buckets[1].values, vec![40, 50]);

    assert_eq!(buckets[2].len(), 1);
    assert_eq!(buckets[2].timestamps, vec![7200]);
    assert_eq!(buckets[2].values, vec![60]);
}

#[test]
fn test_timestamp_key_conversion() {
    let timestamp1: u64 = 1710511200;
    let timestamp2: u64 = 1710511200 + 1800;

    let key = TimeSeries::<f64>::ts_to_key(timestamp1);
    assert_eq!(key, "0976091609");

    let key = TimeSeries::<f64>::ts_to_key(timestamp2);
    assert_eq!(key, "0976091609");

    let ts = TimeSeries::<f64>::key_to_ts(&key).unwrap();
    assert_eq!(ts, timestamp1);
}

#[test]
fn test_key_to_ts_invalid_input() {
    assert!(TimeSeries::<f64>::key_to_ts("invalid").is_err());
    assert!(TimeSeries::<f64>::key_to_ts("09760916").is_err());
    assert!(TimeSeries::<f64>::key_to_ts("097x091609").is_err());
}

#[test]
fn test_timeseries_merge() {
    let mut ts1 = TimeSeries::<f64>::new();
    ts1.add_point(100, 1.0);
    ts1.add_point(200, 2.0);

    let mut ts2 = TimeSeries::<f64>::new();
    ts2.add_point(300, 3.0);
    ts2.add_point(400, 4.0);

    ts1.merge(&ts2);
    assert_eq!(ts1.len(), 4);
    assert_eq!(*ts1.get_value_for_timestamp(100).unwrap(), 1.0);
    assert_eq!(*ts1.get_value_for_timestamp(400).unwrap(), 4.0);

    let mut ts3 = TimeSeries::<f64>::new();
    ts3.add_point(200, 5.0);
    ts3.add_point(500, 6.0);

    ts1.merge(&ts3);
    assert_eq!(ts1.len(), 5);
    assert_eq!(*ts1.get_value_for_timestamp(200).unwrap(), 5.0);

    let empty_ts = TimeSeries::<f64>::new();
    ts1.merge(&empty_ts);
    assert_eq!(ts1.len(), 5);

    let timestamps: Vec<u64> = ts1.timestamps.clone();
    assert!(timestamps.windows(2).all(|w| w[0] < w[1]));
}

#[test]
fn test_location_timeseries() {
    let mut series = LocationTimeSeries::new();

    series.add_point(1000, lat_long(45.5, -122.6));
    series.add_point(2000, lat_long(40.7, -74.0));
    series.add_point(3000, lat_long(51.5, -0.12));

    assert_eq!(series.len(), 3);

    let portland = series.get_value_for_timestamp(1000).unwrap();
    assert_eq!(*portland, lat_long(45.5, -122.6));

    let (ts, london) = series.latest().unwrap();
    assert_eq!(ts, 3000);
    assert_eq!(london, lat_long(51.5, -0.12));

    let range: Vec<_> = series.range(1500, 2500);
    assert_eq!(range.len(), 1);
    assert_eq!(range[0], (2000, lat_long(40.7, -74.0)));

    series.clear();
    assert!(series.is_empty());
}

#[test]
fn test_metric_value_conversions() {
    let float_val = MetricValue::Float(42.5f64.to_bits());
    assert_eq!(float_val.clone().into_float().map(f64::from_bits), Some(42.5));
    assert_eq!(float_val.clone().into_int(), Some(42));
    assert_eq!(float_val.into_location(), None);

    let int_val = MetricValue::Int(42);
    assert_eq!(int_val.clone().into_float().map(f64::from_bits), Some(42.0));
    assert_eq!(int_val.clone().into_int(), Some(42));
    assert_eq!(int_val.into_location(), None);

    let loc_val = MetricValue::Location(lat_long(51.5074, -0.1278));
    assert_eq!(loc_val.clone().into_float(), None);
    assert_eq!(loc_val.clone().into_int(), None);
    assert!(loc_val.into_location().is_some());
}

#[test]
fn test_timeseries_conversions() {
    let mut metric_ts = MetricTimeSeries::new();
    metric_ts.add_point(1000, MetricValue::Float(42.5f64.to_bits()));
    metric_ts.add_point(2000, MetricValue::Float(43.5f64.to_bits()));

    let float_ts = metric_ts.to_float_series().unwrap();
    assert_eq!(float_ts.len(), 2);
    assert_eq!(float_ts.get_value_for_timestamp(1000).map(|b| f64::from_bits(*b)), Some(42.5));

    let converted_metric_ts = MetricTimeSeries::from_float_series(&float_ts);
    assert_eq!(converted_metric_ts.len(), 2);
    match converted_metric_ts.get_value_for_timestamp(1000) {
        Some(MetricValue::Float(f)) => assert_eq!(f64::from_bits(*f), 42.5),
        _ => panic!("Wrong value type"),
    }

    metric_ts.add_point(3000, MetricValue::Int(1));
    assert!(metric_ts.to_float_series().is_none());
}

#[test]
fn float_conversions_agree_with_the_machine() {
    let samples: Vec<i64> = vec![
        0, 1, -1, 2, 3, 42, -42, 1 << 52, (1 << 53) - 1, 1 << 53, (1 << 53) + 1, (1 << 53) + 2,
        (1 << 53) + 3, (1 << 54) - 1, (1 << 54) - 2, (1 << 54) - 3, i64::MAX, i64::MIN,
        i64::MAX - 511, i64::MAX - 512, i64::MAX - 513, 1234567890123456789, -987654321987654321,
    ];
    for i in samples {
        assert_eq!(forest::float::float_from_i64(i), (i as f64).to_bits(), "{}", i);
    }
    let unsigned: Vec<u64> = vec![u64::MAX, u64::MAX - 1023, u64::MAX - 1024, u64::MAX - 1025, 1 << 63];
    for u in unsigned {
        assert_eq!(forest::float::float_from_u64(u), (u as f64).to_bits(), "{}", u);
    }
    let floats: Vec<f64> = vec![
        0.0, -0.0, 0.5, -0.5, 0.999, 1.0, 1.5, -1.5, 42.5, -42.5, 1e10, -1e10, 9.2e18, 9.3e18,
        -9.3e18, 1e300, -1e300, f64::INFINITY, f64::NEG_INFINITY, f64::NAN, f64::MIN_POSITIVE,
        4503599627370496.5, 9007199254740993.0, -9223372036854775808.0,
    ];
    for f in floats {
        assert_eq!(forest::float::float_to_i64(f.to_bits()), f as i64, "{}", f);
    }
}

#[test]
fn binary_format_is_stable() {
    let mut ts = MetricTimeSeries::new();
    ts.add_point(2, MetricValue::Int(-1));
    ts.add_point(1, MetricValue::Int(7));
    let bytes = ts.to_binary().unwrap();
    let mut expected: Vec<u8> = vec![0x01, 0x00, 0x53, 0x54, 1, 2, 0, 0, 0];
    expected.extend_from_slice(&1u64.to_le_bytes());
    expected.extend_from_slice(&2u64.to_le_bytes());
    expected.extend_from_slice(&7i64.to_le_bytes());
    expected.extend_from_slice(&(-1i64).to_le_bytes());
    assert_eq!(bytes, expected);
    let back = MetricTimeSeries::from_binary(&bytes).unwrap();
    assert_eq!(back.timestamps, vec![1, 2]);
    assert_eq!(back.values, vec![MetricValue::Int(7), MetricValue::Int(-1)]);
}

#[test]
fn binary_format_rejects_what_it_did_not_write() {
    let mut ts = MetricTimeSeries::new();
    ts.add_point(1, MetricValue::Location(lat_long(1.0, 2.0)));
    ts.add_point(5, MetricValue::Location(lat_long(3.0, 4.0)));
    let good = ts.to_binary().unwrap();
    assert_eq!(good.len(), 9 + 2 * 8 + 2 * 16);
    assert!(MetricTimeSeries::from_binary(&good).is_ok());

    assert_eq!(
        MetricTimeSeries::from_binary(&good[..8]).err(),
        Some(TimeseriesSerializationError::InvalidData)
    );
    let mut bad_magic = good.clone();
    bad_magic[0] = 2;
    assert!(MetricTimeSeries::from_binary(&bad_magic).is_err());
    let mut bad_kind = good.clone();
    bad_kind[4] = 3;
    assert!(MetricTimeSeries::from_binary(&bad_kind).is_err());
    let mut short = good.clone();
    short.pop();
    assert!(MetricTimeSeries::from_binary(&short).is_err());
    let mut descending = good.clone();
    descending[9] = 9;
    assert!(MetricTimeSeries::from_binary(&descending).is_err());

    let mut mixed = MetricTimeSeries::new();
    mixed.add_point(1, MetricValue::Int(1));
    mixed.add_point(2, MetricValue::Float(0));
    assert_eq!(mixed.to_binary().err(), Some(TimeseriesSerializationError::MixedValueKinds));

    let empty = MetricTimeSeries::new();
    let bytes = empty.to_binary().unwrap();
    assert_eq!(bytes, vec![0x01, 0x00, 0x53, 0x54, 0, 0, 0, 0, 0]);
    assert!(MetricTimeSeries::from_binary(&bytes).unwrap().is_empty());
}

#[test]
fn keep_last_keeps_the_newest() {
    let mut ts = TimeSeries::<i32>::new();
    for i in 0..5u64 {
        ts.add_point(i * 10, i as i32);
    }
    ts.keep_last(2);
    assert_eq!(ts.timestamps, vec![30, 40]);
    assert_eq!(ts.values, vec![3, 4]);
    ts.keep_last(5);
    assert_eq!(ts.timestamps, vec![30, 40]);
    ts.keep_last(0);
    assert!(ts.is_empty());
}

#[test]
fn merge_of_disjoint_series_commutes() {
    let mut a = TimeSeries::<i32>::new();
    a.add_point(1, 1);
    a.add_point(5, 5);
    let mut b = TimeSeries::<i32>::new();
    b.add_point(3, 3);
    b.add_point(9, 9);
    let mut ab = TimeSeries::<i32>::new();
    ab.merge(&a);
    ab.merge(&b);
    let mut ba = TimeSeries::<i32>::new();
    ba.merge(&b);
    ba.merge(&a);
    assert_eq!(ab.timestamps, ba.timestamps);
    assert_eq!(ab.values, ba.values);
    assert_eq!(ab.timestamps, vec![1, 3, 5, 9]);
}

#[test]
fn trim_with_inverted_bounds_is_empty() {
    let mut ts = TimeSeries::<i32>::new();
    ts.add_point(1, 1);
    ts.add_point(2, 2);
    ts.trim(5, 1);
    assert!(ts.is_empty());
    assert!(ts.first_timestamp().is_none());
    assert!(ts.latest().is_none());
}

#[test]
fn last_write_wins_at_one_timestamp() {
    let mut ts = TimeSeries::<i32>::new();
    ts.add_point(5, 1);
    ts.add_point(5, 2);
    ts.add_point(3, 0);
    ts.add_point(5, 3);
    assert_eq!(ts.timestamps, vec![3, 5]);
    assert_eq!(ts.values, vec![0, 3]);
    assert_eq!(ts.first_timestamp(), Some(3));
    assert_eq!(ts.latest(), Some((5, 3)));
    let mut other = TimeSeries::<i32>::new();
    other.add_point(3, 9);
    ts.merge(&other);
    assert_eq!(ts.values, vec![9, 3]);
}

#[test]
fn text_that_is_no_key() {
    assert_eq!(
        TimeSeries::<i32>::key_to_ts("invalid"),
        Err(TimeseriesSerializationError::InvalidKey)
    );
    assert_eq!(TimeseriesSerializationError::InvalidKey.to_string(), "Invalid key");
    assert_eq!(TimeseriesSerializationError::UnsupportedFormat.to_string(), "Unsupported format");
    assert_eq!(
        MetricTimeSeries::deserialize(&[], SerializationFormat::Json).err(),
        Some(TimeseriesSerializationError::UnsupportedFormat)
    );
    assert_eq!(
        MetricTimeSeries::deserialize(&[], SerializationFormat::Binary).err(),
        Some(TimeseriesSerializationError::InvalidData)
    );
}
