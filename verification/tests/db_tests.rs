use forest::config_store::{classify, find_device_config, ConfigMatch, DocumentEntry};
use forest::dataconfig::{DataConfig, DataConfigEntry, DataType, MetricConfig};
use forest::db::{CommitLoop, CommitOutcome, DatabaseConfig, DatabaseError, DB, MAX_RETRIES};
use forest::json::{Json, JsonNumber};
use forest::metric::{MetricTimeSeries, MetricValue};
use forest::models::{DeviceMetadata, ShadowName, TenantId};
use forest::series_store::{merge_bucket, Entry, LastScan, RangeScan};
use forest::shadow::{Shadow, StateDocument, StateUpdateDocument};
use forest::timeseries::TimeSeries;
use std::collections::BTreeMap;

type Buckets = BTreeMap<Vec<u8>, Vec<u8>>;
type Documents = BTreeMap<Vec<u8>, Json>;

fn float(x: f64) -> MetricValue {
    MetricValue::Float(x.to_bits())
}

fn float_series(points: &[(u64, f64)]) -> MetricTimeSeries {
    let mut ts = MetricTimeSeries::new();
    for (t, v) in points {
        ts.add_point(*t, float(*v));
    }
    ts
}

fn put_timeseries(store: &mut Buckets, key: &[u8], ts: &MetricTimeSeries) -> Result<(), DatabaseError> {
    for (full_key, bucket) in DB::_put_timeseries(key, ts)? {
        let merged = merge_bucket(store.get(&full_key).map(|v| v.as_slice()), &bucket)?;
        store.insert(full_key, merged);
    }
    Ok(())
}

fn entries_from(store: &Buckets, seek: &[u8]) -> Vec<Entry> {
    store.range(seek.to_vec()..).map(|(k, v)| (k.clone(), v.clone())).collect()
}

fn get_timeseries(store: &Buckets, key: &[u8], min: u64, max: u64) -> Result<MetricTimeSeries, DatabaseError> {
    let seek = DB::_to_ts_key(key, max);
    DB::_get_timeseries(&entries_from(store, &seek), key, min, max)
}

fn get_timeseries_last(store: &Buckets, key: &[u8], limit: u64, now: u64) -> Result<MetricTimeSeries, DatabaseError> {
    let (_, seek) = LastScan::start(key, now, limit);
    DB::_get_timeseries_last(&entries_from(store, &seek), key, limit)
}

fn number(n: u64) -> Json {
    Json::Number(JsonNumber::PosInt(n))
}

fn double(x: f64) -> Json {
    Json::Number(JsonNumber::Float(x.to_bits()))
}

fn object(entries: Vec<(&str, Json)>) -> Json {
    Json::Object(entries.into_iter().map(|(k, v)| (k.to_string(), v)).collect())
}

fn member<'a>(v: &'a Json, key: &str) -> &'a Json {
    v.get_member(key).unwrap()
}

fn metric(pointer: &str, name: &str, data_type: DataType) -> MetricConfig {
    MetricConfig { json_pointer: pointer.to_string(), name: name.to_string(), data_type }
}

fn store_tenant_data_config(store: &mut Documents, tenant: &TenantId, config: &DataConfig) {
    store.insert(DB::_to_dataconfig_key(tenant, None), config.to_value());
}

fn store_device_data_config(store: &mut Documents, tenant: &TenantId, prefix: &str, config: &DataConfig) {
    store.insert(DB::_to_dataconfig_key(tenant, Some(prefix)), config.to_value());
}

fn delete_data_config(store: &mut Documents, tenant: &TenantId, prefix: Option<&str>) {
    store.remove(&DB::_to_dataconfig_key(tenant, prefix));
}

fn get_data_config(store: &Documents, tenant: &TenantId, device_id: Option<&str>) -> Option<DataConfig> {
    let tenant_doc = store.get(&DB::_to_dataconfig_key(tenant, None));
    let entries: Vec<DocumentEntry> = match device_id {
        Some(_) => {
            let search = DB::_to_dataconfig_key(tenant, device_id);
            store.range(..=search).rev().map(|(k, v)| (k.clone(), v.clone())).collect()
        }
        None => Vec::new(),
    };
    DB::get_data_config(tenant_doc, &entries, tenant, device_id)
}

fn list_data_configs(store: &Documents, tenant: &TenantId) -> Vec<DataConfigEntry> {
    let seek = DB::_to_dataconfig_key(tenant, None);
    let entries: Vec<DocumentEntry> = store.range(seek..).map(|(k, v)| (k.clone(), v.clone())).collect();
    DB::list_data_configs(&entries, tenant)
}

fn upsert_shadow(store: &mut Documents, update: &StateUpdateDocument, ts: u64) -> Result<Shadow, DatabaseError> {
    let key = DB::_to_shadow_key(&update.device_id, &update.shadow_name, &update.tenant_id);
    let shadow = DB::_upsert_shadow(store.get(&key), update, ts)?;
    store.insert(key, shadow.to_value());
    Ok(shadow)
}

#[test]
fn test_put_get_multiple_buckets() {
    let mut store = Buckets::new();
    let ts = float_series(&[(1710511200, 1.0), (1710511200 + 3600, 2.0)]);

    let key = b"test2";
    put_timeseries(&mut store, key, &ts).unwrap();
    assert_eq!(store.len(), 2);

    let result = get_timeseries(&store, key, 1710511200, 1710511200 + 3599).unwrap();
    assert_eq!(result.len(), 1);
    assert_eq!(*result.get_value_for_timestamp(1710511200).unwrap(), float(1.0));
}

#[test]
fn test_empty_range() {
    let store = Buckets::new();
    let result = get_timeseries(&store, b"nonexistent", 0, 1).unwrap();
    assert_eq!(result.len(), 0);
}

#[test]
fn test_ts_key_ordering() {
    let key_a = b"a";
    let key_b = b"b";
    let key_ab = b"ab";

    let ts1 = 1710511200;
    let ts2 = ts1 + 3600;
    let ts3 = ts1 + 7200;

    let key_a1 = DB::_to_ts_key(key_a, ts1);
    let key_a2 = DB::_to_ts_key(key_a, ts2);
    let key_a3 = DB::_to_ts_key(key_a, ts3);
    let key_b1 = DB::_to_ts_key(key_b, ts1);
    let key_ab1 = DB::_to_ts_key(key_ab, ts2);

    let str_a1 = String::from_utf8_lossy(&key_a1);
    let str_a2 = String::from_utf8_lossy(&key_a2);
    let str_a3 = String::from_utf8_lossy(&key_a3);
    let str_b1 = String::from_utf8_lossy(&key_b1);
    let str_ab1 = String::from_utf8_lossy(&key_ab1);

    assert_eq!(str_a1, "a#0976091609");
    assert_eq!(str_a2, "a#0976091608");
    assert_eq!(str_a3, "a#0976091607");
    assert_eq!(str_ab1, "ab#0976091608");
    assert_eq!(str_b1, "b#0976091609");

    assert!(key_a1 > key_a2);
    assert!(key_a2 > key_a3);

    assert!(key_a1 < key_b1);
    assert!(key_a2 < key_b1);
    assert!(key_a3 < key_b1);

    assert!(key_a1 < key_ab1);
    assert!(key_a2 < key_ab1);
    assert!(key_a3 < key_ab1);
    assert!(key_b1 > key_ab1);

    let (parsed_key, parsed_ts) = DB::_from_ts_key(&key_a1).unwrap();
    assert_eq!(parsed_key, key_a);
    assert_eq!(parsed_ts, ts1);
}

#[test]
fn test_get_timeseries_last() {
    let mut store = Buckets::new();

    let ts1 = float_series(&[(1710511200, 1.0), (1710511200 + 1800, 2.0)]);
    let ts2 = float_series(&[(1710514800, 3.0), (1710514800 + 1800, 4.0)]);

    let key = b"test_last";

    put_timeseries(&mut store, key, &ts1).unwrap();
    put_timeseries(&mut store, key, &ts2).unwrap();

    let result = get_timeseries_last(&store, key, 1, 1710600000).unwrap();
    assert_eq!(result.len(), 1);
    assert_eq!(*result.get_value_for_timestamp(1710514800 + 1800).unwrap(), float(4.0));

    let result = get_timeseries_last(&store, key, 10, 1710600000).unwrap();
    assert_eq!(result.len(), 4);
    assert_eq!(result.timestamps, vec![1710511200, 1710513000, 1710514800, 1710516600]);

    let result = get_timeseries_last(&store, b"nonexistent", 1, 1710600000).unwrap();
    assert_eq!(result.len(), 0);
}

#[test]
fn test_upsert_shadow() {
    let mut store = Documents::new();

    let update1 = StateUpdateDocument {
        device_id: "thermostat-01".to_string(),
        shadow_name: ShadowName::Default,
        tenant_id: TenantId::Default,
        state: StateDocument {
            reported: object(vec![("temperature", double(22.5)), ("humidity", number(45))]),
            desired: Json::Null,
            delta: Json::Null,
        },
    };

    upsert_shadow(&mut store, &update1, 1000).unwrap();

    let key = DB::_to_shadow_key(&update1.device_id, &update1.shadow_name, &update1.tenant_id);
    assert_eq!(key, b"default#thermostat-01#default".to_vec());
    let shadow = Shadow::from_value(store.get(&key).unwrap()).unwrap();

    assert_eq!(shadow.device_id, "thermostat-01");
    assert!(member(shadow.get_reported_value(), "temperature").equals(&double(22.5)));

    let update2 = StateUpdateDocument {
        device_id: "thermostat-01".to_string(),
        shadow_name: ShadowName::Default,
        tenant_id: TenantId::Default,
        state: StateDocument {
            reported: Json::Null,
            desired: object(vec![("temperature", double(21.0))]),
            delta: Json::Null,
        },
    };

    upsert_shadow(&mut store, &update2, 2000).unwrap();

    let shadow = Shadow::from_value(store.get(&key).unwrap()).unwrap();
    let desired = shadow.get_desired_value();
    let reported = shadow.get_reported_value();
    assert!(member(desired, "temperature").equals(&double(21.0)));
    assert!(member(reported, "temperature").equals(&double(22.5)));
    let s = shadow.get_delta_value();
    assert!(member(s, "temperature").equals(&double(21.0)));

    let update3 = StateUpdateDocument {
        device_id: "thermostat-01".to_string(),
        shadow_name: ShadowName::Default,
        tenant_id: TenantId::Default,
        state: StateDocument {
            reported: object(vec![("temperature", double(21.0))]),
            desired: Json::Null,
            delta: Json::Null,
        },
    };
    upsert_shadow(&mut store, &update3, 3000).unwrap();

    let shadow = Shadow::from_value(store.get(&key).unwrap()).unwrap();
    let desired = shadow.get_desired_value();
    let reported = shadow.get_reported_value();
    assert!(member(desired, "temperature").equals(&double(21.0)));
    assert!(member(reported, "temperature").equals(&double(21.0)));
    assert!(shadow.get_delta_value().is_null());

    let store_shadow = DB::_get_shadow(
        store.get(&key),
        "thermostat-01",
        &ShadowName::Default,
        &TenantId::Default,
    )
    .unwrap();
    assert_eq!(store_shadow.device_id, "thermostat-01");
    assert!(member(store_shadow.get_reported_value(), "temperature").equals(&double(21.0)));
    assert!(member(store_shadow.get_desired_value(), "temperature").equals(&double(21.0)));
    assert!(store_shadow.get_delta_value().is_null());
    assert_eq!(store_shadow.get_version(), 3);
}

#[test]
fn test_store_and_get_tenant_data_config() {
    let mut store = Documents::new();

    let config = DataConfig {
        metrics: vec![
            metric("/temperature", "temperature", DataType::Float),
            metric("/temperature", "humidity", DataType::Int),
        ],
    };

    store_tenant_data_config(&mut store, &TenantId::Default, &config);
    let actual = get_data_config(&store, &TenantId::Default, None).unwrap();
    assert_eq!(actual.metrics.len(), 2);
}

#[test]
fn test_store_and_get_device_data_config() {
    let mut store = Documents::new();

    let tenant_config = DataConfig { metrics: vec![metric("/temperature", "temperature", DataType::Float)] };
    store_tenant_data_config(&mut store, &TenantId::new("tenant2"), &tenant_config);

    let base = get_data_config(&store, &TenantId::new("tenant2"), Some("deviceA1")).unwrap();
    assert_eq!(base.metrics.len(), 1);
    assert_eq!(base.metrics[0].name, "temperature");
    assert_eq!(base.metrics[0].data_type, DataType::Float);

    let device_config = DataConfig { metrics: vec![metric("/temperature", "temperature", DataType::Int)] };
    store_device_data_config(&mut store, &TenantId::new("tenant2"), "deviceA", &device_config);

    let merged = get_data_config(&store, &TenantId::new("tenant2"), Some("deviceA1")).unwrap();
    assert_eq!(merged.metrics.len(), 1);
    assert_eq!(merged.metrics[0].name, "temperature");
    assert_eq!(merged.metrics[0].data_type, DataType::Int);

    let device_config = DataConfig { metrics: vec![metric("/temp3", "temp2", DataType::Float)] };
    store_device_data_config(&mut store, &TenantId::new("tenant2"), "deviceA1", &device_config);

    let merged = get_data_config(&store, &TenantId::new("tenant2"), Some("deviceA1")).unwrap();
    assert_eq!(merged.metrics.len(), 2);
    assert_eq!(merged.metrics[0].name, "temperature");
    assert_eq!(merged.metrics[0].data_type, DataType::Float);
    assert_eq!(merged.metrics[1].name, "temp2");
    assert_eq!(merged.metrics[1].data_type, DataType::Float);
}

#[test]
fn test_delete_data_config() {
    let mut store = Documents::new();

    let tenant_config = DataConfig { metrics: vec![metric("/temperature", "temperature", DataType::Float)] };
    let device_config = DataConfig { metrics: vec![metric("/humidity", "humidity", DataType::Int)] };

    store_tenant_data_config(&mut store, &TenantId::new("tenant1"), &tenant_config);
    store_device_data_config(&mut store, &TenantId::new("tenant1"), "device1", &device_config);

    delete_data_config(&mut store, &TenantId::new("tenant1"), Some("device1"));

    let result = get_data_config(&store, &TenantId::new("tenant1"), Some("device1")).unwrap();
    assert_eq!(result.metrics.len(), 1);
    assert_eq!(result.metrics[0].name, "temperature");

    delete_data_config(&mut store, &TenantId::new("tenant1"), None);

    let result = get_data_config(&store, &TenantId::new("tenant1"), None);
    assert!(matches!(result, None));
}

#[test]
fn test_list_data_configs() {
    let mut store = Documents::new();

    let tenant_config = DataConfig { metrics: vec![metric("/temperature", "temperature", DataType::Float)] };
    let device1_config = DataConfig { metrics: vec![metric("/humidity", "humidity", DataType::Int)] };
    let device2_config = DataConfig { metrics: vec![metric("/pressure", "pressure", DataType::Float)] };

    store_tenant_data_config(&mut store, &TenantId::new("tenant1"), &tenant_config);
    store_device_data_config(&mut store, &TenantId::new("tenant1"), "device1", &device1_config);
    store_device_data_config(&mut store, &TenantId::new("tenant1"), "device2", &device2_config);

    let configs = list_data_configs(&store, &TenantId::new("tenant1"));

    assert_eq!(configs.len(), 3);

    let tenant_key = TenantId::new("tenant1");
    let tenant_entry = configs.iter().find(|entry| entry.tenant_id == tenant_key).unwrap();
    assert_eq!(tenant_entry.metrics[0].name, "temperature");

    let device1_key = Some("device1".to_string());
    let device1_entry = configs.iter().find(|entry| entry.device_prefix == device1_key).unwrap();
    assert_eq!(device1_entry.metrics[0].name, "humidity");

    let device2_key = Some("device2".to_string());
    let device2_entry = configs.iter().find(|entry| entry.device_prefix == device2_key).unwrap();
    assert_eq!(device2_entry.metrics[0].name, "pressure");

    let empty_configs = list_data_configs(&store, &TenantId::new("tenant2"));
    assert_eq!(empty_configs.len(), 0);
}

#[test]
fn forward_iteration_yields_the_newer_bucket_first() {
    let mut store = Buckets::new();
    let base = b"things/d/m";
    put_timeseries(&mut store, base, &float_series(&[(1710511200, 1.0), (1710511200 + 3600, 2.0)])).unwrap();
    let seek = b"things/d/m#0976091600".to_vec();
    let keys: Vec<Vec<u8>> = store.range(seek..).map(|(k, _)| k.clone()).collect();
    assert_eq!(keys, vec![b"things/d/m#0976091608".to_vec(), b"things/d/m#0976091609".to_vec()]);
}

#[test]
fn range_read_spanning_two_buckets() {
    let mut store = Buckets::new();
    put_timeseries(&mut store, b"k", &float_series(&[(1710511200, 1.0)])).unwrap();
    put_timeseries(&mut store, b"k", &float_series(&[(1710511200 + 3600, 2.0)])).unwrap();
    let one = get_timeseries(&store, b"k", 1710511200, 1710511200 + 3599).unwrap();
    assert_eq!(one.timestamps, vec![1710511200]);
    assert_eq!(one.values, vec![float(1.0)]);
    let both = get_timeseries(&store, b"k", 1710511200, 1710511200 + 3600).unwrap();
    assert_eq!(both.timestamps, vec![1710511200, 1710511200 + 3600]);
    let none = get_timeseries(&store, b"k", 1710511200 + 1, 1710511200 + 3599).unwrap();
    assert!(none.is_empty());
    let inverted = get_timeseries(&store, b"k", 1710511200 + 3600, 1710511200).unwrap();
    assert!(inverted.is_empty());
}

#[test]
fn last_n_across_buckets() {
    let mut store = Buckets::new();
    let points = [(1710511200, 1.0), (1710511200 + 1800, 2.0), (1710514800, 3.0), (1710514800 + 1800, 4.0)];
    put_timeseries(&mut store, b"k", &float_series(&points)).unwrap();
    let newest = get_timeseries_last(&store, b"k", 1, 1710600000).unwrap();
    assert_eq!(newest.timestamps, vec![1710514800 + 1800]);
    assert_eq!(newest.values, vec![float(4.0)]);
    let all = get_timeseries_last(&store, b"k", 10, 1710600000).unwrap();
    assert_eq!(all.timestamps, vec![1710511200, 1710511200 + 1800, 1710514800, 1710514800 + 1800]);
    let three = get_timeseries_last(&store, b"k", 3, 1710600000).unwrap();
    assert_eq!(three.timestamps, vec![1710511200 + 1800, 1710514800, 1710514800 + 1800]);
    let zero = get_timeseries_last(&store, b"k", 0, 1710600000).unwrap();
    assert!(zero.is_empty());
}

#[test]
fn last_n_reads_on_until_it_has_n_points() {
    let mut store = Buckets::new();
    let points = [
        (1710511200, 1.0),
        (1710513000, 2.0),
        (1710514800, 3.0),
        (1710516600, 4.0),
        (1710518400, 5.0),
        (1710520200, 6.0),
    ];
    put_timeseries(&mut store, b"k", &float_series(&points)).unwrap();
    assert_eq!(store.len(), 3);
    let five = get_timeseries_last(&store, b"k", 5, 1710600000).unwrap();
    assert_eq!(five.timestamps, vec![1710513000, 1710514800, 1710516600, 1710518400, 1710520200]);
    assert_eq!(five.values, vec![float(2.0), float(3.0), float(4.0), float(5.0), float(6.0)]);
    for limit in 0..=8u64 {
        let read = get_timeseries_last(&store, b"k", limit, 1710600000).unwrap();
        let expected: Vec<u64> =
            points.iter().map(|p| p.0).skip(6usize.saturating_sub(limit as usize)).collect();
        assert_eq!(read.timestamps, expected, "limit {}", limit);
    }
}

#[test]
fn overlapping_writes_merge_in_the_bucket() {
    let mut store = Buckets::new();
    put_timeseries(&mut store, b"k", &float_series(&[(100, 1.0), (200, 2.0)])).unwrap();
    put_timeseries(&mut store, b"k", &float_series(&[(200, 5.0), (300, 6.0)])).unwrap();
    assert_eq!(store.len(), 1);
    let all = get_timeseries(&store, b"k", 0, 3599).unwrap();
    assert_eq!(all.timestamps, vec![100, 200, 300]);
    assert_eq!(all.values, vec![float(1.0), float(5.0), float(6.0)]);
}

#[test]
fn bucket_of_another_kind_is_refused() {
    let mut store = Buckets::new();
    put_timeseries(&mut store, b"k", &float_series(&[(100, 1.0)])).unwrap();
    let mut ints = MetricTimeSeries::new();
    ints.add_point(200, MetricValue::Int(2));
    let r = put_timeseries(&mut store, b"k", &ints);
    assert!(matches!(
        r,
        Err(DatabaseError::TimeseriesSerializationError(
            forest::metric::TimeseriesSerializationError::MixedValueKinds
        ))
    ));
    store.insert(DB::_to_ts_key(b"bad", 100), vec![1, 2, 3]);
    assert!(matches!(
        put_timeseries(&mut store, b"bad", &float_series(&[(100, 1.0)])),
        Err(DatabaseError::TimeseriesSerializationError(
            forest::metric::TimeseriesSerializationError::InvalidData
        ))
    ));
    assert!(matches!(
        get_timeseries(&store, b"bad", 0, 3599),
        Err(DatabaseError::TimeseriesSerializationError(
            forest::metric::TimeseriesSerializationError::InvalidData
        ))
    ));
    assert!(matches!(
        get_timeseries_last(&store, b"bad", 1, 1000),
        Err(DatabaseError::TimeseriesSerializationError(
            forest::metric::TimeseriesSerializationError::InvalidData
        ))
    ));
}

#[test]
fn timestamps_without_a_key_are_refused() {
    let mut store = Buckets::new();
    let r = put_timeseries(&mut store, b"k", &float_series(&[(32535216000, 1.0)]));
    assert!(matches!(r, Err(DatabaseError::InvalidKeyError(_))));
    assert!(put_timeseries(&mut store, b"k", &float_series(&[(32535215999, 1.0)])).is_ok());
    assert!(matches!(
        DB::put_metric_at(&TenantId::Default, "d", "m", float(1.0), u64::MAX),
        Err(DatabaseError::InvalidKeyError(_))
    ));
}

#[test]
fn put_metric_writes_one_point() {
    let writes = DB::put_metric_at(&TenantId::new("acme"), "dev1", "temp", float(20.5), 1710511234).unwrap();
    assert_eq!(writes.len(), 1);
    assert_eq!(writes[0].0, b"acme#dev1#temp#0976091609".to_vec());
    assert_eq!(writes[0].1.timestamps, vec![1710511234]);
    assert_eq!(writes[0].1.values, vec![float(20.5)]);
}

#[test]
fn range_scan_steps() {
    let (mut scan, seek) = RangeScan::start(b"k", 1710511200, 1710511200 + 7200);
    assert_eq!(seek, b"k#0976091607".to_vec());
    assert_eq!(scan.min_key, b"k#0976091609".to_vec());
    let bucket = float_series(&[(1710511200 + 7200, 3.0)]).to_binary().unwrap();
    assert_eq!(scan.accept(b"k#0976091607", &bucket).unwrap(), true);
    assert_eq!(scan.accept(b"k#0976091610", &bucket).unwrap(), false);
    assert!(scan.accept(b"k#0976091608", &[0u8; 3]).is_err());
    let series = scan.finish();
    assert_eq!(series.timestamps, vec![1710511200 + 7200]);
}

#[test]
fn last_scan_counts_the_points_merged() {
    let (mut scan, seek) = LastScan::start(b"k", 1710511200, 4);
    assert_eq!(seek, DB::_to_ts_key(b"k", 1710511200 + 31536000));
    let one = float_series(&[(50, 1.0)]).to_binary().unwrap();
    let two = float_series(&[(20, 1.0), (30, 1.0)]).to_binary().unwrap();
    let more = float_series(&[(5, 1.0), (30, 2.0)]).to_binary().unwrap();
    assert_eq!(scan.accept(b"k#1", &one).unwrap(), true);
    assert_eq!(scan.count, 1);
    assert_eq!(scan.accept(b"k#2", &two).unwrap(), true);
    assert_eq!(scan.count, 3);
    assert_eq!(scan.accept(b"other", &two).unwrap(), false);
    assert_eq!(scan.count, 3);
    // a point at a timestamp that is there already is not counted twice
    assert_eq!(scan.accept(b"k#3", &more).unwrap(), false);
    assert_eq!(scan.count, 4);
    let series = scan.finish();
    assert_eq!(series.timestamps, vec![5, 20, 30, 50]);
    let (_, late) = LastScan::start(b"k", u64::MAX, 1);
    assert_eq!(late, b"k#0000000000".to_vec());
}

#[test]
fn key_schemas() {
    assert_eq!(DB::_to_dataconfig_key(&TenantId::Default, None), b"dc#default".to_vec());
    assert_eq!(DB::_to_dataconfig_key(&TenantId::new("t"), Some("dev")), b"dc#t#dev".to_vec());
    assert_eq!(DB::_to_device_metadata_key(&TenantId::new("t"), "dev"), b"device#t#dev".to_vec());
    assert_eq!(DB::_to_device_prefix(&TenantId::new("t")), b"device#t".to_vec());
    assert_eq!(DB::_to_metric_key(&TenantId::Default, "dev", "m"), b"default#dev#m".to_vec());
    assert_eq!(
        DB::_to_shadow_key("dev", &ShadowName::new("night"), &TenantId::new("t")),
        b"t#dev#night".to_vec()
    );
}

#[test]
fn bucket_key_that_cannot_be_split() {
    assert!(matches!(DB::_from_ts_key(b"nosseparator"), Err(DatabaseError::InvalidKeyError(_))));
    assert!(matches!(DB::_from_ts_key(b"a#097609160"), Err(DatabaseError::InvalidKeyError(_))));
    match DB::_from_ts_key(b"t#dev#m#0976091609") {
        Err(DatabaseError::InvalidKeyError(text)) => assert_eq!(text, "t#dev#m#0976091609"),
        _ => panic!("a key with separators in its base is split at the first"),
    }
    let (key, ts) = DB::_from_ts_key(b"#0976091609").unwrap();
    assert!(key.is_empty());
    assert_eq!(ts, 1710511200);
}

#[test]
fn commit_is_tried_five_times() {
    assert_eq!(MAX_RETRIES, 5);
    let mut state = CommitLoop::start();
    let mut attempts = 1;
    loop {
        match state.on_commit(false) {
            CommitOutcome::Retry(next) => {
                state = next;
                attempts += 1;
            }
            CommitOutcome::Exhausted => break,
            CommitOutcome::Done => panic!("a failed commit is not done"),
        }
    }
    assert_eq!(attempts, 5);
    assert_eq!(CommitLoop::start().on_commit(true), CommitOutcome::Done);
    match CommitLoop::exhausted_error("shadow update") {
        DatabaseError::DatabaseTransactionError(m) => {
            assert_eq!(m, "Failed to commit shadow update after max retries")
        }
        _ => panic!("wrong error"),
    }
}

fn metric_names(store: &Documents, tenant: &TenantId, device: &str) -> Vec<String> {
    get_data_config(store, tenant, Some(device))
        .map(|c| c.metrics.into_iter().map(|m| m.name).collect())
        .unwrap_or_default()
}

#[test]
fn resolution_takes_the_longest_prefix() {
    let mut store = Documents::new();
    let tenant = TenantId::new("t");
    for prefix in ["d", "dev", "device", "deviceA", "deviceB", "dex"] {
        let config = DataConfig { metrics: vec![metric("/x", prefix, DataType::Int)] };
        store_device_data_config(&mut store, &tenant, prefix, &config);
    }
    assert_eq!(metric_names(&store, &tenant, "deviceA1"), vec!["deviceA"]);
    assert_eq!(metric_names(&store, &tenant, "deviceC"), vec!["device"]);
    assert_eq!(metric_names(&store, &tenant, "dev"), vec!["dev"]);
    assert_eq!(metric_names(&store, &tenant, "de"), vec!["d"]);
    assert_eq!(metric_names(&store, &tenant, "dexter"), vec!["dex"]);
    assert!(metric_names(&store, &tenant, "other").is_empty());
    assert!(metric_names(&store, &tenant, "").is_empty());
    // entries of a tenant whose name begins with the name of this one do not count
    let other = TenantId::new("t2");
    store_device_data_config(
        &mut store,
        &other,
        "dev",
        &DataConfig { metrics: vec![metric("/x", "foreign", DataType::Int)] },
    );
    assert_eq!(metric_names(&store, &tenant, "dev"), vec!["dev"]);
    assert_eq!(metric_names(&store, &other, "device"), vec!["foreign"]);
}

#[test]
fn classification_of_keys() {
    assert_eq!(classify(b"dc#t#dev", b"dc#t", b"device"), ConfigMatch::Match);
    assert_eq!(classify(b"dc#t#", b"dc#t", b"device"), ConfigMatch::Match);
    assert_eq!(classify(b"dc#t#dex", b"dc#t", b"device"), ConfigMatch::Skip);
    assert_eq!(classify(b"dc#t", b"dc#t", b"device"), ConfigMatch::Skip);
    assert_eq!(classify(b"dc#t2#dev", b"dc#t", b"device"), ConfigMatch::Skip);
    assert_eq!(classify(b"dc#s#dev", b"dc#t", b"device"), ConfigMatch::Stop);
    assert_eq!(classify(b"dc", b"dc#t", b"device"), ConfigMatch::Stop);
    let entries: Vec<DocumentEntry> = vec![
        (b"dc#t#dex".to_vec(), Json::Null),
        (b"dc#t#dev".to_vec(), Json::Null),
        (b"dc#t#d".to_vec(), Json::Null),
    ];
    assert_eq!(find_device_config(&entries, b"dc#t", b"device"), Some(1));
    assert_eq!(find_device_config(&entries, b"dc#t", b"x"), None);
}

#[test]
fn listing_reads_the_device_prefix_from_the_key() {
    let mut store = Documents::new();
    let tenant = TenantId::new("t");
    store_device_data_config(&mut store, &tenant, "a#b", &DataConfig { metrics: vec![] });
    store.insert(b"dc#t#broken".to_vec(), Json::Null);
    let configs = list_data_configs(&store, &tenant);
    assert_eq!(configs.len(), 2);
    assert_eq!(configs[0].device_prefix, Some("a".to_string()));
    assert_eq!(configs[1].device_prefix, Some("broken".to_string()));
    assert!(configs[1].metrics.is_empty());
    // bytes that are no text are read with replacement characters
    let mut odd = Documents::new();
    odd.insert(b"dc#t#a\xffb".to_vec(), Json::Null);
    let configs = list_data_configs(&odd, &tenant);
    assert_eq!(configs[0].device_prefix, Some("a\u{fffd}b".to_string()));
}

#[test]
fn devices_are_listed_by_tenant() {
    let mut store = Documents::new();
    let tenant = TenantId::new("t");
    let one = DeviceMetadata::new_at("one", &tenant, 5);
    let two = DeviceMetadata::new_at("two", &tenant, 6).with_credentials("cert".to_string(), "key".to_string());
    store.insert(DB::_to_device_metadata_key(&tenant, "one"), one.to_value());
    store.insert(DB::_to_device_metadata_key(&tenant, "two"), two.to_value());
    store.insert(DB::_to_device_metadata_key(&TenantId::new("u"), "three"), one.to_value());
    let seek = DB::_to_device_prefix(&tenant);
    let entries: Vec<DocumentEntry> = store.range(seek..).map(|(k, v)| (k.clone(), v.clone())).collect();
    let devices = DB::list_devices(&entries, &tenant).unwrap();
    assert_eq!(devices.len(), 2);
    assert_eq!(devices[0].device_id, "one");
    assert_eq!(devices[1].device_id, "two");
    assert_eq!(devices[1].certificate, Some("cert".to_string()));
    assert_eq!(devices[1].key, Some("key".to_string()));
    assert_eq!(devices[1].created_at, 6);
    store.insert(DB::_to_device_metadata_key(&tenant, "bad"), Json::Null);
    let entries: Vec<DocumentEntry> = store.range(DB::_to_device_prefix(&tenant)..).map(|(k, v)| (k.clone(), v.clone())).collect();
    assert!(matches!(DB::list_devices(&entries, &tenant), Err(DatabaseError::DatabaseValueError(_))));
}

#[test]
fn upsert_refuses_what_it_cannot_update() {
    let mut store = Documents::new();
    let update = StateUpdateDocument::new("dev", &ShadowName::Default, &TenantId::Default);
    let key = DB::_to_shadow_key("dev", &ShadowName::Default, &TenantId::Default);
    store.insert(key.clone(), Json::Null);
    assert!(matches!(upsert_shadow(&mut store, &update, 1), Err(DatabaseError::ShadowSerializationError(_))));
    // a stored shadow whose metadata does not account for its state
    let mut broken = Shadow::new("dev", &ShadowName::Default, &TenantId::Default).to_value();
    if let Json::Object(entries) = &mut broken {
        for (k, v) in entries.iter_mut() {
            if k == "metadata" {
                *v = object(vec![("reported", number(5)), ("desired", Json::Null)]);
            }
        }
    }
    store.insert(key.clone(), broken);
    assert!(matches!(upsert_shadow(&mut store, &update, 1), Err(DatabaseError::DatabaseValueError(_))));
    // an update for another device
    store.insert(key.clone(), Shadow::new("other", &ShadowName::Default, &TenantId::Default).to_value());
    assert!(matches!(
        upsert_shadow(&mut store, &update, 1),
        Err(DatabaseError::ShadowError(forest::shadow::ShadowError::DeviceIdMismatch))
    ));
    // an update with a key twice
    store.remove(&key);
    let mut twice = StateUpdateDocument::new("dev", &ShadowName::Default, &TenantId::Default);
    twice.set_reported_value(Json::Object(vec![("a".to_string(), number(1)), ("a".to_string(), number(2))]));
    assert!(matches!(upsert_shadow(&mut store, &twice, 1), Err(DatabaseError::DatabaseValueError(_))));
    assert!(matches!(
        DB::_get_shadow(None, "dev", &ShadowName::Default, &TenantId::new("acme")),
        Err(DatabaseError::NotFoundError(m)) if m == "Shadow not found for device = dev name = default tenant = acme"
    ));
}

#[test]
fn database_config_defaults() {
    let config = DatabaseConfig::default();
    assert_eq!(config.path, "./.rocksdb/");
    assert!(config.create_if_missing);
    assert_eq!(config.backup_path, "./.rocksdb_backup/");
}

#[test]
fn database_errors_describe_themselves() {
    assert_eq!(DatabaseError::DatabaseConnectionError.to_string(), "DatabaseConnection Error");
    assert_eq!(DatabaseError::RocksDBError("x".to_string()).to_string(), "RocksDB Error: x");
    assert_eq!(DatabaseError::InvalidKeyError("k".to_string()).to_string(), "Invalid Key: k");
    assert_eq!(DatabaseError::NotFoundError("n".to_string()).to_string(), "NotFound Error n");
    assert_eq!(
        DatabaseError::ShadowError(forest::shadow::ShadowError::TenantIdMismatch).to_string(),
        "Shadow Error: TenantId mismatch"
    );
    assert_eq!(
        DatabaseError::TimeseriesSerializationError(forest::metric::TimeseriesSerializationError::InvalidData)
            .to_string(),
        "TimeseriesSerialization Error: Invalid data"
    );
    assert_eq!(
        DatabaseError::ShadowSerializationError(forest::shadow::ShadowSerializationError::JsonError(
            "bad".to_string()
        ))
        .to_string(),
        "ShadowSerialization Error: JSON serialization error: bad"
    );
}

#[test]
fn series_of_many_buckets_is_split_by_hour() {
    let mut ts = TimeSeries::<MetricValue>::new();
    for i in 0..10u64 {
        ts.add_point(1710511200 + i * 1800, MetricValue::Int(i as i64));
    }
    let writes = DB::_put_timeseries(b"k", &ts).unwrap();
    assert_eq!(writes.len(), 5);
    for (i, (key, bucket)) in writes.iter().enumerate() {
        assert_eq!(bucket.len(), 2);
        assert_eq!(*key, DB::_to_ts_key(b"k", 1710511200 + i as u64 * 3600));
        assert_eq!(bucket.timestamps[0], 1710511200 + i as u64 * 3600);
    }
    assert!(DB::_put_timeseries(b"k", &TimeSeries::new()).unwrap().is_empty());
}

#[test]
fn error_for_a_timestamp_without_a_key() {
    match forest::series_store::no_key_error() {
        DatabaseError::InvalidKeyError(message) => assert_eq!(message, "timestamp out of range"),
        _ => panic!("wrong error"),
    }
    assert_eq!(
        forest::series_store::no_key_error().to_string(),
        "Invalid Key: timestamp out of range"
    );
}

#[test]
fn writes_without_common_timestamps_commute() {
    let a = float_series(&[(1710511200, 1.0), (1710511260, 2.0), (1710514800, 3.0), (1710522000, 4.0)]);
    let b = float_series(&[(1710511230, 5.0), (1710514860, 6.0), (1710518400, 7.0)]);
    let mut first = Buckets::new();
    put_timeseries(&mut first, b"k", &a).unwrap();
    put_timeseries(&mut first, b"k", &b).unwrap();
    let mut second = Buckets::new();
    put_timeseries(&mut second, b"k", &b).unwrap();
    put_timeseries(&mut second, b"k", &a).unwrap();
    assert_eq!(first, second);
    assert_eq!(first.len(), 4);
    let read = get_timeseries(&first, b"k", 0, 1710600000).unwrap();
    assert_eq!(
        read.timestamps,
        vec![1710511200, 1710511230, 1710511260, 1710514800, 1710514860, 1710518400, 1710522000]
    );
    // with a common timestamp the later write wins
    let c = float_series(&[(1710511200, 9.0)]);
    put_timeseries(&mut first, b"k", &c).unwrap();
    assert_eq!(
        *get_timeseries(&first, b"k", 0, 1710600000).unwrap().get_value_for_timestamp(1710511200).unwrap(),
        float(9.0)
    );
}
