use forest::api::{AppError, LastValuesQuery};
use forest::certs::{certificate_request, gencert_command, response_from};
use forest::dataconfig::{DataConfig, DataType, MetricConfig};
use forest::db::DatabaseError;
use forest::json::{Json, JsonNumber};
use forest::metric::{LatLong, MetricValue};
use forest::models::{DefaultString, DeviceMetadata, ShadowName, TenantId};
use forest::processor::{
    delta_publication, delta_topic, extract_metrics, parse_update_topic, split_update_topic,
    failure_severity, subscribe_pattern, to_metric_value, update_from_payload, ConnectionEvent,
    ConnectionSet, ProcessorConfig, Severity,
};
use forest::shadow::{Shadow, ShadowError};

fn number(n: u64) -> Json {
    Json::Number(JsonNumber::PosInt(n))
}

fn double(x: f64) -> Json {
    Json::Number(JsonNumber::Float(x.to_bits()))
}

fn text(s: &str) -> Json {
    Json::String(s.to_string())
}

fn object(entries: Vec<(&str, Json)>) -> Json {
    Json::Object(entries.into_iter().map(|(k, v)| (k.to_string(), v)).collect())
}

fn metric(pointer: &str, name: &str, data_type: DataType) -> MetricConfig {
    MetricConfig { json_pointer: pointer.to_string(), name: name.to_string(), data_type }
}

#[test]
fn topics() {
    assert_eq!(ProcessorConfig::default().shadow_topic_prefix, "things");
    assert_eq!(subscribe_pattern("things"), "things/+/+/shadow/update");
    assert_eq!(delta_topic("things", &TenantId::new("T"), "D"), "things/T/D/shadow/update/delta");
    assert_eq!(delta_topic("a/b", &TenantId::Default, "D"), "a/b/default/D/shadow/update/delta");
    assert_eq!(
        split_update_topic("things/T/D/shadow/update", "things"),
        Some(("T".to_string(), "D".to_string()))
    );
    assert_eq!(
        split_update_topic("a/b/T/D/shadow/update", "a/b"),
        Some(("T".to_string(), "D".to_string()))
    );
    assert_eq!(
        split_update_topic("things/ü/gerät/shadow/update", "things"),
        Some(("ü".to_string(), "gerät".to_string()))
    );
    assert_eq!(split_update_topic("things//D/shadow/update", "things"), Some(("".to_string(), "D".to_string())));
    for bad in [
        "things/T/D/shadow/update/delta",
        "things/T/D/shadow/updat",
        "things/T/D/E/shadow/update",
        "things/T/shadow/update",
        "thing/T/D/shadow/update",
        "thingsX/T/D/shadow/update",
        "things/T/D",
        "things",
        "",
        "/T/D/shadow/update",
    ] {
        assert_eq!(split_update_topic(bad, "things"), None, "{}", bad);
    }
    let topic = parse_update_topic("things/DEFAULT/D/shadow/update", "things").unwrap();
    assert_eq!(topic.tenant_id, TenantId::Default);
    assert_eq!(topic.device_id, "D");
    assert_eq!(topic.shadow_name, ShadowName::Default);
    assert!(parse_update_topic("nothing", "things").is_none());
}

#[test]
fn delta_publish_round_trip() {
    let topic = parse_update_topic("things/T/D/shadow/update", "things").unwrap();
    let payload = object(vec![("state", object(vec![("desired", object(vec![("x", number(1))]))]))]);
    let update = update_from_payload(&payload, &topic).unwrap();
    let mut shadow = Shadow::new("D", &ShadowName::Default, &TenantId::new("T"));
    shadow.update_at(&update, 1).unwrap();
    let (publish_topic, body) = delta_publication(&shadow, "things").unwrap();
    assert_eq!(publish_topic, "things/T/D/shadow/update/delta");
    assert!(body.equals(&object(vec![("x", number(1))])));
    // once the device reports the value there is nothing to publish
    let payload = object(vec![("state", object(vec![("reported", object(vec![("x", number(1))]))]))]);
    shadow.update_at(&update_from_payload(&payload, &topic).unwrap(), 2).unwrap();
    assert!(delta_publication(&shadow, "things").is_none());
    assert!(update_from_payload(&text("no state"), &topic).is_none());
    assert!(update_from_payload(&object(vec![("state", Json::Null)]), &topic).is_none());
}

#[test]
fn pointers() {
    let doc = object(vec![
        ("a", object(vec![("b", Json::Array(vec![number(10), number(11)]))])),
        ("", number(1)),
        ("x/y", number(2)),
        ("m~n", number(3)),
        ("~1", number(4)),
        ("01", number(5)),
    ]);
    assert!(doc.pointer("").unwrap().equals(&doc));
    assert!(doc.pointer("/a/b/0").unwrap().equals(&number(10)));
    assert!(doc.pointer("/a/b/1").unwrap().equals(&number(11)));
    assert!(doc.pointer("/a/b/2").is_none());
    assert!(doc.pointer("/a/b/01").is_none());
    assert!(doc.pointer("/a/b/+1").is_none());
    assert!(doc.pointer("/a/b/-1").is_none());
    assert!(doc.pointer("/a/b/").is_none());
    assert!(doc.pointer("/a/b/99999999999999999999999").is_none());
    assert!(doc.pointer("/").unwrap().equals(&number(1)));
    assert!(doc.pointer("/x~1y").unwrap().equals(&number(2)));
    assert!(doc.pointer("/m~0n").unwrap().equals(&number(3)));
    assert!(doc.pointer("/~01").unwrap().equals(&number(4)));
    assert!(doc.pointer("/01").unwrap().equals(&number(5)));
    assert!(doc.pointer("a").is_none());
    assert!(doc.pointer("/a/c").is_none());
    assert!(doc.pointer("/a/b/0/x").is_none());
    assert!(object(vec![("~", number(1))]).pointer("/~").unwrap().equals(&number(1)));
    assert!(object(vec![("~2", number(1))]).pointer("/~2").unwrap().equals(&number(1)));
    assert!(object(vec![("~~", number(1))]).pointer("/~~").unwrap().equals(&number(1)));
    assert!(object(vec![("~/", number(1))]).pointer("/~~1").unwrap().equals(&number(1)));
}

#[test]
fn metric_values_from_documents() {
    assert_eq!(to_metric_value(&double(22.5), DataType::Float), Some(MetricValue::Float(22.5f64.to_bits())));
    assert_eq!(to_metric_value(&number(45), DataType::Float), Some(MetricValue::Float(45.0f64.to_bits())));
    assert_eq!(
        to_metric_value(&Json::Number(JsonNumber::NegInt(-3)), DataType::Float),
        Some(MetricValue::Float((-3.0f64).to_bits()))
    );
    assert_eq!(to_metric_value(&number(45), DataType::Int), Some(MetricValue::Int(45)));
    assert_eq!(to_metric_value(&Json::Number(JsonNumber::NegInt(-3)), DataType::Int), Some(MetricValue::Int(-3)));
    assert_eq!(to_metric_value(&number(u64::MAX), DataType::Int), None);
    assert_eq!(to_metric_value(&number(i64::MAX as u64), DataType::Int), Some(MetricValue::Int(i64::MAX)));
    assert_eq!(to_metric_value(&double(1.0), DataType::Int), None);
    assert_eq!(to_metric_value(&text("1"), DataType::Float), None);
    assert_eq!(to_metric_value(&text("1"), DataType::String), None);
    assert_eq!(
        to_metric_value(&object(vec![("lat", double(51.5)), ("lon", number(0))]), DataType::Location),
        Some(MetricValue::Location(LatLong::new(51.5f64.to_bits(), 0.0f64.to_bits())))
    );
    assert_eq!(to_metric_value(&object(vec![("lat", double(51.5))]), DataType::Location), None);
    assert_eq!(to_metric_value(&number(1), DataType::Location), None);
}

#[test]
fn metrics_are_extracted_in_the_order_of_the_configuration() {
    let config = DataConfig {
        metrics: vec![
            metric("/temperature", "temperature", DataType::Float),
            metric("/missing", "missing", DataType::Float),
            metric("/count", "count", DataType::Int),
            metric("/temperature", "as_int", DataType::Int),
            metric("/where", "position", DataType::Location),
            metric("/name", "name", DataType::String),
        ],
    };
    let reported = object(vec![
        ("temperature", double(22.5)),
        ("count", number(3)),
        ("where", object(vec![("lat", double(1.0)), ("lon", double(2.0))])),
        ("name", text("x")),
    ]);
    let found = extract_metrics(&config, &reported);
    assert_eq!(
        found,
        vec![
            ("temperature".to_string(), MetricValue::Float(22.5f64.to_bits())),
            ("count".to_string(), MetricValue::Int(3)),
            ("position".to_string(), MetricValue::Location(LatLong::new(1.0f64.to_bits(), 2.0f64.to_bits()))),
        ]
    );
    assert!(extract_metrics(&config, &Json::Null).is_empty());
    assert!(extract_metrics(&DataConfig::empty(), &reported).is_empty());
}

#[test]
fn connections() {
    let mut set = ConnectionSet::new();
    assert_eq!(set.len(), 0);
    set.apply(ConnectionEvent::Connected("a".to_string()));
    set.apply(ConnectionEvent::Connected("b".to_string()));
    set.apply(ConnectionEvent::Connected("a".to_string()));
    assert_eq!(set.len(), 2);
    assert!(set.contains(&"a".to_string()));
    assert_eq!(set.iter(), vec!["a".to_string(), "b".to_string()]);
    set.apply(ConnectionEvent::Disconnected("a".to_string()));
    set.apply(ConnectionEvent::Disconnected("a".to_string()));
    set.apply(ConnectionEvent::Disconnected("never".to_string()));
    assert_eq!(set.len(), 1);
    assert!(!set.contains(&"a".to_string()));
    assert!(set.insert("c".to_string()));
    assert!(!set.insert("c".to_string()));
    assert!(set.remove(&"c".to_string()));
    assert!(!set.remove(&"c".to_string()));
}

#[test]
fn names() {
    assert_eq!(DefaultString::new("default"), DefaultString::Default);
    assert_eq!(DefaultString::new("DEFAULT"), DefaultString::Default);
    assert_eq!(DefaultString::new("DeFault"), DefaultString::Default);
    assert_eq!(DefaultString::new("defaults"), DefaultString::Custom("defaults".to_string()));
    assert_eq!(DefaultString::new(""), DefaultString::Custom("".to_string()));
    assert_eq!(DefaultString::new("Acme"), DefaultString::Custom("Acme".to_string()));
    assert_eq!(DefaultString::from_str("Default"), DefaultString::Default);
    assert_eq!(DefaultString::from_lowercased("DEFAULT", "default"), DefaultString::Default);
    assert_eq!(
        DefaultString::from_lowercased("Acme", "acme"),
        DefaultString::Custom("Acme".to_string())
    );
    assert_eq!(
        DefaultString::from_lowercased("default", "DEFAULT"),
        DefaultString::Custom("default".to_string())
    );
    assert_eq!(DefaultString::from_option(None), DefaultString::Default);
    assert_eq!(DefaultString::from_option(Some("x")), DefaultString::Custom("x".to_string()));
    assert_eq!(DefaultString::from_option(Some("DEFAULT")), DefaultString::Default);
    assert_eq!(DefaultString::Default.as_str(), "default");
    assert_eq!(DefaultString::Custom("Acme".to_string()).as_str(), "Acme");
    assert_eq!(DefaultString::Custom("Acme".to_string()).to_string(), "Acme");
    assert_eq!(DefaultString::Default.to_string(), "default");
    assert_eq!(DefaultString::new("x").clone(), DefaultString::new("x"));
    assert_ne!(DefaultString::new("x"), DefaultString::new("y"));
    assert_ne!(DefaultString::new("x"), DefaultString::Default);
}

#[test]
fn device_records() {
    let tenant = TenantId::new("acme");
    let device = DeviceMetadata::new("dev", &tenant);
    assert_eq!(device.device_id, "dev");
    assert_eq!(device.tenant_id, tenant);
    assert!(device.certificate.is_none());
    assert!(device.key.is_none());
    assert!(device.created_at > 1_600_000_000);
    let device = DeviceMetadata::new_at("dev", &tenant, 7).with_credentials("C".to_string(), "K".to_string());
    assert_eq!(device.certificate, Some("C".to_string()));
    assert_eq!(device.key, Some("K".to_string()));
    assert_eq!(device.created_at, 7);
    let doc = device.to_value();
    assert!(doc.equals(&object(vec![
        ("device_id", text("dev")),
        ("tenant_id", text("acme")),
        ("certificate", text("C")),
        ("key", text("K")),
        ("created_at", number(7)),
    ])));
    let back = DeviceMetadata::from_value(&doc).unwrap();
    assert_eq!(back.device_id, "dev");
    assert_eq!(back.key, Some("K".to_string()));
    let bare = DeviceMetadata::from_value(&object(vec![
        ("device_id", text("dev")),
        ("tenant_id", text("DEFAULT")),
        ("key", Json::Null),
        ("created_at", number(7)),
    ]))
    .unwrap();
    assert_eq!(bare.tenant_id, TenantId::Default);
    assert!(bare.certificate.is_none() && bare.key.is_none());
    assert!(DeviceMetadata::from_value(&object(vec![("device_id", text("dev"))])).is_none());
    assert!(DeviceMetadata::from_value(&object(vec![
        ("device_id", text("dev")),
        ("tenant_id", text("t")),
        ("key", number(1)),
        ("created_at", number(7)),
    ]))
    .is_none());
}

#[test]
fn errors_map_to_status_codes() {
    assert_eq!(AppError::NotFound("x".to_string()).status_code(), 404);
    assert_eq!(AppError::NotFound("x".to_string()).message(), "Not found: x");
    assert_eq!(AppError::InternalServerError("x".to_string()).status_code(), 500);
    assert_eq!(AppError::InternalServerError("x".to_string()).message(), "Internal server error: x");
    assert_eq!(AppError::DatabaseError(DatabaseError::NotFoundError("x".to_string())).status_code(), 404);
    assert_eq!(AppError::DatabaseError(DatabaseError::ShadowError(ShadowError::DeviceIdMismatch)).status_code(), 400);
    assert_eq!(AppError::DatabaseError(DatabaseError::DatabaseConnectionError).status_code(), 500);
    assert_eq!(AppError::DatabaseError(DatabaseError::RocksDBError("x".to_string())).status_code(), 500);
    assert_eq!(AppError::DatabaseError(DatabaseError::DatabaseConnectionError).message(), "Database error");
    assert_eq!(failure_severity(&DatabaseError::ShadowError(ShadowError::TenantIdMismatch)), Severity::Error);
    assert_eq!(failure_severity(&DatabaseError::DatabaseConnectionError), Severity::Warn);
    assert_eq!(forest::db::BACKUPS_KEPT, 3);
    assert_eq!(LastValuesQuery { limit: None }.effective_limit(), 1);
    assert_eq!(LastValuesQuery { limit: Some(0) }.effective_limit(), 0);
    assert_eq!(LastValuesQuery { limit: Some(25) }.effective_limit(), 25);
}

#[test]
fn certificate_requests() {
    let plain = certificate_request("client-1", None);
    assert!(plain.equals(&object(vec![
        ("CN", text("client-1")),
        ("hosts", Json::Array(vec![text("")])),
        ("key", object(vec![("algo", text("rsa")), ("size", number(2048))])),
    ])));
    let named = certificate_request("client-1", Some("Acme"));
    assert!(named
        .get_member("names")
        .unwrap()
        .equals(&Json::Array(vec![object(vec![("O", text("Acme"))])])));
    assert_eq!(
        gencert_command("{}", "cfssl", "ca.pem", "ca-key.pem", "cfssl.json"),
        "echo '{}' | cfssl gencert -ca ca.pem -ca-key ca-key.pem -config cfssl.json -profile client -"
    );
    let answer = object(vec![("cert", text("C")), ("key", text("K")), ("csr", text("R"))]);
    let response = response_from(&answer).unwrap();
    assert_eq!((response.cert.as_str(), response.key.as_str(), response.csr.as_str()), ("C", "K", "R"));
    assert!(response_from(&object(vec![("cert", text("C"))])).is_none());
}

#[test]
fn config_inheritance() {
    let tenant = DataConfig { metrics: vec![metric("/temperature", "temperature", DataType::Float)] };
    let device_a = DataConfig { metrics: vec![metric("/temperature", "temperature", DataType::Int)] };
    let merged = tenant.merge_with(&device_a);
    assert_eq!(merged.metrics.len(), 1);
    assert_eq!(merged.metrics[0].data_type, DataType::Int);
    let device_a1 = DataConfig { metrics: vec![metric("/temp3", "temp2", DataType::Float)] };
    let merged = tenant.merge_with(&device_a1);
    assert_eq!(merged.metrics.len(), 2);
    assert_eq!((merged.metrics[0].name.as_str(), merged.metrics[0].data_type), ("temperature", DataType::Float));
    assert_eq!((merged.metrics[1].name.as_str(), merged.metrics[1].data_type), ("temp2", DataType::Float));
    // a device metric takes the place of the tenant metric of its name
    let tenant = DataConfig {
        metrics: vec![
            metric("/a", "a", DataType::Float),
            metric("/b", "b", DataType::Float),
            metric("/c", "c", DataType::Float),
        ],
    };
    let device = DataConfig {
        metrics: vec![
            metric("/z", "z", DataType::Int),
            metric("/b2", "b", DataType::Int),
            metric("/z2", "z", DataType::Location),
        ],
    };
    let merged = tenant.merge_with(&device);
    let shape: Vec<(&str, &str, DataType)> =
        merged.metrics.iter().map(|m| (m.name.as_str(), m.json_pointer.as_str(), m.data_type)).collect();
    assert_eq!(
        shape,
        vec![
            ("a", "/a", DataType::Float),
            ("b", "/b2", DataType::Int),
            ("c", "/c", DataType::Float),
            ("z", "/z2", DataType::Location),
        ]
    );
    assert!(tenant.merge_with(&DataConfig::empty()).metrics.len() == 3);
    assert!(DataConfig::empty().merge_with(&tenant).metrics.len() == 3);
}

#[test]
fn config_documents() {
    let config = DataConfig {
        metrics: vec![metric("/a", "a", DataType::Float), metric("/p", "p", DataType::Location)],
    };
    let doc = config.to_value();
    assert!(doc.equals(&object(vec![(
        "metrics",
        Json::Array(vec![
            object(vec![("json_pointer", text("/a")), ("name", text("a")), ("data_type", text("Float"))]),
            object(vec![("json_pointer", text("/p")), ("name", text("p")), ("data_type", text("Location"))]),
        ])
    )])));
    let back = DataConfig::from_value(&doc);
    assert_eq!(back.metrics.len(), 2);
    assert_eq!(back.metrics[1].data_type, DataType::Location);
    assert!(DataConfig::decode(&Json::Null).is_none());
    assert!(DataConfig::from_value(&Json::Null).metrics.is_empty());
    let unknown = object(vec![(
        "metrics",
        Json::Array(vec![object(vec![
            ("json_pointer", text("/a")),
            ("name", text("a")),
            ("data_type", text("Double")),
        ])]),
    )]);
    assert!(DataConfig::decode(&unknown).is_none());
    for (name, data_type) in [("Float", DataType::Float), ("Int", DataType::Int), ("String", DataType::String)] {
        assert_eq!(DataType::from_name(&name.to_string()), Some(data_type));
        assert_eq!(data_type.as_str(), name);
    }
}

fn from_serde(v: &serde_json::Value) -> Json {
    match v {
        serde_json::Value::Null => Json::Null,
        serde_json::Value::Bool(b) => Json::Bool(*b),
        serde_json::Value::Number(n) => Json::Number(if let Some(u) = n.as_u64() {
            JsonNumber::PosInt(u)
        } else if let Some(i) = n.as_i64() {
            JsonNumber::NegInt(i)
        } else {
            JsonNumber::Float(n.as_f64().unwrap().to_bits())
        }),
        serde_json::Value::String(s) => Json::String(s.clone()),
        serde_json::Value::Array(items) => Json::Array(items.iter().map(from_serde).collect()),
        serde_json::Value::Object(entries) => {
            Json::Object(entries.iter().map(|(k, v)| (k.clone(), from_serde(v))).collect())
        }
    }
}

#[test]
fn pointers_resolve_as_serde_json_resolves_them() {
    let text = r#"{
        "a": {"b": [10, 11, {"c": -1.5}], "": {"": 7}},
        "": 1, "x/y": 2, "m~n": 3, "~1": 4, "01": 5, "~": 6, "~0": 8, "~~": 9, "~/": 12,
        "0": [[0, 1], [2, 3]], "+1": "plus", "-0": "minus", " 1": "space", "1e0": "exp",
        "list": [null, true, "s", [], {}], "ü": {"é": [1]}
    }"#;
    let value: serde_json::Value = serde_json::from_str(text).unwrap();
    let doc = from_serde(&value);
    let pointers = [
        "", "/", "//", "/a", "/a/", "/a//", "/a/b", "/a/b/0", "/a/b/1", "/a/b/2", "/a/b/2/c", "/a/b/3",
        "/a/b/00", "/a/b/01", "/a/b/+1", "/a/b/-1", "/a/b/-0", "/a/b/ 1", "/a/b/1 ", "/a/b/1e0", "/a/b/",
        "/a/b/18446744073709551615", "/a/b/18446744073709551616", "/a/b/99999999999999999999999999",
        "/x~1y", "/x/y", "/m~0n", "/m~n", "/~01", "/~1", "/~0", "/~", "/~00", "/~0~0", "/~~", "/~~1",
        "/~01/", "/01", "/1", "/0", "/0/0", "/0/1/1", "/0/2", "/0/0/0", "/+1", "/-0", "/ 1", "/1e0", "a",
        "a/b", "~", "/list/0", "/list/1", "/list/2", "/list/3", "/list/4", "/list/5", "/list/3/0",
        "/list/4/", "/list/2/0", "/ü", "/ü/é", "/ü/é/0", "/ü/é/1", "/a/b/2/c/", "/a/b/2/c/0",
    ];
    for pointer in pointers {
        let expected = value.pointer(pointer).map(from_serde);
        let found = doc.pointer(pointer);
        match (expected, found) {
            (Some(e), Some(f)) => assert!(e.equals(f), "{:?}", pointer),
            (None, None) => {}
            (e, f) => panic!("{:?}: {:?} against {:?}", pointer, e, f),
        }
    }
}
