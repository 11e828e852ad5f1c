use forest::json::{Json, JsonNumber};
use forest::merge::{delta_json, diff_json, is_stamped, merge_json};
use forest::models::{ShadowName, TenantId};
use forest::shadow::{
    NestedStateDocument, Shadow, ShadowError, ShadowSerializationError, StateDocument,
    StateUpdateDocument,
};

fn number(n: u64) -> Json {
    Json::Number(JsonNumber::PosInt(n))
}

fn float(x: f64) -> Json {
    Json::Number(JsonNumber::Float(x.to_bits()))
}

fn text(s: &str) -> Json {
    Json::String(s.to_string())
}

fn object(entries: Vec<(&str, Json)>) -> Json {
    Json::Object(entries.into_iter().map(|(k, v)| (k.to_string(), v)).collect())
}

fn update_with(reported: Json, desired: Json) -> StateUpdateDocument {
    StateUpdateDocument {
        device_id: "thermostat-01".to_string(),
        shadow_name: ShadowName::Default,
        tenant_id: TenantId::Default,
        state: StateDocument { reported, desired, delta: Json::Null },
    }
}

fn fresh() -> Shadow {
    Shadow::new("thermostat-01", &ShadowName::Default, &TenantId::Default)
}

#[test]
fn shadow_create_and_update() {
    let mut shadow = fresh();
    assert_eq!(shadow.get_version(), 0);
    let u1 = update_with(
        object(vec![("temperature", float(22.5)), ("humidity", number(45))]),
        Json::Null,
    );
    shadow.update_at(&u1, 100).unwrap();
    assert_eq!(shadow.get_version(), 1);
    assert!(shadow.get_delta_value().is_null());

    let u2 = update_with(Json::Null, object(vec![("temperature", float(21.0))]));
    shadow.update_at(&u2, 200).unwrap();
    assert_eq!(shadow.get_version(), 2);
    assert!(shadow.get_delta_value().equals(&object(vec![("temperature", float(21.0))])));

    let u3 = update_with(object(vec![("temperature", float(21.0))]), Json::Null);
    shadow.update_at(&u3, 300).unwrap();
    assert_eq!(shadow.get_version(), 3);
    assert!(shadow.get_delta_value().is_null());

    let u4 = update_with(object(vec![("humidity", Json::Null)]), Json::Null);
    shadow.update_at(&u4, 400).unwrap();
    assert!(shadow.get_reported_value().equals(&object(vec![("temperature", float(21.0))])));
    assert!(shadow.get_reported_metadata().equals(&object(vec![("temperature", number(300))])));
    assert!(shadow.get_reported_metadata().get_member("humidity").is_none());
    assert!(shadow.is_well_formed());
}

#[test]
fn version_grows_with_every_update() {
    let mut shadow = fresh();
    let nothing = update_with(Json::Null, Json::Null);
    for expected in 1..=4u64 {
        shadow.update_at(&nothing, 7).unwrap();
        assert_eq!(shadow.get_version(), expected);
    }
    // an update that changes no value still counts
    assert!(shadow.get_reported_value().is_null());
    assert!(shadow.get_reported_metadata().is_null());
    let same = update_with(object(vec![("a", number(1))]), Json::Null);
    shadow.update_at(&same, 8).unwrap();
    shadow.update_at(&same, 9).unwrap();
    assert_eq!(shadow.get_version(), 6);
    assert!(shadow.get_reported_metadata().equals(&object(vec![("a", number(9))])));
}

#[test]
fn update_with_the_clock() {
    let mut shadow = fresh();
    let u = update_with(object(vec![("a", number(1))]), Json::Null);
    shadow.update(&u).unwrap();
    assert_eq!(shadow.get_version(), 1);
    match shadow.get_reported_metadata().get_member("a") {
        Some(Json::Number(JsonNumber::PosInt(ts))) => assert!(*ts > 1_600_000_000),
        other => panic!("no timestamp: {:?}", other),
    }
}

#[test]
fn update_addressed_to_another_shadow_changes_nothing() {
    let mut shadow = fresh();
    let mut u = update_with(object(vec![("a", number(1))]), Json::Null);
    u.device_id = "other".to_string();
    assert_eq!(shadow.update_at(&u, 1), Err(ShadowError::DeviceIdMismatch));
    let mut u = update_with(object(vec![("a", number(1))]), Json::Null);
    u.shadow_name = ShadowName::new("night");
    assert_eq!(shadow.update_at(&u, 1), Err(ShadowError::ShadowNameMismatch));
    let mut u = update_with(object(vec![("a", number(1))]), Json::Null);
    u.tenant_id = TenantId::new("acme");
    assert_eq!(shadow.update_at(&u, 1), Err(ShadowError::TenantIdMismatch));
    // the first mismatch is the one reported
    u.device_id = "other".to_string();
    assert_eq!(shadow.update(&u), Err(ShadowError::DeviceIdMismatch));
    assert_eq!(shadow.get_version(), 0);
    assert!(shadow.get_reported_value().is_null());
    assert_eq!(ShadowError::DeviceIdMismatch.to_string(), "DeviceId mismatch");
    assert_eq!(ShadowError::ShadowNameMismatch.to_string(), "ShadowName mismatch");
    assert_eq!(ShadowError::TenantIdMismatch.to_string(), "TenantId mismatch");
}

#[test]
fn null_deletes_at_any_depth() {
    let mut shadow = fresh();
    let u = update_with(
        object(vec![(
            "room",
            object(vec![("lamp", object(vec![("on", Json::Bool(true)), ("level", number(3))]))]),
        )]),
        Json::Null,
    );
    shadow.update_at(&u, 10).unwrap();
    let u = update_with(
        object(vec![("room", object(vec![("lamp", object(vec![("level", Json::Null)]))]))]),
        Json::Null,
    );
    shadow.update_at(&u, 20).unwrap();
    let expected = object(vec![("room", object(vec![("lamp", object(vec![("on", Json::Bool(true))]))]))]);
    assert!(shadow.get_reported_value().equals(&expected));
    let stamps = object(vec![("room", object(vec![("lamp", object(vec![("on", number(10))]))]))]);
    assert!(shadow.get_reported_metadata().equals(&stamps));
    assert!(shadow.get_reported_value().pointer("/room/lamp/level").is_none());
    assert!(shadow.get_reported_metadata().pointer("/room/lamp/level").is_none());
    // deleting what is not there creates the objects on the way
    let u = update_with(object(vec![("attic", object(vec![("fan", Json::Null)]))]), Json::Null);
    shadow.update_at(&u, 30).unwrap();
    assert!(shadow.get_reported_value().pointer("/attic").unwrap().equals(&object(vec![])));
    assert!(shadow.get_reported_metadata().pointer("/attic").unwrap().equals(&object(vec![])));
    assert!(shadow.is_well_formed());
}

#[test]
fn leaves_are_replaced_and_stamped() {
    let (state, meta) = merge_json(
        object(vec![("a", number(1)), ("b", Json::Array(vec![number(1)]))]),
        &object(vec![("a", text("x")), ("b", Json::Array(vec![])), ("c", Json::Bool(false))]),
        object(vec![("a", number(5)), ("b", number(5))]),
        9,
    );
    assert!(state.equals(&object(vec![
        ("a", text("x")),
        ("b", Json::Array(vec![])),
        ("c", Json::Bool(false))
    ])));
    assert!(meta.equals(&object(vec![("a", number(9)), ("b", number(9)), ("c", number(9))])));
    assert!(is_stamped(&state, &meta));
    // an object does not replace a stored primitive
    let (state, meta) = merge_json(
        object(vec![("a", number(1))]),
        &object(vec![("a", object(vec![("deep", number(2))]))]),
        object(vec![("a", number(5))]),
        9,
    );
    assert!(state.equals(&object(vec![("a", number(1))])));
    assert!(meta.equals(&object(vec![("a", number(5))])));
    // an object replaces nothing but is merged into a stored object
    let (state, meta) = merge_json(
        object(vec![("a", object(vec![("x", number(1))]))]),
        &object(vec![("a", object(vec![("y", number(2))]))]),
        object(vec![("a", object(vec![("x", number(5))]))]),
        9,
    );
    assert!(state.equals(&object(vec![("a", object(vec![("x", number(1)), ("y", number(2))]))])));
    assert!(meta.equals(&object(vec![("a", object(vec![("x", number(5)), ("y", number(9))]))])));
}

#[test]
fn delta_is_what_desired_asks_beyond_reported() {
    let reported = object(vec![
        ("a", number(1)),
        ("b", object(vec![("x", number(1)), ("y", number(2))])),
        ("c", Json::Array(vec![number(1)])),
        ("only_reported", number(0)),
    ]);
    let desired = object(vec![
        ("a", number(1)),
        ("b", object(vec![("x", number(1)), ("y", number(3)), ("z", number(4))])),
        ("c", Json::Array(vec![number(2)])),
        ("d", text("new")),
    ]);
    let delta = diff_json(&reported, &desired).unwrap();
    assert!(delta.equals(&object(vec![
        ("b", object(vec![("y", number(3)), ("z", number(4))])),
        ("c", Json::Array(vec![number(2)])),
        ("d", text("new")),
    ])));
    assert!(diff_json(&reported, &reported).is_none());
    // a desired object that asks for less than is reported asks for nothing
    assert!(diff_json(&reported, &object(vec![("a", number(1))])).is_none());
    // numbers of different kinds are different
    assert!(diff_json(&number(1), &float(1.0)).unwrap().equals(&float(1.0)));
    assert!(diff_json(&float(0.0), &float(-0.0)).is_none());
    assert!(diff_json(&Json::Null, &Json::Null).is_none());
    assert!(diff_json(&object(vec![]), &Json::Null).unwrap().is_null());
}

#[test]
fn delta_to_publish() {
    let mut shadow = fresh();
    assert!(shadow.get_delta_json().is_none());
    shadow.update_at(&update_with(Json::Null, object(vec![("x", number(1))])), 1).unwrap();
    assert!(shadow.get_delta_json().unwrap().equals(&object(vec![("x", number(1))])));
    shadow.update_at(&update_with(object(vec![("x", number(1))]), Json::Null), 2).unwrap();
    assert!(shadow.get_delta_json().is_none());
    // a desired state that is empty while nothing is reported asks for nothing
    let mut shadow = fresh();
    shadow.update_at(&update_with(Json::Null, object(vec![("x", Json::Null)])), 1).unwrap();
    assert!(shadow.get_desired_value().equals(&object(vec![])));
    assert!(shadow.get_delta_value().is_null());
    assert!(shadow.get_delta_json().is_none());
}

#[test]
fn delta_is_never_an_empty_object() {
    let mut shadow = Shadow::new("d1", &ShadowName::Default, &TenantId::Default);
    let mut first = StateUpdateDocument::new("d1", &ShadowName::Default, &TenantId::Default);
    first.set_desired_value(object(vec![("x", number(1))]));
    shadow.update_at(&first, 1).unwrap();
    assert!(shadow.get_delta_value().equals(&object(vec![("x", number(1))])));
    let mut second = StateUpdateDocument::new("d1", &ShadowName::Default, &TenantId::Default);
    second.set_desired_value(object(vec![("x", Json::Null)]));
    assert_eq!(shadow.update(&second), Ok(()));
    assert_eq!(shadow.get_version(), 2);
    assert!(shadow.get_delta_value().is_null());
    assert!(shadow.get_delta_json().is_none());

    // the difference itself may be an empty object; the delta is null then
    assert!(diff_json(&Json::Null, &object(vec![])).unwrap().equals(&object(vec![])));
    assert!(delta_json(&Json::Null, &object(vec![])).is_null());
    assert!(diff_json(&number(1), &object(vec![])).unwrap().equals(&object(vec![])));
    assert!(delta_json(&number(1), &object(vec![])).is_null());
    assert!(diff_json(&object(vec![]), &object(vec![])).is_none());
    assert!(delta_json(&object(vec![]), &object(vec![])).is_null());
    // an empty object under a key is asked for as it is, reported or not
    let asked = diff_json(&object(vec![("a", number(1))]), &object(vec![("a", object(vec![]))])).unwrap();
    assert!(asked.equals(&object(vec![("a", object(vec![]))])));
    let asked = diff_json(&object(vec![]), &object(vec![("a", object(vec![]))])).unwrap();
    assert!(asked.equals(&object(vec![("a", object(vec![]))])));
    assert!(delta_json(&object(vec![]), &object(vec![("a", object(vec![]))])).equals(&asked));
    // two objects of which the desired one asks for nothing more do not differ
    assert!(diff_json(&object(vec![("a", object(vec![("x", number(1))]))]), &object(vec![("a", object(vec![]))]))
        .is_none());
    assert!(forest::merge::has_no_member(&object(vec![])));
    assert!(!forest::merge::has_no_member(&Json::Null));
    assert!(!forest::merge::has_no_member(&asked));
}

#[test]
fn desired_empty_object_against_a_reported_value() {
    let mut shadow = Shadow::new("d1", &ShadowName::Default, &TenantId::Default);
    let mut update = StateUpdateDocument::new("d1", &ShadowName::Default, &TenantId::Default);
    update.set_reported_value(object(vec![("k", number(1))]));
    update.set_desired_value(object(vec![("k", object(vec![]))]));
    shadow.update_at(&update, 1).unwrap();
    assert!(shadow.get_reported_value().equals(&object(vec![("k", number(1))])));
    assert!(shadow.get_desired_value().equals(&object(vec![("k", object(vec![]))])));
    assert!(shadow.get_delta_value().equals(&object(vec![("k", object(vec![]))])));
    assert!(shadow.get_delta_json().unwrap().equals(&object(vec![("k", object(vec![]))])));
}

#[test]
fn metadata_holds_whole_seconds() {
    let state = object(vec![("a", number(1)), ("b", object(vec![("c", text("x"))]))]);
    let good = object(vec![("a", number(7)), ("b", object(vec![("c", number(8))]))]);
    assert!(is_stamped(&state, &good));
    let fraction = object(vec![("a", float(7.5)), ("b", object(vec![("c", number(8))]))]);
    assert!(!is_stamped(&state, &fraction));
    let negative =
        object(vec![("a", Json::Number(JsonNumber::NegInt(-7))), ("b", object(vec![("c", number(8))]))]);
    assert!(!is_stamped(&state, &negative));
    let other_keys = object(vec![("a", number(7)), ("b", object(vec![("d", number(8))]))]);
    assert!(!is_stamped(&state, &other_keys));
    assert!(is_stamped(&Json::Null, &Json::Null));
    assert!(is_stamped(&Json::Null, &object(vec![])));
    assert!(!is_stamped(&Json::Null, &number(1)));
}

#[test]
fn shadow_document_round_trip() {
    let mut shadow = Shadow::new("dev", &ShadowName::new("night"), &TenantId::new("Default"));
    shadow.update_at(
        &StateUpdateDocument {
            device_id: "dev".to_string(),
            shadow_name: ShadowName::new("night"),
            tenant_id: TenantId::Default,
            state: StateDocument {
                reported: object(vec![("a", number(1))]),
                desired: object(vec![("a", number(2))]),
                delta: Json::Null,
            },
        },
        77,
    )
    .unwrap();
    let doc = shadow.to_value();
    let expected = object(vec![
        ("device_id", text("dev")),
        ("shadow_name", text("night")),
        ("tenant_id", text("default")),
        (
            "state",
            object(vec![
                ("reported", object(vec![("a", number(1))])),
                ("desired", object(vec![("a", number(2))])),
                ("delta", object(vec![("a", number(2))])),
            ]),
        ),
        (
            "metadata",
            object(vec![
                ("reported", object(vec![("a", number(77))])),
                ("desired", object(vec![("a", number(77))])),
            ]),
        ),
        ("version", number(1)),
    ]);
    assert!(doc.equals(&expected));
    let back = Shadow::from_value(&doc).unwrap();
    assert!(back.to_value().equals(&doc));
    assert_eq!(back.device_id, "dev");
    assert_eq!(back.shadow_name, ShadowName::Custom("night".to_string()));
    assert_eq!(back.tenant_id, TenantId::Default);
    assert_eq!(back.get_version(), 1);
    assert!(back.is_well_formed());
    // null parts of the state are left out and read back as null
    let empty = fresh().to_value();
    assert!(empty.get_member("state").unwrap().equals(&object(vec![])));
    assert!(Shadow::from_value(&empty).unwrap().get_desired_value().is_null());
}

#[test]
fn documents_that_are_no_shadow() {
    let good = fresh().to_value();
    let without = |name: &str| -> Json {
        match &good {
            Json::Object(entries) => Json::Object(
                entries.iter().filter(|(k, _)| k != name).map(|(k, v)| (k.clone(), v.clone())).collect(),
            ),
            _ => Json::Null,
        }
    };
    for name in ["device_id", "shadow_name", "tenant_id", "state", "metadata", "version"] {
        assert!(Shadow::from_value(&without(name)).is_err(), "{}", name);
    }
    assert!(Shadow::from_value(&Json::Null).is_err());
    assert!(Shadow::from_value(&Json::Array(vec![])).is_err());
    match Shadow::from_value(&Json::Null) {
        Err(ShadowSerializationError::JsonError(m)) => {
            assert_eq!(
                ShadowSerializationError::JsonError(m.clone()).to_string(),
                format!("JSON serialization error: {}", m)
            )
        }
        Ok(_) => panic!("null is no shadow"),
    }
}

#[test]
fn state_as_it_arrives_on_the_wire() {
    let payload = object(vec![(
        "state",
        object(vec![("desired", object(vec![("x", number(1))])), ("delta", number(9)), ("more", number(1))]),
    )]);
    let nested = NestedStateDocument::from_value(&payload).unwrap();
    assert!(nested.state.reported.is_null());
    assert!(nested.state.desired.equals(&object(vec![("x", number(1))])));
    let update = StateUpdateDocument::from_nested_state(nested, "D", &ShadowName::Default, &TenantId::new("T"));
    assert_eq!(update.device_id, "D");
    assert!(update.get_desired_value().equals(&object(vec![("x", number(1))])));
    assert!(update.get_reported_value().is_null());
    // a delta in the input is not taken over
    let mut shadow = Shadow::new("D", &ShadowName::Default, &TenantId::new("T"));
    shadow.update_at(&update, 1).unwrap();
    assert!(shadow.get_delta_value().equals(&object(vec![("x", number(1))])));
    assert!(NestedStateDocument::from_value(&object(vec![("state", number(1))])).is_none());
    assert!(NestedStateDocument::from_value(&object(vec![])).is_none());
    let mut update = StateUpdateDocument::new("D", &ShadowName::Default, &TenantId::Default);
    assert!(update.get_reported_value().is_null());
    update.set_reported_value(number(1));
    update.set_desired_value(number(2));
    assert!(update.get_reported_value().equals(&number(1)));
    assert!(update.get_desired_value().equals(&number(2)));
    // parts that are not objects are not merged
    let mut shadow = Shadow::new("D", &ShadowName::Default, &TenantId::Default);
    shadow.update_at(&update, 5).unwrap();
    assert!(shadow.get_reported_value().is_null());
    assert!(shadow.get_desired_value().is_null());
    assert!(shadow.get_reported_metadata().equals(&object(vec![])));
    assert!(shadow.get_desired_metadata().equals(&object(vec![])));
    assert_eq!(shadow.get_version(), 1);
}

#[test]
fn json_values_compare_as_values() {
    let a = object(vec![("x", number(1)), ("y", Json::Array(vec![Json::Null, Json::Bool(true)]))]);
    let b = object(vec![("y", Json::Array(vec![Json::Null, Json::Bool(true)])), ("x", number(1))]);
    assert!(a.equals(&b));
    assert!(a.clone().equals(&a));
    assert!(!a.equals(&object(vec![("x", number(1))])));
    assert!(!number(1).equals(&Json::Number(JsonNumber::NegInt(-1))));
    assert!(!number(1).equals(&float(1.0)));
    assert!(float(0.0).equals(&float(-0.0)));
    assert!(a.is_well_formed());
    assert!(!Json::Object(vec![("k".to_string(), Json::Null), ("k".to_string(), Json::Null)]).is_well_formed());
    assert!(!Json::Number(JsonNumber::Float(f64::NAN.to_bits())).is_well_formed());
    assert!(!Json::Number(JsonNumber::Float(f64::INFINITY.to_bits())).is_well_formed());
    assert!(!Json::Number(JsonNumber::NegInt(3)).is_well_formed());
    assert!(!Json::Array(vec![Json::Number(JsonNumber::NegInt(0))]).is_well_formed());
    assert_eq!(a.get_text("x"), None);
    assert_eq!(a.get_count("x"), Some(1));
    assert_eq!(object(vec![("s", text("v"))]).get_text("s"), Some("v".to_string()));
}
