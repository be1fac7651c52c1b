use mattermost_telemetry::models::TelemetryEvent;
use serde_json::Value;

fn event(instance_id: &str, version: &str, arch: &str, startup: u64) -> TelemetryEvent {
    TelemetryEvent {
        instance_id: instance_id.to_string(),
        image_version: version.to_string(),
        architecture: arch.to_string(),
        os: "Linux".to_string(),
        container_runtime: "docker".to_string(),
        startup_time_ms: startup,
        db_type: "postgres".to_string(),
        telemetry_version: "1.0".to_string(),
        timestamp: None,
    }
}

fn to_json(e: &TelemetryEvent) -> Value {
    let mut m = serde_json::Map::new();
    m.insert("instance_id".to_string(), Value::from(e.instance_id.clone()));
    m.insert("image_version".to_string(), Value::from(e.image_version.clone()));
    m.insert("architecture".to_string(), Value::from(e.architecture.clone()));
    m.insert("os".to_string(), Value::from(e.os.clone()));
    m.insert("container_runtime".to_string(), Value::from(e.container_runtime.clone()));
    m.insert("startup_time_ms".to_string(), Value::from(e.startup_time_ms));
    m.insert("db_type".to_string(), Value::from(e.db_type.clone()));
    m.insert("telemetry_version".to_string(), Value::from(e.telemetry_version.clone()));
    Value::Object(m)
}

fn from_json(v: &Value) -> TelemetryEvent {
    let s = |k: &str| v[k].as_str().unwrap().to_string();
    TelemetryEvent {
        instance_id: s("instance_id"),
        image_version: s("image_version"),
        architecture: s("architecture"),
        os: s("os"),
        container_runtime: s("container_runtime"),
        startup_time_ms: v["startup_time_ms"].as_u64().unwrap(),
        db_type: s("db_type"),
        telemetry_version: s("telemetry_version"),
        timestamp: None,
    }
}

#[test]
fn test_telemetry_model_serialization() {
    let event = TelemetryEvent {
        instance_id: "test-uuid".to_string(),
        image_version: "v11.3.0".to_string(),
        architecture: "aarch64".to_string(),
        os: "Linux".to_string(),
        container_runtime: "docker".to_string(),
        startup_time_ms: 2500,
        db_type: "postgres".to_string(),
        telemetry_version: "1.0".to_string(),
        timestamp: None,
    };

    let serialized = serde_json::to_string(&to_json(&event)).unwrap();
    assert!(serialized.contains("test-uuid"));
    assert!(serialized.contains("v11.3.0"));
    assert!(serialized.contains("aarch64"));

    let parsed: Value = serde_json::from_str(&serialized).unwrap();
    let deserialized = from_json(&parsed);
    assert_eq!(deserialized.instance_id, "test-uuid");
    assert_eq!(deserialized.image_version, "v11.3.0");
    assert_eq!(deserialized.architecture, "aarch64");
    assert_eq!(deserialized.startup_time_ms, 2500);
}

#[test]
fn test_telemetry_event_json_format() {
    let event = event("abc123", "v11.0.0", "x86_64", 1500);
    let json = to_json(&event);

    assert_eq!(json["instance_id"], "abc123");
    assert_eq!(json["image_version"], "v11.0.0");
    assert_eq!(json["architecture"], "x86_64");
    assert_eq!(json["startup_time_ms"], 1500);
}

#[test]
fn round_trip_keeps_every_stored_field() {
    let sent = event("id-7", "v2.1.0", "riscv64", 42);
    let text = serde_json::to_string(&to_json(&sent)).unwrap();
    let back = from_json(&serde_json::from_str(&text).unwrap());
    assert_eq!(back.instance_id, sent.instance_id);
    assert_eq!(back.image_version, sent.image_version);
    assert_eq!(back.architecture, sent.architecture);
    assert_eq!(back.os, sent.os);
    assert_eq!(back.container_runtime, sent.container_runtime);
    assert_eq!(back.startup_time_ms, sent.startup_time_ms);
    assert_eq!(back.db_type, sent.db_type);
    assert_eq!(back.telemetry_version, sent.telemetry_version);
}

#[test]
fn default_event_has_fresh_id_and_version() {
    let a = TelemetryEvent::default();
    let b = TelemetryEvent::default();
    assert_eq!(a.instance_id.len(), 36);
    assert_eq!(a.instance_id.matches('-').count(), 4);
    for (i, c) in a.instance_id.chars().enumerate() {
        if [8, 13, 18, 23].contains(&i) {
            assert_eq!(c, '-');
        } else {
            assert!(c.is_ascii_digit() || ('a'..='f').contains(&c));
        }
    }
    assert_ne!(a.instance_id, b.instance_id);
    assert_eq!(a.telemetry_version, "1.0");
    assert_eq!(a.startup_time_ms, 0);
    assert!(a.image_version.is_empty());
    assert!(a.timestamp.unwrap() > 1_600_000_000);
}
