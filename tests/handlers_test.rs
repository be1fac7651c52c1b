use mattermost_telemetry::db::{Db, DeploymentRow};
use mattermost_telemetry::handlers::{
    collect_telemetry, get_architecture_stats, get_deployments, get_metrics, health_check,
};
use mattermost_telemetry::models::TelemetryEvent;

fn scenario_event() -> TelemetryEvent {
    TelemetryEvent {
        instance_id: "abc123".to_string(),
        image_version: "v11.0.0".to_string(),
        architecture: "x86_64".to_string(),
        os: "Linux".to_string(),
        container_runtime: "docker".to_string(),
        startup_time_ms: 1500,
        db_type: "postgres".to_string(),
        telemetry_version: "1.0".to_string(),
        timestamp: None,
    }
}

#[test]
fn collect_then_metrics() {
    let mut db = Db::new();
    let (status, reply) = collect_telemetry(&mut db, &scenario_event());
    assert_eq!(status, 200);
    assert_eq!(reply.status, "success");
    assert_eq!(reply.message, "Telemetry collected");

    let m = get_metrics(&db);
    assert!(m.total_deployments >= 1);
    assert_eq!(m.unique_instances, 1);
    assert_eq!(m.architecture_breakdown.len(), 1);
    assert_eq!(m.architecture_breakdown[0].architecture, "x86_64");
    assert_eq!(m.architecture_breakdown[0].count, 1);
    assert_eq!(m.version_breakdown[0].version, "v11.0.0");
    assert_eq!(m.startup_time_total_ms, 1500);
    assert_eq!(m.startup_time_samples, 1);

    collect_telemetry(&mut db, &scenario_event());
    let m = get_metrics(&db);
    assert_eq!(m.total_deployments, 2);
    assert_eq!(m.unique_instances, 1);
    assert_eq!(m.architecture_breakdown[0].count, 2);
    let stats = get_architecture_stats(&db);
    assert_eq!(stats.len(), 1);
    assert_eq!(stats[0].count, 2);
}

#[test]
fn health_reports_healthy() {
    let h = health_check();
    assert_eq!(h.status, "healthy");
    assert_eq!(h.service, "mattermost-telemetry");
}

#[test]
fn deployments_on_empty_store_is_empty_list() {
    let db = Db::new();
    assert!(get_deployments(&db).is_empty());
    let m = get_metrics(&db);
    assert_eq!(m.total_deployments, 0);
    assert_eq!(m.unique_instances, 0);
    assert!(m.architecture_breakdown.is_empty());
    assert_eq!((m.startup_time_total_ms, m.startup_time_samples), (0, 0));
}

#[test]
fn deployments_listing_capped_at_hundred() {
    let mut db = Db::new();
    for _ in 0..105 {
        collect_telemetry(&mut db, &scenario_event());
    }
    let listed = get_deployments(&db);
    assert_eq!(listed.len(), 100);
    for pair in listed.windows(2) {
        assert!((pair[0].created_at, pair[0].id) > (pair[1].created_at, pair[1].id));
    }
}

#[test]
fn collect_reports_store_failure() {
    let full = DeploymentRow {
        id: i64::MAX - 1,
        instance_id: "old".to_string(),
        image_version: "v1".to_string(),
        architecture: "x86_64".to_string(),
        container_runtime: "docker".to_string(),
        startup_time_ms: 1,
        db_type: "postgres".to_string(),
        telemetry_version: "1.0".to_string(),
        created_at: 0,
    };
    let mut db = Db::from_rows(vec![full]).unwrap();
    let (status, reply) = collect_telemetry(&mut db, &scenario_event());
    assert_eq!(status, 500);
    assert_eq!(reply.status, "error");
    assert_eq!(
        reply.message,
        "Failed to collect telemetry: Failed to insert deployment: record identifiers are exhausted"
    );
    assert_eq!(get_metrics(&db).total_deployments, 1);
}
