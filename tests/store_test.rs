use mattermost_telemetry::config::Config;
use mattermost_telemetry::db::{Db, DeploymentRow, StoreError};

fn insert_at(db: &mut Db, id: &str, version: &str, arch: &str, startup: u64, at: i64) -> i64 {
    db.insert_telemetry_at(id, version, arch, "docker", startup, "postgres", "1.0", at)
        .ok()
        .unwrap()
}

#[test]
fn count_all_matches_inserts() {
    let mut db = Db::new();
    assert_eq!(db.count_deployments(), 0);
    for n in 1..=5u64 {
        insert_at(&mut db, "a", "v1", "x86_64", 10, 1000);
        assert_eq!(db.count_deployments(), n);
    }
}

#[test]
fn insert_assigns_increasing_ids() {
    let mut db = Db::new();
    assert_eq!(insert_at(&mut db, "a", "v1", "x86_64", 10, 1000), 1);
    assert_eq!(insert_at(&mut db, "b", "v1", "x86_64", 10, 1000), 2);
    let now = db
        .insert_telemetry("c", "v1", "x86_64", "docker", 5, "postgres", "1.0")
        .ok()
        .unwrap();
    assert_eq!(now, 3);
}

#[test]
fn distinct_instances_counted_once() {
    let mut db = Db::new();
    assert_eq!(db.count_unique_instances(), 0);
    for id in ["a", "b", "a", "c", "b", "a"] {
        insert_at(&mut db, id, "v1", "x86_64", 10, 1000);
    }
    assert_eq!(db.count_deployments(), 6);
    assert_eq!(db.count_unique_instances(), 3);
}

#[test]
fn average_parts_on_empty_store_are_zero() {
    let db = Db::new();
    assert_eq!(db.get_avg_startup_time(), (0, 0));
}

#[test]
fn average_parts_sum_and_count() {
    let mut db = Db::new();
    insert_at(&mut db, "a", "v1", "x86_64", 1500, 1000);
    insert_at(&mut db, "b", "v1", "x86_64", 2500, 1000);
    insert_at(&mut db, "c", "v1", "x86_64", 3000, 1000);
    assert_eq!(db.get_avg_startup_time(), (7000, 3));
}

#[test]
fn startup_time_stored_as_signed_bits() {
    let mut db = Db::new();
    insert_at(&mut db, "a", "v1", "x86_64", u64::MAX, 1000);
    assert_eq!(db.get_avg_startup_time(), (-1, 1));
    assert_eq!(db.get_recent_deployments(1)[0].startup_time_ms, -1);
}

#[test]
fn architecture_and_version_breakdowns() {
    let mut db = Db::new();
    insert_at(&mut db, "a", "v1", "x86_64", 1, 1000);
    insert_at(&mut db, "b", "v2", "aarch64", 1, 1000);
    insert_at(&mut db, "c", "v1", "x86_64", 1, 1000);
    let mut arch = db.get_architecture_stats();
    arch.sort();
    assert_eq!(arch, vec![("aarch64".to_string(), 1), ("x86_64".to_string(), 2)]);
    let mut ver = db.get_version_stats();
    ver.sort();
    assert_eq!(ver, vec![("v1".to_string(), 2), ("v2".to_string(), 1)]);
    assert!(Db::new().get_architecture_stats().is_empty());
}

#[test]
fn recent_records_limited_and_newest_first() {
    let mut db = Db::new();
    insert_at(&mut db, "a", "v1", "x86_64", 1, 2000);
    insert_at(&mut db, "b", "v1", "x86_64", 1, 1000);
    insert_at(&mut db, "c", "v1", "x86_64", 1, 3000);
    insert_at(&mut db, "d", "v1", "x86_64", 1, 2000);
    let recent = db.get_recent_deployments(3);
    let ids: Vec<i64> = recent.iter().map(|r| r.id).collect();
    assert_eq!(ids, vec![3, 4, 1]);
    assert_eq!(recent[0].instance_id, "c");
    assert_eq!(recent[0].created_at, 3000);
    let all: Vec<i64> = db.get_recent_deployments(100).iter().map(|r| r.id).collect();
    assert_eq!(all, vec![3, 4, 1, 2]);
    assert!(db.get_recent_deployments(0).is_empty());
    assert!(db.get_recent_deployments(-1).is_empty());
}

#[test]
fn time_series_buckets_by_minute() {
    let mut db = Db::new();
    let now = 1_000_000;
    insert_at(&mut db, "a", "v1", "x86_64", 1, now - 30);
    insert_at(&mut db, "b", "v1", "x86_64", 1, now - 100);
    insert_at(&mut db, "c", "v1", "x86_64", 1, now - 95);
    insert_at(&mut db, "d", "v1", "x86_64", 1, now - 90_000);
    let series = db.get_time_series_data_at(now, 1);
    assert_eq!(series, vec![(999_900, 2), (999_960, 1)]);
    assert_eq!(db.get_time_series_data_at(now, 0), series);
}

#[test]
fn time_series_honours_interval() {
    let mut db = Db::new();
    let now = 1_000_000;
    insert_at(&mut db, "a", "v1", "x86_64", 1, now - 30);
    insert_at(&mut db, "b", "v1", "x86_64", 1, now - 700);
    let series = db.get_time_series_data_at(now, 10);
    assert_eq!(series, vec![(999_000, 1), (999_600, 1)]);
    let wide = db.get_time_series_data_at(now, 60);
    assert_eq!(wide, vec![(997_200, 2)]);
    assert!(Db::new().get_time_series_data(1).unwrap().is_empty());
}

#[test]
fn store_error_message() {
    assert_eq!(
        StoreError::IdsExhausted.message(),
        "Failed to insert deployment: record identifiers are exhausted"
    );
    assert_eq!(
        StoreError::ClockBeforeEpoch.message(),
        "Failed to insert deployment: the clock reads before 1970"
    );
}

#[test]
fn discard_last_takes_back_only_matching_row() {
    let mut db = Db::new();
    insert_at(&mut db, "a", "v1", "x86_64", 1, 10);
    let id = insert_at(&mut db, "b", "v1", "x86_64", 1, 20);
    assert!(db.ids_left());
    assert!(!db.discard_last(id + 5));
    assert_eq!(db.count_deployments(), 2);
    assert!(db.discard_last(id));
    assert_eq!(db.count_deployments(), 1);
    assert_eq!(db.last_row().unwrap().instance_id, "a");
    assert_eq!(insert_at(&mut db, "c", "v1", "x86_64", 1, 30), id + 1);
}

#[test]
fn time_series_uses_clock() {
    let mut db = Db::new();
    db.insert_telemetry("a", "v1", "x86_64", "docker", 1, "postgres", "1.0").ok().unwrap();
    let series = db.get_time_series_data(1).unwrap();
    assert_eq!(series.len(), 1);
    assert_eq!(series[0].1, 1);
    assert_eq!(series[0].0 % 60, 0);
}

#[test]
fn config_defaults_and_overrides() {
    let c = Config::from_values(None, None);
    assert_eq!(c.server_address, "0.0.0.0:8080");
    assert_eq!(c.database_url, "sqlite:///data/telemetry.db");
    let c = Config::from_values(Some("127.0.0.1:9000".to_string()), Some("sqlite::memory:".to_string()));
    assert_eq!(c.server_address, "127.0.0.1:9000");
    assert_eq!(c.database_url, "sqlite::memory:");
}

fn row(id: i64, created_at: i64) -> DeploymentRow {
    DeploymentRow {
        id,
        instance_id: format!("i{}", id),
        image_version: "v1".to_string(),
        architecture: "x86_64".to_string(),
        container_runtime: "docker".to_string(),
        startup_time_ms: 100,
        db_type: "postgres".to_string(),
        telemetry_version: "1.0".to_string(),
        created_at,
    }
}

#[test]
fn store_rebuilt_from_rows_continues_ids() {
    let mut db = Db::from_rows(vec![row(3, 10), row(7, 20)]).unwrap();
    assert_eq!(db.count_deployments(), 2);
    assert_eq!(insert_at(&mut db, "x", "v1", "x86_64", 1, 30), 8);
    assert_eq!(db.last_row().unwrap().id, 8);
    assert_eq!(db.last_row().unwrap().instance_id, "x");
    assert!(Db::new().last_row().is_none());
    let mut empty = Db::from_rows(Vec::new()).unwrap();
    assert_eq!(insert_at(&mut empty, "x", "v1", "x86_64", 1, 30), 1);
}

#[test]
fn store_refuses_rows_out_of_order() {
    assert!(Db::from_rows(vec![row(7, 10), row(3, 20)]).is_none());
    assert!(Db::from_rows(vec![row(3, 10), row(3, 20)]).is_none());
    assert!(Db::from_rows(vec![row(0, 10)]).is_none());
    assert!(Db::from_rows(vec![row(i64::MAX, 10)]).is_none());
}

#[test]
fn insert_fails_when_ids_exhausted() {
    let mut db = Db::from_rows(vec![row(i64::MAX - 1, 10)]).unwrap();
    match db.insert_telemetry_at("x", "v1", "x86_64", "docker", 1, "postgres", "1.0", 20) {
        Err(StoreError::IdsExhausted) => {}
        Err(StoreError::ClockBeforeEpoch) => panic!("wrong error"),
        Ok(_) => panic!("insert succeeded with no identifier left"),
    }
    assert!(!db.ids_left());
    match db.insert_telemetry("x", "v1", "x86_64", "docker", 1, "postgres", "1.0") {
        Err(StoreError::IdsExhausted) => {}
        _ => panic!("expected exhausted identifiers"),
    }
    assert_eq!(db.count_deployments(), 1);
}
