use vstd::prelude::*;
use vstd::string::StringExecFns;

use crate::clock::now_unix_seconds;

verus! {

/// A deployment report as a client sends it.
///
/// `os` and `timestamp` are accepted but not kept by the store. A timestamp
/// is in whole seconds since the Unix epoch (UTC).
pub struct TelemetryEvent {
    pub instance_id: String,
    pub image_version: String,
    pub architecture: String,
    pub os: String,
    pub container_runtime: String,
    pub startup_time_ms: u64,
    pub db_type: String,
    pub telemetry_version: String,
    pub timestamp: Option<i64>,
}

/// A fresh random instance identifier, in the hyphenated form of a UUID.
///
/// Relies on `uuid::Uuid::new_v4` and its `Display`, which writes the
/// hyphenated lower-case form: 36 characters, lower-case hex digits with
/// hyphens at positions 8, 13, 18 and 23.
#[verifier::external_body]
fn new_instance_id() -> (r: String)
    ensures
        r@.len() == 36,
        forall|i: int| 0 <= i < 36 ==> (#[trigger] r@[i] == '-' <==> (i == 8 || i == 13 || i == 18 || i == 23)),
        forall|i: int| 0 <= i < 36 && r@[i] != '-' ==> ('0' <= #[trigger] r@[i] <= '9' || 'a' <= r@[i] <= 'f'),
{
    uuid::Uuid::new_v4().to_string()
}

impl Default for TelemetryEvent {
    /// A report with a fresh random instance identifier, empty descriptive
    /// fields, a zero startup time, telemetry version `1.0` and the current
    /// time as its timestamp, which is absent where the clock reads earlier
    /// than the Unix epoch.
    fn default() -> (r: TelemetryEvent)
        ensures
            r.instance_id@.len() == 36,
            r.image_version@.len() == 0,
            r.architecture@.len() == 0,
            r.os@.len() == 0,
            r.container_runtime@.len() == 0,
            r.startup_time_ms == 0,
            r.db_type@.len() == 0,
            r.telemetry_version@ == "1.0"@,
            r.timestamp matches Some(t) ==> t >= 0,
    {
        TelemetryEvent {
            instance_id: new_instance_id(),
            image_version: String::new(),
            architecture: String::new(),
            os: String::new(),
            container_runtime: String::new(),
            startup_time_ms: 0,
            db_type: String::new(),
            telemetry_version: String::from_str("1.0"),
            timestamp: now_unix_seconds(),
        }
    }
}

/// The reply to a report: a status word and a human-readable message.
pub struct TelemetryEventResponse {
    pub status: String,
    pub message: String,
}

/// A stored deployment as it is listed to clients. `created_at` is in whole
/// seconds since the Unix epoch (UTC).
pub struct DeploymentRecord {
    pub id: i64,
    pub instance_id: String,
    pub image_version: String,
    pub architecture: String,
    pub container_runtime: String,
    pub startup_time_ms: i64,
    pub created_at: i64,
}

/// Number of stored deployments on one architecture.
pub struct ArchitectureStat {
    pub architecture: String,
    pub count: i64,
}

/// Number of stored deployments of one image version.
pub struct VersionStat {
    pub version: String,
    pub count: i64,
}

/// An aggregate snapshot of the store.
///
/// The average startup time is given exactly, as the sum of the startup times
/// of all stored deployments and the number of them; both are zero for an
/// empty store, whose average is taken to be zero.
pub struct MetricsResponse {
    pub total_deployments: u64,
    pub unique_instances: u64,
    pub architecture_breakdown: Vec<ArchitectureStat>,
    pub version_breakdown: Vec<VersionStat>,
    pub startup_time_total_ms: i128,
    pub startup_time_samples: u64,
}

/// The liveness reply.
pub struct HealthResponse {
    pub status: String,
    pub service: String,
}

} // verus!
