use vstd::prelude::*;
use vstd::string::StringExecFns;

use crate::db::{
    appends_one, instance_ids, is_breakdown, is_recent_selection, row_holds, Db, GroupKey,
    StoreError,
};
use crate::models::{
    ArchitectureStat, DeploymentRecord, HealthResponse, MetricsResponse, TelemetryEvent,
    TelemetryEventResponse, VersionStat,
};

verus! {

/// HTTP status of a request that succeeded.
pub const STATUS_OK: u16 = 200;

/// HTTP status of a request that the store failed to serve.
pub const STATUS_INTERNAL_ERROR: u16 = 500;

/// How many records the deployments listing shows at most.
pub const RECENT_LIMIT: i64 = 100;

/// An architecture breakdown as (architecture, count) pairs.
pub open spec fn arch_pairs(out: Seq<ArchitectureStat>) -> Seq<(String, i64)> {
    Seq::new(out.len(), |j: int| (out[j].architecture, out[j].count))
}

/// A version breakdown as (version, count) pairs.
pub open spec fn version_pairs(out: Seq<VersionStat>) -> Seq<(String, i64)> {
    Seq::new(out.len(), |j: int| (out[j].version, out[j].count))
}

fn to_architecture_stats(pairs: &Vec<(String, i64)>) -> (r: Vec<ArchitectureStat>)
    ensures
        arch_pairs(r@) == pairs@,
{
    let mut out: Vec<ArchitectureStat> = Vec::new();
    let mut i: usize = 0;
    while i < pairs.len()
        invariant
            0 <= i <= pairs@.len(),
            out@.len() == i,
            arch_pairs(out@) == pairs@.take(i as int),
        decreases pairs@.len() - i,
    {
        let ghost before = out@;
        out.push(ArchitectureStat { architecture: pairs[i].0.clone(), count: pairs[i].1 });
        proof {
            assert(arch_pairs(out@) =~= pairs@.take(i + 1)) by {
                assert(arch_pairs(before) == pairs@.take(i as int));
                assert forall|j: int| 0 <= j < i implies arch_pairs(out@)[j] == pairs@[j] by {
                    assert(out@[j] == before[j]);
                    assert(arch_pairs(before)[j] == pairs@.take(i as int)[j]);
                }
            }
        }
        i = i + 1;
    }
    proof {
        assert(pairs@.take(pairs@.len() as int) =~= pairs@);
    }
    out
}

fn to_version_stats(pairs: &Vec<(String, i64)>) -> (r: Vec<VersionStat>)
    ensures
        version_pairs(r@) == pairs@,
{
    let mut out: Vec<VersionStat> = Vec::new();
    let mut i: usize = 0;
    while i < pairs.len()
        invariant
            0 <= i <= pairs@.len(),
            out@.len() == i,
            version_pairs(out@) == pairs@.take(i as int),
        decreases pairs@.len() - i,
    {
        let ghost before = out@;
        out.push(VersionStat { version: pairs[i].0.clone(), count: pairs[i].1 });
        proof {
            assert(version_pairs(out@) =~= pairs@.take(i + 1)) by {
                assert(version_pairs(before) == pairs@.take(i as int));
                assert forall|j: int| 0 <= j < i implies version_pairs(out@)[j] == pairs@[j] by {
                    assert(out@[j] == before[j]);
                    assert(version_pairs(before)[j] == pairs@.take(i as int)[j]);
                }
            }
        }
        i = i + 1;
    }
    proof {
        assert(pairs@.take(pairs@.len() as int) =~= pairs@);
    }
    out
}

/// Records a report. On success the reply is `200` with status `success`;
/// when the store fails it is `500` with status `error`, a message that
/// carries the store's own words, and nothing stored. The store fails with
/// `IdsExhausted` exactly when every identifier has been handed out, and
/// otherwise only where the clock reads earlier than the Unix epoch. The
/// client's `os` and timestamp are not kept.
pub fn collect_telemetry(db: &mut Db, event: &TelemetryEvent) -> (r: (u16, TelemetryEventResponse))
    requires
        old(db).wf(),
    ensures
        final(db).wf(),
        r.0 == STATUS_OK || r.0 == STATUS_INTERNAL_ERROR,
        r.0 == STATUS_OK ==> {
            &&& old(db).next_id() < i64::MAX
            &&& r.1.status@ == "success"@
            &&& r.1.message@ == "Telemetry collected"@
            &&& final(db).next_id() == old(db).next_id() + 1
            &&& forall|i: int| 0 <= i < old(db).rows().len() ==> #[trigger] old(db).rows()[i].id < old(db).next_id()
            &&& appends_one(old(db).rows(), final(db).rows())
            &&& row_holds(
                final(db).rows().last(),
                old(db).next_id(),
                event.instance_id@,
                event.image_version@,
                event.architecture@,
                event.container_runtime@,
                event.startup_time_ms,
                event.db_type@,
                event.telemetry_version@,
                final(db).rows().last().created_at,
            )
        },
        r.0 == STATUS_INTERNAL_ERROR ==> {
            &&& r.1.status@ == "error"@
            &&& (r.1.message@ == "Failed to collect telemetry: "@ + StoreError::IdsExhausted.text()
                || r.1.message@ == "Failed to collect telemetry: "@ + StoreError::ClockBeforeEpoch.text())
            &&& (r.1.message@ == "Failed to collect telemetry: "@ + StoreError::IdsExhausted.text()
                <==> old(db).next_id() == i64::MAX)
            &&& final(db).rows() == old(db).rows()
            &&& final(db).next_id() == old(db).next_id()
        },
{
    let inserted = db.insert_telemetry(
        event.instance_id.as_str(),
        event.image_version.as_str(),
        event.architecture.as_str(),
        event.container_runtime.as_str(),
        event.startup_time_ms,
        event.db_type.as_str(),
        event.telemetry_version.as_str(),
    );
    match inserted {
        Ok(_) => (
            STATUS_OK,
            TelemetryEventResponse {
                status: String::from_str("success"),
                message: String::from_str("Telemetry collected"),
            },
        ),
        Err(e) => {
            let details = e.message();
            let message = String::from_str("Failed to collect telemetry: ").concat(details.as_str());
            proof {
                reveal_strlit("Failed to collect telemetry: ");
                reveal_strlit("Failed to insert deployment: record identifiers are exhausted");
                reveal_strlit("Failed to insert deployment: the clock reads before 1970");
                let p = "Failed to collect telemetry: "@;
                let a = p + StoreError::IdsExhausted.text();
                let b = p + StoreError::ClockBeforeEpoch.text();
                assert(a[p.len() as int + 29] != b[p.len() as int + 29]);
            }
            (STATUS_INTERNAL_ERROR, TelemetryEventResponse { status: String::from_str("error"), message })
        },
    }
}

/// An aggregate snapshot of the store: totals, both breakdowns and the
/// startup times' sum and number.
pub fn get_metrics(db: &Db) -> (r: MetricsResponse)
    requires
        db.wf(),
    ensures
        r.total_deployments == db.rows().len(),
        r.unique_instances == instance_ids(db.rows()).len(),
        is_breakdown(db.rows(), GroupKey::Architecture, arch_pairs(r.architecture_breakdown@)),
        is_breakdown(db.rows(), GroupKey::Version, version_pairs(r.version_breakdown@)),
        r.startup_time_total_ms == crate::db::startup_sum(db.rows()),
        r.startup_time_samples == db.rows().len(),
{
    let total_deployments = db.count_deployments();
    let unique_instances = db.count_unique_instances();
    let arch_stats = db.get_architecture_stats();
    let version_stats = db.get_version_stats();
    let (startup_time_total_ms, startup_time_samples) = db.get_avg_startup_time();
    MetricsResponse {
        total_deployments,
        unique_instances,
        architecture_breakdown: to_architecture_stats(&arch_stats),
        version_breakdown: to_version_stats(&version_stats),
        startup_time_total_ms,
        startup_time_samples,
    }
}

/// The liveness reply; it never fails.
pub fn health_check() -> (r: HealthResponse)
    ensures
        r.status@ == "healthy"@,
        r.service@ == "mattermost-telemetry"@,
{
    HealthResponse {
        status: String::from_str("healthy"),
        service: String::from_str("mattermost-telemetry"),
    }
}

/// The most recent stored deployments, at most `RECENT_LIMIT` of them.
pub fn get_deployments(db: &Db) -> (r: Vec<DeploymentRecord>)
    requires
        db.wf(),
    ensures
        exists|picked: Seq<int>| is_recent_selection(db.rows(), RECENT_LIMIT, r@, picked),
{
    db.get_recent_deployments(RECENT_LIMIT)
}

/// The number of stored deployments per architecture.
pub fn get_architecture_stats(db: &Db) -> (r: Vec<ArchitectureStat>)
    requires
        db.wf(),
    ensures
        is_breakdown(db.rows(), GroupKey::Architecture, arch_pairs(r@)),
{
    let stats = db.get_architecture_stats();
    to_architecture_stats(&stats)
}

} // verus!
