use vstd::prelude::*;
use vstd::string::StringExecFns;

use crate::clock::now_unix_seconds;
use crate::models::DeploymentRecord;

verus! {

broadcast use vstd::seq_lib::group_seq_properties;

/// One stored deployment: every column that the store keeps.
///
/// `created_at` is in whole seconds since the Unix epoch (UTC).
pub struct DeploymentRow {
    pub id: i64,
    pub instance_id: String,
    pub image_version: String,
    pub architecture: String,
    pub container_runtime: String,
    pub startup_time_ms: i64,
    pub db_type: String,
    pub telemetry_version: String,
    pub created_at: i64,
}

impl DeploymentRow {
    /// The row as it is listed to clients.
    pub open spec fn record(&self) -> DeploymentRecord {
        DeploymentRecord {
            id: self.id,
            instance_id: self.instance_id,
            image_version: self.image_version,
            architecture: self.architecture,
            container_runtime: self.container_runtime,
            startup_time_ms: self.startup_time_ms,
            created_at: self.created_at,
        }
    }

    pub fn to_record(&self) -> (r: DeploymentRecord)
        ensures
            r == self.record(),
    {
        DeploymentRecord {
            id: self.id,
            instance_id: self.instance_id.clone(),
            image_version: self.image_version.clone(),
            architecture: self.architecture.clone(),
            container_runtime: self.container_runtime.clone(),
            startup_time_ms: self.startup_time_ms,
            created_at: self.created_at,
        }
    }
}

/// Why a write to the store failed.
pub enum StoreError {
    /// Every record identifier has been handed out.
    IdsExhausted,
    /// The clock reads earlier than the Unix epoch, so no creation time can
    /// be stamped.
    ClockBeforeEpoch,
}

impl StoreError {
    pub open spec fn text(&self) -> Seq<char> {
        match self {
            StoreError::IdsExhausted => "Failed to insert deployment: record identifiers are exhausted"@,
            StoreError::ClockBeforeEpoch => "Failed to insert deployment: the clock reads before 1970"@,
        }
    }

    /// The error in words.
    pub fn message(&self) -> (r: String)
        ensures
            r@ == self.text(),
    {
        match self {
            StoreError::IdsExhausted => String::from_str(
                "Failed to insert deployment: record identifiers are exhausted",
            ),
            StoreError::ClockBeforeEpoch => String::from_str(
                "Failed to insert deployment: the clock reads before 1970",
            ),
        }
    }
}

/// The stored form of a startup time: the value's bits read as a signed
/// integer, as an unsigned value bound to a signed column is.
pub open spec fn stored_ms(v: u64) -> i64 {
    v as i64
}

/// `row` holds exactly the given column values.
pub open spec fn row_holds(
    row: DeploymentRow,
    id: i64,
    instance_id: Seq<char>,
    image_version: Seq<char>,
    architecture: Seq<char>,
    container_runtime: Seq<char>,
    startup_time_ms: u64,
    db_type: Seq<char>,
    telemetry_version: Seq<char>,
    created_at: i64,
) -> bool {
    &&& row.id == id
    &&& row.instance_id@ == instance_id
    &&& row.image_version@ == image_version
    &&& row.architecture@ == architecture
    &&& row.container_runtime@ == container_runtime
    &&& row.startup_time_ms == stored_ms(startup_time_ms)
    &&& row.db_type@ == db_type
    &&& row.telemetry_version@ == telemetry_version
    &&& row.created_at == created_at
}

/// `after` is `before` with exactly one row added at the end.
pub open spec fn appends_one(before: Seq<DeploymentRow>, after: Seq<DeploymentRow>) -> bool {
    after.len() == before.len() + 1 && after.take(before.len() as int) == before
}

/// The instance identifiers of `rows`, in order.
pub open spec fn instance_id_seq(rows: Seq<DeploymentRow>) -> Seq<Seq<char>> {
    Seq::new(rows.len(), |k: int| rows[k].instance_id@)
}

/// The distinct instance identifiers among `rows`.
pub open spec fn instance_ids(rows: Seq<DeploymentRow>) -> Set<Seq<char>> {
    instance_id_seq(rows).to_set()
}

/// What the strings of `v` hold, in order.
pub open spec fn string_views(v: Seq<String>) -> Seq<Seq<char>> {
    Seq::new(v.len(), |k: int| v[k]@)
}

/// The column that a breakdown groups stored deployments by.
pub enum GroupKey {
    Architecture,
    Version,
}

/// The value of the grouping column `k` in `row`.
pub open spec fn key_of(row: DeploymentRow, k: GroupKey) -> Seq<char> {
    match k {
        GroupKey::Architecture => row.architecture@,
        GroupKey::Version => row.image_version@,
    }
}

/// How many of `rows` hold `s` in the grouping column `k`.
pub open spec fn count_with(rows: Seq<DeploymentRow>, k: GroupKey, s: Seq<char>) -> nat
    decreases rows.len(),
{
    if rows.len() == 0 {
        0
    } else {
        count_with(rows.drop_last(), k, s) + if key_of(rows.last(), k) == s {
            1nat
        } else {
            0nat
        }
    }
}

/// `out` is the breakdown of `rows` by column `k`: one entry for each
/// distinct value of the column, with the number of rows that hold it.
pub open spec fn is_breakdown(rows: Seq<DeploymentRow>, k: GroupKey, out: Seq<(String, i64)>) -> bool {
    &&& forall|j: int| 0 <= j < out.len() ==> #[trigger] out[j].1 == count_with(rows, k, out[j].0@)
    &&& forall|j: int| 0 <= j < out.len() ==> #[trigger] out[j].1 >= 1
    &&& forall|a: int, b: int| 0 <= a < b < out.len() ==> #[trigger] out[a].0@ != #[trigger] out[b].0@
    &&& forall|m: int| 0 <= m < rows.len() ==> exists|j: int| 0 <= j < out.len() && #[trigger] out[j].0@ == #[trigger] key_of(rows[m], k)
}

/// The sum of the stored startup times of `rows`.
pub open spec fn startup_sum(rows: Seq<DeploymentRow>) -> int
    decreases rows.len(),
{
    if rows.len() == 0 {
        0
    } else {
        startup_sum(rows.drop_last()) + rows.last().startup_time_ms
    }
}

/// Row `a` is more recent than row `b`: created later, or created in the
/// same second and inserted later.
pub open spec fn more_recent(a: DeploymentRow, b: DeploymentRow) -> bool {
    a.created_at > b.created_at || (a.created_at == b.created_at && a.id > b.id)
}

/// Row `m` of `rows` is older than row `bound`, if there is a bound.
pub open spec fn older_than(rows: Seq<DeploymentRow>, bound: Option<usize>, m: int) -> bool {
    match bound {
        Some(c) => more_recent(rows[c as int], rows[m]),
        None => true,
    }
}

/// `out` lists the rows of `rows` at positions `picked`: the most recent
/// rows, most recent first, at most `limit` of them (none for a negative
/// limit), and all of them where fewer than `limit` were listed.
pub open spec fn is_recent_selection(
    rows: Seq<DeploymentRow>,
    limit: i64,
    out: Seq<DeploymentRecord>,
    picked: Seq<int>,
) -> bool {
    &&& out.len() <= if limit < 0 { 0 } else { limit as int }
    &&& picked.len() == out.len()
    &&& forall|j: int| 0 <= j < out.len() ==> 0 <= #[trigger] picked[j] < rows.len() && out[j] == rows[picked[j]].record()
    &&& forall|a: int, b: int| 0 <= a < b < out.len() ==> more_recent(rows[#[trigger] picked[a]], rows[#[trigger] picked[b]])
    &&& out.len() > 0 ==> forall|m: int| 0 <= m < rows.len() && !more_recent(rows[picked.last()], #[trigger] rows[m]) ==> picked.contains(m)
    &&& out.len() < limit ==> forall|m: int| 0 <= m < rows.len() ==> #[trigger] picked.contains(m)
}

/// Length of the window that the time series covers, in seconds.
pub const WINDOW_SECONDS: i64 = 86400;

/// Width in seconds of a time-series bucket of `interval_minutes` minutes;
/// a non-positive interval means the one-minute default.
pub open spec fn bucket_width(interval_minutes: i64) -> int {
    if interval_minutes < 1 {
        60
    } else {
        interval_minutes * 60
    }
}

/// Start of the bucket of width `w` that holds time `t`: buckets are aligned
/// on multiples of the width since the Unix epoch.
pub open spec fn bucket_of(t: i64, w: int) -> int {
    ((t as int) / w) * w
}

/// `row` was created within the window that ends at `now`.
pub open spec fn in_window(row: DeploymentRow, now: i64) -> bool {
    row.created_at >= now - WINDOW_SECONDS
}

/// How many of `rows` fall in the window ending at `now` and in the bucket
/// starting at `b`.
pub open spec fn count_bucket(rows: Seq<DeploymentRow>, now: i64, w: int, b: int) -> nat
    decreases rows.len(),
{
    if rows.len() == 0 {
        0
    } else {
        count_bucket(rows.drop_last(), now, w, b) + if in_window(rows.last(), now) && bucket_of(rows.last().created_at, w) == b {
            1nat
        } else {
            0nat
        }
    }
}

/// `out` is the time series of `rows` in the window ending at `now`, with
/// buckets of width `w`: one entry per bucket that holds a row of the
/// window, with the number of them, in ascending order of bucket start.
pub open spec fn is_time_series(rows: Seq<DeploymentRow>, now: i64, w: int, out: Seq<(i128, i64)>) -> bool {
    &&& forall|j: int| 0 <= j < out.len() ==> #[trigger] out[j].1 == count_bucket(rows, now, w, out[j].0 as int)
    &&& forall|j: int| 0 <= j < out.len() ==> #[trigger] out[j].1 >= 1
    &&& forall|a: int, b: int| 0 <= a < b < out.len() ==> #[trigger] out[a].0 < #[trigger] out[b].0
    &&& forall|m: int| 0 <= m < rows.len() && #[trigger] in_window(rows[m], now) ==> exists|j: int| 0 <= j < out.len() && #[trigger] out[j].0 == bucket_of(rows[m].created_at, w)
}

/// A row counted in a bucket makes that bucket's count positive.
proof fn lemma_count_bucket_present(rows: Seq<DeploymentRow>, now: i64, w: int, m: int)
    requires
        0 <= m < rows.len(),
        in_window(rows[m], now),
    ensures
        count_bucket(rows, now, w, bucket_of(rows[m].created_at, w)) >= 1,
    decreases rows.len(),
{
    if m < rows.len() - 1 {
        assert(rows.drop_last()[m] == rows[m]);
        lemma_count_bucket_present(rows.drop_last(), now, w, m);
    }
}

/// `rows` can make up a store: identifiers positive, strictly increasing in
/// order, and not the largest `i64`, which is kept back so that an insert
/// can always tell that identifiers have run out.
pub open spec fn rows_valid(rows: Seq<DeploymentRow>) -> bool {
    &&& forall|i: int| 0 <= i < rows.len() ==> 1 <= #[trigger] rows[i].id < i64::MAX
    &&& forall|i: int| 0 < i < rows.len() ==> rows[i - 1].id < #[trigger] rows[i].id
}

/// The record store: deployments in the order they were inserted, each with
/// an identifier larger than those of all earlier ones.
pub struct Db {
    rows: Vec<DeploymentRow>,
    next_id: i64,
}

impl Db {
    /// What the store holds, in insertion order.
    pub closed spec fn rows(&self) -> Seq<DeploymentRow> {
        self.rows@
    }

    /// The identifier the next insert will assign.
    pub closed spec fn next_id(&self) -> i64 {
        self.next_id
    }

    /// The store's invariant: identifiers are positive, strictly increasing in
    /// insertion order, and below the next one to be assigned.
    pub closed spec fn wf(&self) -> bool {
        &&& 1 <= self.next_id
        &&& self.rows@.len() < self.next_id
        &&& forall|i: int| 0 <= i < self.rows@.len() ==> 1 <= #[trigger] self.rows@[i].id < self.next_id
        &&& forall|i: int, j: int|
            0 <= i < j < self.rows@.len() ==> #[trigger] self.rows@[i].id < #[trigger] self.rows@[j].id
    }

    /// Identifiers of stored rows are unique.
    pub proof fn lemma_ids_unique(&self, i: int, j: int)
        requires
            self.wf(),
            0 <= i < self.rows().len(),
            0 <= j < self.rows().len(),
            self.rows()[i].id == self.rows()[j].id,
        ensures
            i == j,
    {
        if i < j {
            assert(self.rows@[i].id < self.rows@[j].id);
        } else if j < i {
            assert(self.rows@[j].id < self.rows@[i].id);
        }
    }

    /// An empty store.
    pub fn new() -> (r: Db)
        ensures
            r.wf(),
            r.rows().len() == 0,
            r.next_id() == 1,
    {
        Db { rows: Vec::new(), next_id: 1 }
    }

    /// Stores a deployment created at `created_at`, assigning it the next
    /// identifier, which is returned. Fails, changing nothing, only when every
    /// identifier has been handed out.
    pub fn insert_telemetry_at(
        &mut self,
        instance_id: &str,
        image_version: &str,
        architecture: &str,
        container_runtime: &str,
        startup_time_ms: u64,
        db_type: &str,
        telemetry_version: &str,
        created_at: i64,
    ) -> (r: Result<i64, StoreError>)
        requires
            old(self).wf(),
        ensures
            final(self).wf(),
            match r {
                Ok(id) => {
                    &&& old(self).next_id() < i64::MAX
                    &&& id == old(self).next_id()
                    &&& forall|i: int| 0 <= i < old(self).rows().len() ==> #[trigger] old(self).rows()[i].id < id
                    &&& final(self).next_id() == id + 1
                    &&& appends_one(old(self).rows(), final(self).rows())
                    &&& row_holds(
                        final(self).rows().last(),
                        id,
                        instance_id@,
                        image_version@,
                        architecture@,
                        container_runtime@,
                        startup_time_ms,
                        db_type@,
                        telemetry_version@,
                        created_at,
                    )
                },
                Err(e) => {
                    &&& old(self).next_id() == i64::MAX
                    &&& e == StoreError::IdsExhausted
                    &&& final(self).rows() == old(self).rows()
                    &&& final(self).next_id() == old(self).next_id()
                },
            },
    {
        if self.next_id == i64::MAX {
            return Err(StoreError::IdsExhausted);
        }
        let id = self.next_id;
        let row = DeploymentRow {
            id,
            instance_id: String::from_str(instance_id),
            image_version: String::from_str(image_version),
            architecture: String::from_str(architecture),
            container_runtime: String::from_str(container_runtime),
            startup_time_ms: startup_time_ms as i64,
            db_type: String::from_str(db_type),
            telemetry_version: String::from_str(telemetry_version),
            created_at,
        };
        let ghost before = self.rows@;
        self.rows.push(row);
        self.next_id = id + 1;
        assert(self.rows@.take(before.len() as int) =~= before);
        Ok(id)
    }

    /// Stores a deployment created now; see `insert_telemetry_at`. Fails,
    /// changing nothing, with `IdsExhausted` exactly when every identifier
    /// has been handed out, and otherwise with `ClockBeforeEpoch` where the
    /// clock reads earlier than the Unix epoch.
    pub fn insert_telemetry(
        &mut self,
        instance_id: &str,
        image_version: &str,
        architecture: &str,
        container_runtime: &str,
        startup_time_ms: u64,
        db_type: &str,
        telemetry_version: &str,
    ) -> (r: Result<i64, StoreError>)
        requires
            old(self).wf(),
        ensures
            final(self).wf(),
            match r {
                Ok(id) => {
                    &&& old(self).next_id() < i64::MAX
                    &&& id == old(self).next_id()
                    &&& forall|i: int| 0 <= i < old(self).rows().len() ==> #[trigger] old(self).rows()[i].id < id
                    &&& final(self).next_id() == id + 1
                    &&& appends_one(old(self).rows(), final(self).rows())
                    &&& row_holds(
                        final(self).rows().last(),
                        id,
                        instance_id@,
                        image_version@,
                        architecture@,
                        container_runtime@,
                        startup_time_ms,
                        db_type@,
                        telemetry_version@,
                        final(self).rows().last().created_at,
                    )
                },
                Err(e) => {
                    &&& (e == StoreError::IdsExhausted <==> old(self).next_id() == i64::MAX)
                    &&& final(self).rows() == old(self).rows()
                    &&& final(self).next_id() == old(self).next_id()
                },
            },
    {
        if !self.ids_left() {
            return Err(StoreError::IdsExhausted);
        }
        let created_at = match now_unix_seconds() {
            Some(t) => t,
            None => {
                return Err(StoreError::ClockBeforeEpoch);
            },
        };
        self.insert_telemetry_at(
            instance_id,
            image_version,
            architecture,
            container_runtime,
            startup_time_ms,
            db_type,
            telemetry_version,
            created_at,
        )
    }

    /// Whether an identifier is left for another insert.
    pub fn ids_left(&self) -> (r: bool)
        ensures
            r == (self.next_id() < i64::MAX),
    {
        self.next_id < i64::MAX
    }

    /// The number of distinct instance identifiers among stored deployments.
    pub fn count_unique_instances(&self) -> (r: u64)
        requires
            self.wf(),
        ensures
            r == instance_ids(self.rows()).len(),
    {
        let mut seen: Vec<String> = Vec::new();
        let n = self.rows.len();
        let mut i: usize = 0;
        while i < n
            invariant
                self.wf(),
                n == self.rows@.len(),
                0 <= i <= n,
                seen@.len() <= i,
                string_views(seen@).no_duplicates(),
                string_views(seen@).to_set() == instance_ids(self.rows@.take(i as int)),
            decreases n - i,
        {
            let id = &self.rows[i].instance_id;
            let found = contains_string(&seen, id);
            proof {
                let prefix = instance_id_seq(self.rows@.take(i as int));
                assert(instance_id_seq(self.rows@.take(i + 1)) =~= prefix.push(id@));
                prefix.lemma_push_to_set_commute(id@);
            }
            if !found {
                let ghost before = string_views(seen@);
                seen.push(id.clone());
                proof {
                    assert(string_views(seen@) =~= before.push(id@));
                    before.lemma_push_to_set_commute(id@);
                }
            } else {
                proof {
                    assert(string_views(seen@).to_set().insert(id@) =~= string_views(seen@).to_set());
                }
            }
            i = i + 1;
        }
        proof {
            assert(self.rows@.take(n as int) =~= self.rows@);
            string_views(seen@).unique_seq_to_set();
        }
        seen.len() as u64
    }

    /// The stored deployments grouped by column `k`, with a count per group.
    pub fn breakdown(&self, k: GroupKey) -> (r: Vec<(String, i64)>)
        requires
            self.wf(),
        ensures
            is_breakdown(self.rows(), k, r@),
    {
        let n = self.rows.len();
        let mut out: Vec<(String, i64)> = Vec::new();
        let mut i: usize = 0;
        while i < n
            invariant
                self.wf(),
                n == self.rows@.len(),
                0 <= i <= n,
                is_breakdown(self.rows@.take(i as int), k, out@),
                forall|j: int| 0 <= j < out@.len() ==> #[trigger] out@[j].1 <= i,
            decreases n - i,
        {
            let ghost prefix = self.rows@.take(i as int);
            let ghost next = self.rows@.take(i + 1);
            let key = match k {
                GroupKey::Architecture => &self.rows[i].architecture,
                GroupKey::Version => &self.rows[i].image_version,
            };
            proof {
                assert(next.drop_last() =~= prefix);
                assert(key_of(next.last(), k) == key@);
                assert forall|s: Seq<char>| #[trigger] count_with(next, k, s) == count_with(prefix, k, s) + if key@ == s {
                    1nat
                } else {
                    0nat
                } by {}
            }
            let found = find_key(&out, key);
            match found {
                Some(j) => {
                    let c = out[j].1;
                    let copy = out[j].0.clone();
                    let ghost before = out@;
                    out.set(j, (copy, c + 1));
                    proof {
                        assert forall|m: int| 0 <= m < i + 1 implies exists|t: int| 0 <= t < out@.len() && #[trigger] out@[t].0@ == #[trigger] key_of(next[m], k) by {
                            if m < i {
                                assert(prefix[m] == next[m]);
                                let t = choose|t: int| 0 <= t < before.len() && #[trigger] before[t].0@ == #[trigger] key_of(prefix[m], k);
                                assert(out@[t].0@ == before[t].0@);
                            } else {
                                assert(out@[j as int].0@ == key_of(next[m], k));
                            }
                        }
                        assert forall|a: int, b: int| 0 <= a < b < out@.len() implies #[trigger] out@[a].0@ != #[trigger] out@[b].0@ by {
                            assert(before[a].0@ != before[b].0@);
                        }
                    }
                },
                None => {
                    let ghost before = out@;
                    out.push((key.clone(), 1));
                    proof {
                        assert forall|m: int| 0 <= m < i + 1 implies exists|t: int| 0 <= t < out@.len() && #[trigger] out@[t].0@ == #[trigger] key_of(next[m], k) by {
                            if m < i {
                                assert(prefix[m] == next[m]);
                                let t = choose|t: int| 0 <= t < before.len() && #[trigger] before[t].0@ == #[trigger] key_of(prefix[m], k);
                                assert(out@[t].0@ == before[t].0@);
                            } else {
                                assert(out@[before.len() as int].0@ == key_of(next[m], k));
                            }
                        }
                        assert forall|a: int, b: int| 0 <= a < b < out@.len() implies #[trigger] out@[a].0@ != #[trigger] out@[b].0@ by {
                            if b < before.len() {
                                assert(before[a].0@ != before[b].0@);
                            } else {
                                assert(before[a].0@ != key@);
                            }
                        }
                        assert(count_with(prefix, k, key@) == 0) by {
                            lemma_count_absent(prefix, k, key@);
                        }
                    }
                },
            }
            i = i + 1;
        }
        proof {
            assert(self.rows@.take(n as int) =~= self.rows@);
        }
        out
    }

    /// The number of stored deployments per architecture.
    pub fn get_architecture_stats(&self) -> (r: Vec<(String, i64)>)
        requires
            self.wf(),
        ensures
            is_breakdown(self.rows(), GroupKey::Architecture, r@),
    {
        self.breakdown(GroupKey::Architecture)
    }

    /// The number of stored deployments per image version.
    pub fn get_version_stats(&self) -> (r: Vec<(String, i64)>)
        requires
            self.wf(),
        ensures
            is_breakdown(self.rows(), GroupKey::Version, r@),
    {
        self.breakdown(GroupKey::Version)
    }

    /// The sum of the startup times of all stored deployments, and their
    /// number; both are zero for an empty store.
    pub fn get_avg_startup_time(&self) -> (r: (i128, u64))
        requires
            self.wf(),
        ensures
            r.0 == startup_sum(self.rows()),
            r.1 == self.rows().len(),
            self.rows().len() == 0 ==> r.0 == 0 && r.1 == 0,
    {
        let n = self.rows.len();
        let mut sum: i128 = 0;
        let mut i: usize = 0;
        while i < n
            invariant
                self.wf(),
                n == self.rows@.len(),
                n < i64::MAX,
                0 <= i <= n,
                sum == startup_sum(self.rows@.take(i as int)),
                -(i as int) * 0x8000_0000_0000_0000 <= sum <= (i as int) * 0x8000_0000_0000_0000,
            decreases n - i,
        {
            proof {
                assert(self.rows@.take(i + 1).drop_last() =~= self.rows@.take(i as int));
            }
            sum = sum + self.rows[i].startup_time_ms as i128;
            i = i + 1;
        }
        proof {
            assert(self.rows@.take(n as int) =~= self.rows@);
        }
        (sum, n as u64)
    }

    /// The most recent stored row strictly older than `bound` (any row when
    /// there is no bound), if there is one.
    fn most_recent_before(&self, bound: Option<usize>) -> (r: Option<usize>)
        requires
            self.wf(),
            bound matches Some(b) ==> b < self.rows@.len(),
        ensures
            match r {
                Some(b) => {
                    &&& b < self.rows@.len()
                    &&& older_than(self.rows@, bound, b as int)
                    &&& forall|m: int|
                        0 <= m < self.rows@.len() && older_than(self.rows@, bound, m)
                            ==> !more_recent(#[trigger] self.rows@[m], self.rows@[b as int])
                },
                None => forall|m: int|
                    0 <= m < self.rows@.len() ==> !#[trigger] older_than(self.rows@, bound, m),
            },
    {
        let n = self.rows.len();
        let mut best: Option<usize> = None;
        let mut i: usize = 0;
        while i < n
            invariant
                self.wf(),
                n == self.rows@.len(),
                0 <= i <= n,
                bound matches Some(b) ==> b < n,
                match best {
                    Some(b) => {
                        &&& b < i
                        &&& older_than(self.rows@, bound, b as int)
                        &&& forall|m: int|
                            0 <= m < i && older_than(self.rows@, bound, m)
                                ==> !more_recent(#[trigger] self.rows@[m], self.rows@[b as int])
                    },
                    None => forall|m: int|
                        0 <= m < i ==> !#[trigger] older_than(self.rows@, bound, m),
                },
            decreases n - i,
        {
            let row = &self.rows[i];
            let candidate = match bound {
                Some(c) => {
                    let upper = &self.rows[c];
                    upper.created_at > row.created_at || (upper.created_at == row.created_at && upper.id > row.id)
                },
                None => true,
            };
            if candidate {
                match best {
                    Some(b) => {
                        let cur = &self.rows[b];
                        if row.created_at > cur.created_at || (row.created_at == cur.created_at && row.id > cur.id) {
                            best = Some(i);
                        }
                    },
                    None => {
                        best = Some(i);
                    },
                }
            }
            i = i + 1;
        }
        best
    }

    /// Up to `limit` stored deployments, the most recent first: by creation
    /// time, and among those created in the same second by identifier, both
    /// descending. A negative limit gives none.
    pub fn get_recent_deployments(&self, limit: i64) -> (r: Vec<DeploymentRecord>)
        requires
            self.wf(),
        ensures
            exists|picked: Seq<int>| is_recent_selection(self.rows(), limit, r@, picked),
    {
        let mut out: Vec<DeploymentRecord> = Vec::new();
        let mut last: Option<usize> = None;
        let ghost mut picked: Seq<int> = Seq::empty();
        let mut done = false;
        while !done && (out.len() as i64) < limit
            invariant
                self.wf(),
                self.rows@.len() < i64::MAX,
                out@.len() <= if limit < 0 { 0 } else { limit as int },
                picked.len() == out@.len(),
                forall|j: int| 0 <= j < out@.len() ==> 0 <= #[trigger] picked[j] < self.rows@.len() && out@[j] == self.rows@[picked[j]].record(),
                forall|a: int, b: int| 0 <= a < b < out@.len() ==> more_recent(self.rows@[#[trigger] picked[a]], self.rows@[#[trigger] picked[b]]),
                match last {
                    Some(c) => out@.len() > 0 && c == picked.last(),
                    None => out@.len() == 0,
                },
                out@.len() > 0 ==> forall|m: int| 0 <= m < self.rows@.len() && !more_recent(self.rows@[picked.last()], #[trigger] self.rows@[m]) ==> picked.contains(m),
                done ==> forall|m: int| 0 <= m < self.rows@.len() ==> #[trigger] picked.contains(m),
            decreases self.rows@.len() - out@.len(), if done { 0int } else { 1int },
        {
            match self.most_recent_before(last) {
                Some(b) => {
                    let ghost old_picked = picked;
                    out.push(self.rows[b].to_record());
                    proof {
                        picked = picked.push(b as int);
                        assert forall|m: int| 0 <= m < self.rows@.len() && !more_recent(self.rows@[picked.last()], #[trigger] self.rows@[m]) implies picked.contains(m) by {
                            match last {
                                Some(c) => {
                                    if !more_recent(self.rows@[c as int], self.rows@[m]) {
                                        assert(old_picked.contains(m));
                                        let t = choose|t: int| 0 <= t < old_picked.len() && old_picked[t] == m;
                                        assert(picked[t] == m);
                                    } else {
                                        assert(!more_recent(self.rows@[m], self.rows@[b as int]));
                                        assert(self.rows@[m].id == self.rows@[b as int].id);
                                        self.lemma_ids_unique(m, b as int);
                                        assert(picked[picked.len() - 1] == m);
                                    }
                                },
                                None => {
                                    assert(!more_recent(self.rows@[m], self.rows@[b as int]));
                                    self.lemma_ids_unique(m, b as int);
                                    assert(picked[picked.len() - 1] == m);
                                },
                            }
                        }
                        assert forall|x: int, y: int| 0 <= x < y < out@.len() implies more_recent(self.rows@[#[trigger] picked[x]], self.rows@[#[trigger] picked[y]]) by {
                            if y < out@.len() - 1 {
                                assert(old_picked[x] == picked[x] && old_picked[y] == picked[y]);
                            } else {
                                let c = old_picked.last();
                                assert(more_recent(self.rows@[c], self.rows@[b as int]));
                                if x < old_picked.len() - 1 {
                                    assert(more_recent(self.rows@[old_picked[x]], self.rows@[old_picked[old_picked.len() - 1]]));
                                }
                            }
                        }
                    }
                    proof {
                        assert forall|x: int, y: int| 0 <= x < y < picked.len() implies #[trigger] picked[x] != #[trigger] picked[y] by {
                            assert(more_recent(self.rows@[picked[x]], self.rows@[picked[y]]));
                        }
                        self.lemma_picked_distinct_bound(picked);
                    }
                    last = Some(b);
                },
                None => {
                    proof {
                        assert forall|m: int| 0 <= m < self.rows@.len() implies #[trigger] picked.contains(m) by {
                            assert(!older_than(self.rows@, last, m));
                            match last {
                                Some(c) => {
                                    assert(!more_recent(self.rows@[picked.last()], self.rows@[m]));
                                },
                                None => {},
                            }
                        }
                    }
                    done = true;
                },
            }
        }
        proof {
            assert(is_recent_selection(self.rows(), limit, out@, picked));
        }
        out
    }

    /// Positions picked without repetition from the stored rows number at most
    /// as many as the rows.
    proof fn lemma_picked_distinct_bound(&self, picked: Seq<int>)
        requires
            self.wf(),
            forall|j: int| 0 <= j < picked.len() ==> 0 <= #[trigger] picked[j] < self.rows@.len(),
            forall|a: int, b: int| 0 <= a < b < picked.len() ==> #[trigger] picked[a] != #[trigger] picked[b],
        ensures
            picked.len() <= self.rows@.len(),
    {
        let full = Set::new(|m: int| 0 <= m < self.rows@.len());
        assert(full =~= vstd::set_lib::set_int_range(0, self.rows@.len() as int));
        vstd::set_lib::lemma_int_range(0, self.rows@.len() as int);
        picked.unique_seq_to_set();
        assert(picked.to_set().subset_of(full));
        vstd::set_lib::lemma_len_subset(picked.to_set(), full);
    }

    /// The smallest bucket start above `lower` (any, without a lower bound)
    /// among rows of the window, with a row that lies in it.
    fn next_bucket(&self, now: i64, w: i128, lower: Option<i128>) -> (r: Option<(i128, usize)>)
        requires
            self.wf(),
            60 <= w <= 0x7fff_ffff_ffff_ffff * 60,
        ensures
            match r {
                Some((b, m)) => {
                    &&& m < self.rows@.len()
                    &&& in_window(self.rows@[m as int], now)
                    &&& b == bucket_of(self.rows@[m as int].created_at, w as int)
                    &&& (lower matches Some(x) ==> x < b)
                    &&& forall|k: int| 0 <= k < self.rows@.len() && #[trigger] in_window(self.rows@[k], now)
                        && (lower matches Some(x) ==> x < bucket_of(self.rows@[k].created_at, w as int))
                        ==> b <= bucket_of(self.rows@[k].created_at, w as int)
                },
                None => forall|k: int| 0 <= k < self.rows@.len() && #[trigger] in_window(self.rows@[k], now)
                    ==> (lower matches Some(x) && bucket_of(self.rows@[k].created_at, w as int) <= x),
            },
    {
        let n = self.rows.len();
        let mut best: Option<(i128, usize)> = None;
        let mut i: usize = 0;
        let start = now as i128 - WINDOW_SECONDS as i128;
        while i < n
            invariant
                self.wf(),
                n == self.rows@.len(),
                0 <= i <= n,
                60 <= w <= 0x7fff_ffff_ffff_ffff * 60,
                start == now - WINDOW_SECONDS,
                match best {
                    Some((b, m)) => {
                        &&& m < i
                        &&& in_window(self.rows@[m as int], now)
                        &&& b == bucket_of(self.rows@[m as int].created_at, w as int)
                        &&& (lower matches Some(x) ==> x < b)
                        &&& forall|k: int| 0 <= k < i && #[trigger] in_window(self.rows@[k], now)
                            && (lower matches Some(x) ==> x < bucket_of(self.rows@[k].created_at, w as int))
                            ==> b <= bucket_of(self.rows@[k].created_at, w as int)
                    },
                    None => forall|k: int| 0 <= k < i && #[trigger] in_window(self.rows@[k], now)
                        ==> (lower matches Some(x) && bucket_of(self.rows@[k].created_at, w as int) <= x),
                },
            decreases n - i,
        {
            let t = self.rows[i].created_at;
            if t as i128 >= start {
                let b = bucket_start(t, w);
                let above = match lower {
                    Some(x) => x < b,
                    None => true,
                };
                if above {
                    match best {
                        Some((c, _)) => {
                            if b < c {
                                best = Some((b, i));
                            }
                        },
                        None => {
                            best = Some((b, i));
                        },
                    }
                }
            }
            i = i + 1;
        }
        best
    }

    /// How many stored rows of the window ending at `now` lie in the bucket
    /// of width `w` starting at `b`.
    fn count_in_bucket(&self, now: i64, w: i128, b: i128) -> (r: i64)
        requires
            self.wf(),
            60 <= w <= 0x7fff_ffff_ffff_ffff * 60,
        ensures
            r == count_bucket(self.rows@, now, w as int, b as int),
    {
        let n = self.rows.len();
        let start = now as i128 - WINDOW_SECONDS as i128;
        let mut c: i64 = 0;
        let mut i: usize = 0;
        while i < n
            invariant
                self.wf(),
                n == self.rows@.len(),
                n < i64::MAX,
                0 <= i <= n,
                60 <= w <= 0x7fff_ffff_ffff_ffff * 60,
                start == now - WINDOW_SECONDS,
                c == count_bucket(self.rows@.take(i as int), now, w as int, b as int),
                c <= i,
            decreases n - i,
        {
            proof {
                assert(self.rows@.take(i + 1).drop_last() =~= self.rows@.take(i as int));
            }
            let t = self.rows[i].created_at;
            if t as i128 >= start {
                if bucket_start(t, w) == b {
                    c = c + 1;
                }
            }
            i = i + 1;
        }
        proof {
            assert(self.rows@.take(n as int) =~= self.rows@);
        }
        c
    }

    /// Deployments of the last 24 hours before `now`, counted per bucket of
    /// `interval_minutes` minutes (one minute where the interval is not
    /// positive), in ascending order of bucket start. Each entry is the
    /// bucket's start, in seconds since the Unix epoch, and its count.
    pub fn get_time_series_data_at(&self, now: i64, interval_minutes: i64) -> (r: Vec<(i128, i64)>)
        requires
            self.wf(),
        ensures
            is_time_series(self.rows(), now, bucket_width(interval_minutes), r@),
    {
        let w: i128 = if interval_minutes < 1 {
            60
        } else {
            interval_minutes as i128 * 60
        };
        let mut out: Vec<(i128, i64)> = Vec::new();
        let ghost mut picked: Seq<int> = Seq::empty();
        let mut lower: Option<i128> = None;
        loop
            invariant
                self.wf(),
                60 <= w <= 0x7fff_ffff_ffff_ffff * 60,
                w == bucket_width(interval_minutes),
                picked.len() == out@.len(),
                out@.len() <= self.rows@.len(),
                forall|j: int| 0 <= j < out@.len() ==> 0 <= #[trigger] picked[j] < self.rows@.len()
                    && in_window(self.rows@[picked[j]], now)
                    && out@[j].0 == bucket_of(self.rows@[picked[j]].created_at, w as int),
                forall|j: int| 0 <= j < out@.len() ==> #[trigger] out@[j].1 == count_bucket(self.rows@, now, w as int, out@[j].0 as int),
                forall|j: int| 0 <= j < out@.len() ==> #[trigger] out@[j].1 >= 1,
                forall|a: int, b: int| 0 <= a < b < out@.len() ==> #[trigger] out@[a].0 < #[trigger] out@[b].0,
                match lower {
                    Some(x) => out@.len() > 0 && x == out@.last().0,
                    None => out@.len() == 0,
                },
                forall|m: int| 0 <= m < self.rows@.len() && #[trigger] in_window(self.rows@[m], now)
                    && (lower matches Some(x) && bucket_of(self.rows@[m].created_at, w as int) <= x)
                    ==> exists|j: int| 0 <= j < out@.len() && #[trigger] out@[j].0 == bucket_of(self.rows@[m].created_at, w as int),
            decreases self.rows@.len() - out@.len(),
        {
            match self.next_bucket(now, w, lower) {
                Some((b, m)) => {
                    let c = self.count_in_bucket(now, w, b);
                    proof {
                        lemma_count_bucket_present(self.rows@, now, w as int, m as int);
                    }
                    let ghost old_out = out@;
                    out.push((b, c));
                    proof {
                        picked = picked.push(m as int);
                        assert forall|x: int, y: int| 0 <= x < y < out@.len() implies #[trigger] out@[x].0 < #[trigger] out@[y].0 by {
                            if y < old_out.len() {
                                assert(old_out[x].0 < old_out[y].0);
                            } else if x < old_out.len() - 1 {
                                assert(old_out[x].0 < old_out[old_out.len() - 1].0);
                            }
                        }
                        assert forall|k: int| 0 <= k < self.rows@.len() && #[trigger] in_window(self.rows@[k], now)
                            && bucket_of(self.rows@[k].created_at, w as int) <= b
                            implies exists|j: int| 0 <= j < out@.len() && #[trigger] out@[j].0 == bucket_of(self.rows@[k].created_at, w as int) by {
                            let bk = bucket_of(self.rows@[k].created_at, w as int);
                            if lower matches Some(x) && bk <= x {
                                let j = choose|j: int| 0 <= j < old_out.len() && #[trigger] old_out[j].0 == bk;
                                assert(out@[j].0 == bk);
                            } else {
                                assert(b <= bk);
                                assert(out@[out@.len() - 1].0 == bk);
                            }
                        }
                        assert forall|x: int, y: int| 0 <= x < y < picked.len() implies #[trigger] picked[x] != #[trigger] picked[y] by {
                            assert(out@[x].0 < out@[y].0);
                        }
                        self.lemma_picked_distinct_bound(picked);
                    }
                    lower = Some(b);
                },
                None => {
                    proof {
                        assert(is_time_series(self.rows(), now, bucket_width(interval_minutes), out@));
                    }
                    return out;
                },
            }
        }
    }

    /// Deployments of the last 24 hours, counted per bucket of
    /// `interval_minutes` minutes; see `get_time_series_data_at`, here with
    /// the current time as the window's end. `None` where the clock reads
    /// earlier than the Unix epoch.
    pub fn get_time_series_data(&self, interval_minutes: i64) -> (r: Option<Vec<(i128, i64)>>)
        requires
            self.wf(),
        ensures
            r matches Some(v) ==> exists|now: i64| is_time_series(self.rows(), now, bucket_width(interval_minutes), v@),
    {
        match now_unix_seconds() {
            Some(now) => {
                let r = self.get_time_series_data_at(now, interval_minutes);
                let out = Some(r);
                assert(is_time_series(self.rows(), now, bucket_width(interval_minutes), out->Some_0@));
                out
            },
            None => None,
        }
    }

    /// A store holding `rows`, in that order, as rows read back from durable
    /// storage; `None` where they break the store's rules (see `rows_valid`).
    /// The next identifier follows the last row's.
    pub fn from_rows(rows: Vec<DeploymentRow>) -> (r: Option<Db>)
        ensures
            r is Some <==> rows_valid(rows@),
            r matches Some(db) ==> {
                &&& db.wf()
                &&& db.rows() == rows@
                &&& db.next_id() == if rows@.len() == 0 { 1 } else { rows@.last().id + 1 }
            },
    {
        let n = rows.len();
        let mut i: usize = 0;
        while i < n
            invariant
                n == rows@.len(),
                0 <= i <= n,
                forall|k: int| 0 <= k < i ==> 1 <= #[trigger] rows@[k].id < i64::MAX,
                forall|k: int| 0 < k < i ==> rows@[k - 1].id < #[trigger] rows@[k].id,
            decreases n - i,
        {
            let id = rows[i].id;
            if id < 1 || id == i64::MAX || (i > 0 && rows[i - 1].id >= id) {
                return None;
            }
            i = i + 1;
        }
        let next_id = if n == 0 { 1 } else { rows[n - 1].id + 1 };
        proof {
            lemma_valid_rows_ordered(rows@);
        }
        Some(Db { rows, next_id })
    }

    /// The most recently inserted row, if any.
    pub fn last_row(&self) -> (r: Option<&DeploymentRow>)
        ensures
            r matches Some(row) ==> self.rows().len() > 0 && *row == self.rows().last(),
            r is None <==> self.rows().len() == 0,
    {
        if self.rows.len() == 0 {
            None
        } else {
            Some(&self.rows[self.rows.len() - 1])
        }
    }

    /// Takes back the last inserted row if its identifier is `id`, as when
    /// the row could not be written to durable storage. The identifier is
    /// not handed out again. Returns whether a row was removed.
    pub fn discard_last(&mut self, id: i64) -> (r: bool)
        requires
            old(self).wf(),
        ensures
            final(self).wf(),
            r <==> (old(self).rows().len() > 0 && old(self).rows().last().id == id),
            r ==> final(self).rows() == old(self).rows().drop_last(),
            !r ==> final(self).rows() == old(self).rows(),
            final(self).next_id() == old(self).next_id(),
    {
        let n = self.rows.len();
        if n > 0 && self.rows[n - 1].id == id {
            self.rows.pop();
            true
        } else {
            false
        }
    }

    /// The number of stored deployments.
    pub fn count_deployments(&self) -> (r: u64)
        requires
            self.wf(),
        ensures
            r == self.rows().len(),
    {
        self.rows.len() as u64
    }
}

/// Valid rows have identifiers increasing between any two positions, none
/// above the last, and at least as many identifiers below the last as rows.
proof fn lemma_valid_rows_ordered(rows: Seq<DeploymentRow>)
    requires
        rows_valid(rows),
    ensures
        forall|a: int, b: int| 0 <= a < b < rows.len() ==> #[trigger] rows[a].id < #[trigger] rows[b].id,
        rows.len() > 0 ==> forall|k: int| 0 <= k < rows.len() ==> #[trigger] rows[k].id <= rows.last().id,
        rows.len() > 0 ==> rows.len() <= rows.last().id,
{
    assert forall|a: int, b: int| 0 <= a < b < rows.len() implies #[trigger] rows[a].id < #[trigger] rows[b].id by {
        lemma_ids_increase(rows, a, b);
    }
    lemma_len_below_last_id(rows);
}

/// Along rows whose identifiers increase step by step, they increase
/// between any two positions.
proof fn lemma_ids_increase(rows: Seq<DeploymentRow>, a: int, b: int)
    requires
        0 <= a < b < rows.len(),
        forall|k: int| 0 < k < rows.len() ==> rows[k - 1].id < #[trigger] rows[k].id,
    ensures
        rows[a].id < rows[b].id,
    decreases b - a,
{
    if a < b - 1 {
        lemma_ids_increase(rows, a, b - 1);
    }
    assert(rows[b - 1].id < rows[b].id);
}

/// Positive, strictly increasing identifiers leave the last one at least as
/// large as the number of rows.
proof fn lemma_len_below_last_id(rows: Seq<DeploymentRow>)
    requires
        forall|k: int| 0 <= k < rows.len() ==> 1 <= #[trigger] rows[k].id,
        forall|k: int| 0 < k < rows.len() ==> rows[k - 1].id < #[trigger] rows[k].id,
    ensures
        rows.len() > 0 ==> rows.len() <= rows.last().id,
    decreases rows.len(),
{
    if rows.len() > 1 {
        let shorter = rows.drop_last();
        assert forall|k: int| 0 < k < shorter.len() implies shorter[k - 1].id < #[trigger] shorter[k].id by {
            assert(rows[k - 1].id < rows[k].id);
        }
        lemma_len_below_last_id(shorter);
        assert(rows[rows.len() - 2].id < rows[rows.len() - 1].id);
    }
}

/// A value that no row holds in column `k` is counted zero times.
pub proof fn lemma_count_absent(rows: Seq<DeploymentRow>, k: GroupKey, s: Seq<char>)
    requires
        forall|m: int| 0 <= m < rows.len() ==> key_of(#[trigger] rows[m], k) != s,
    ensures
        count_with(rows, k, s) == 0,
    decreases rows.len(),
{
    if rows.len() > 0 {
        assert(key_of(rows[rows.len() - 1], k) != s);
        lemma_count_absent(rows.drop_last(), k, s);
    }
}

/// Start of the bucket of width `w` that holds time `t`.
fn bucket_start(t: i64, w: i128) -> (r: i128)
    requires
        60 <= w <= 0x7fff_ffff_ffff_ffff * 60,
    ensures
        r == bucket_of(t, w as int),
{
    proof {
        let q = (t as int) / (w as int);
        assert(-0x8000_0000_0000_0000 <= q <= 0x7fff_ffff_ffff_ffff) by (nonlinear_arith)
            requires
                q == (t as int) / (w as int),
                60 <= w,
                -0x8000_0000_0000_0000 <= t <= 0x7fff_ffff_ffff_ffff,
        ;
    }
    match (t as i128).checked_div_euclid(w) {
        Some(q) => {
            proof {
                vstd::arithmetic::div_mod::lemma_fundamental_div_mod(t as int, w as int);
                assert(0 <= (t as int) % (w as int) < w);
                assert(q * w == (w as int) * ((t as int) / (w as int))) by (nonlinear_arith)
                    requires
                        q == (t as int) / (w as int),
                ;
            }
            q * w
        },
        None => 0,
    }
}

/// The position of the entry of `out` whose key equals `s`, if there is one.
fn find_key(out: &Vec<(String, i64)>, s: &String) -> (r: Option<usize>)
    ensures
        match r {
            Some(j) => j < out@.len() && out@[j as int].0@ == s@,
            None => forall|j: int| 0 <= j < out@.len() ==> #[trigger] out@[j].0@ != s@,
        },
{
    let mut i: usize = 0;
    while i < out.len()
        invariant
            0 <= i <= out@.len(),
            forall|j: int| 0 <= j < i ==> #[trigger] out@[j].0@ != s@,
        decreases out@.len() - i,
    {
        if out[i].0 == *s {
            return Some(i);
        }
        i = i + 1;
    }
    None
}

/// Whether `v` holds a string equal to `s`.
fn contains_string(v: &Vec<String>, s: &String) -> (r: bool)
    ensures
        r == string_views(v@).contains(s@),
{
    let mut i: usize = 0;
    while i < v.len()
        invariant
            0 <= i <= v@.len(),
            forall|j: int| 0 <= j < i ==> v@[j]@ != s@,
        decreases v@.len() - i,
    {
        if v[i] == *s {
            assert(string_views(v@)[i as int] == s@);
            return true;
        }
        i = i + 1;
    }
    false
}

} // verus!
