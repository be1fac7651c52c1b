//! Properties that relate several operations of the record store.

use vstd::prelude::*;

use crate::db::{
    appends_one, count_with, instance_id_seq, instance_ids, is_breakdown, key_of,
    lemma_count_absent, Db, DeploymentRow, GroupKey,
};

verus! {

/// Counting follows inserting: starting from an empty store, after each of
/// any number of successful inserts (each adds exactly one row), the store
/// holds exactly as many rows as there were inserts, which is what
/// `count_deployments` returns.
pub proof fn lemma_count_tracks_inserts(history: Seq<Db>)
    requires
        history.len() >= 1,
        history[0].rows().len() == 0,
        forall|i: int| 0 <= i < history.len() - 1 ==> appends_one(#[trigger] history[i].rows(), history[i + 1].rows()),
    ensures
        history.last().rows().len() == history.len() - 1,
    decreases history.len(),
{
    if history.len() > 1 {
        let shorter = history.drop_last();
        assert forall|i: int| 0 <= i < shorter.len() - 1 implies appends_one(#[trigger] shorter[i].rows(), shorter[i + 1].rows()) by {
            assert(shorter[i] == history[i] && shorter[i + 1] == history[i + 1]);
        }
        lemma_count_tracks_inserts(shorter);
        assert(appends_one(history[history.len() - 2].rows(), history[history.len() - 1].rows()));
    }
}

/// Distinct instances are the identifiers that occur: a value counts
/// exactly when some stored row carries it, and there are never more of
/// them than rows.
pub proof fn lemma_distinct_instances(rows: Seq<DeploymentRow>)
    ensures
        instance_ids(rows).len() <= rows.len(),
        forall|s: Seq<char>| #[trigger] instance_ids(rows).contains(s) <==> exists|m: int| 0 <= m < rows.len() && rows[m].instance_id@ == s,
{
    instance_id_seq(rows).lemma_cardinality_of_set();
    assert forall|s: Seq<char>| #[trigger] instance_ids(rows).contains(s) <==> exists|m: int| 0 <= m < rows.len() && rows[m].instance_id@ == s by {
        if instance_ids(rows).contains(s) {
            let m = choose|m: int| 0 <= m < instance_id_seq(rows).len() && instance_id_seq(rows)[m] == s;
            assert(rows[m].instance_id@ == s);
        }
        if exists|m: int| 0 <= m < rows.len() && rows[m].instance_id@ == s {
            let m = choose|m: int| 0 <= m < rows.len() && rows[m].instance_id@ == s;
            assert(instance_id_seq(rows)[m] == s);
        }
    }
}

/// Distinct instances grow by what an insert carries: after one row is
/// added, the distinct identifiers are those before plus the new row's, so
/// a repeated identifier leaves their number unchanged and a new one adds
/// one.
pub proof fn lemma_distinct_after_insert(before: Seq<DeploymentRow>, after: Seq<DeploymentRow>)
    requires
        appends_one(before, after),
    ensures
        instance_ids(after) == instance_ids(before).insert(after.last().instance_id@),
        instance_ids(before).contains(after.last().instance_id@) ==> instance_ids(after).len() == instance_ids(before).len(),
        !instance_ids(before).contains(after.last().instance_id@) ==> instance_ids(after).len() == instance_ids(before).len() + 1,
{
    assert(after =~= before.push(after.last()));
    assert(instance_id_seq(after) =~= instance_id_seq(before).push(after.last().instance_id@));
    instance_id_seq(before).lemma_push_to_set_commute(after.last().instance_id@);
    instance_id_seq(before).lemma_cardinality_of_set();
    if instance_ids(before).contains(after.last().instance_id@) {
        assert(instance_ids(before).insert(after.last().instance_id@) =~= instance_ids(before));
    }
}


/// A value that every row holds in column `k` is counted once per row.
proof fn lemma_count_all(rows: Seq<DeploymentRow>, k: GroupKey, a: Seq<char>)
    requires
        forall|i: int| 0 <= i < rows.len() ==> key_of(#[trigger] rows[i], k) == a,
    ensures
        count_with(rows, k, a) == rows.len(),
    decreases rows.len(),
{
    if rows.len() > 0 {
        assert(key_of(rows[rows.len() - 1], k) == a);
        lemma_count_all(rows.drop_last(), k, a);
    }
}

/// Repeated identical reports accumulate: when every stored row carries the
/// same instance identifier `s` and the same architecture `a`, the only
/// distinct instance is `s`, and an architecture breakdown has exactly one
/// entry, for `a`, whose count is the number of rows.
pub proof fn lemma_repeated_reports(
    rows: Seq<DeploymentRow>,
    s: Seq<char>,
    a: Seq<char>,
    out: Seq<(String, i64)>,
)
    requires
        rows.len() >= 1,
        forall|i: int| 0 <= i < rows.len() ==> (#[trigger] rows[i]).instance_id@ == s && rows[i].architecture@ == a,
        is_breakdown(rows, GroupKey::Architecture, out),
    ensures
        instance_ids(rows) == set![s],
        instance_ids(rows).len() == 1,
        out.len() == 1,
        out[0].0@ == a,
        out[0].1 == rows.len(),
{
    assert forall|i: int| 0 <= i < rows.len() implies key_of(#[trigger] rows[i], GroupKey::Architecture) == a by {
        assert(rows[i].architecture@ == a);
    }
    lemma_count_all(rows, GroupKey::Architecture, a);
    assert(key_of(rows[0], GroupKey::Architecture) == a);
    let j0 = choose|j: int| 0 <= j < out.len() && #[trigger] out[j].0@ == #[trigger] key_of(rows[0], GroupKey::Architecture);
    assert forall|j: int| 0 <= j < out.len() implies #[trigger] out[j].0@ == a by {
        if out[j].0@ != a {
            assert forall|m: int| 0 <= m < rows.len() implies key_of(#[trigger] rows[m], GroupKey::Architecture) != out[j].0@ by {
                assert(rows[m].architecture@ == a);
            }
            lemma_count_absent(rows, GroupKey::Architecture, out[j].0@);
            assert(out[j].1 >= 1);
        }
    }
    if out.len() >= 2 {
        assert(out[0].0@ == a && out[1].0@ == a);
    }
    assert(instance_id_seq(rows)[0] == s);
    assert forall|x: Seq<char>| instance_ids(rows).contains(x) <==> set![s].contains(x) by {
        if instance_ids(rows).contains(x) {
            let i = choose|i: int| 0 <= i < instance_id_seq(rows).len() && instance_id_seq(rows)[i] == x;
            assert(rows[i].instance_id@ == s);
        }
        if x == s {
            assert(instance_id_seq(rows).contains(s));
        }
    }
    assert(instance_ids(rows) =~= set![s]);
}

} // verus!
