use vstd::prelude::*;

verus! {

#[verifier::external_type_specification]
#[verifier::external_body]
pub struct ExSystemTime(std::time::SystemTime);

/// The machine's clock as it reads now.
///
/// Relies on `std::time::SystemTime::now`. The value depends on the clock,
/// so nothing is promised of it.
#[verifier::external_body]
fn system_now() -> (r: std::time::SystemTime) {
    std::time::SystemTime::now()
}

/// Whole seconds from the Unix epoch to `t`, or `None` where `t` lies
/// before the epoch.
///
/// Relies on `SystemTime::duration_since`, which reports a time before the
/// epoch as an error, and on `Duration::as_secs` for the whole seconds.
#[verifier::external_body]
fn seconds_since_epoch(t: &std::time::SystemTime) -> (r: Option<u64>) {
    match t.duration_since(std::time::UNIX_EPOCH) {
        Ok(d) => Some(d.as_secs()),
        Err(_) => None,
    }
}

/// The current time, in whole seconds since the Unix epoch (UTC); `None`
/// where the clock reads earlier than the epoch or too far after it for an
/// `i64`.
pub(crate) fn now_unix_seconds() -> (r: Option<i64>)
    ensures
        r matches Some(s) ==> s >= 0,
{
    let now = system_now();
    match seconds_since_epoch(&now) {
        Some(s) => {
            if s <= i64::MAX as u64 {
                Some(s as i64)
            } else {
                None
            }
        },
        None => None,
    }
}

} // verus!
