//! Best-effort progress snapshots: the wall-clock stamp they carry and the
//! throttle that decides when one is written.

use vstd::prelude::*;

verus! {

/// The negation of a machine integer, wrapping at its minimum.
pub open spec fn wrapping_negated(x: i64) -> i64 {
    if x == i64::MIN {
        x
    } else {
        (-x) as i64
    }
}

/// Whole seconds of a time relative to the Unix epoch: positive after it,
/// negative before it (the count taken as a machine integer, as a cast
/// does).
pub open spec fn unix_seconds_of(after_epoch: bool, secs: u64) -> i64 {
    if after_epoch {
        secs as i64
    } else {
        wrapping_negated(secs as i64)
    }
}

/// `SystemTime::now().duration_since(UNIX_EPOCH)`: `(true, secs)` for the
/// whole seconds since the epoch, `(false, secs)` for those before it when
/// the clock reads earlier. The value is the clock's.
#[verifier::external_body]
fn system_clock_seconds() -> (r: (bool, u64)) {
    match std::time::SystemTime::now().duration_since(std::time::UNIX_EPOCH) {
        Ok(d) => (true, d.as_secs()),
        Err(e) => (false, e.duration().as_secs()),
    }
}

/// Convert a clock reading to signed seconds since the epoch.
pub fn unix_seconds(after_epoch: bool, secs: u64) -> (r: i64)
    ensures
        r == unix_seconds_of(after_epoch, secs),
{
    if after_epoch {
        secs as i64
    } else {
        let x = secs as i64;
        if x == i64::MIN {
            x
        } else {
            -x
        }
    }
}

/// Whole seconds since the Unix epoch, now.
pub fn unix_now() -> (r: i64)
    ensures
        exists|after: bool, secs: u64| r == unix_seconds_of(after, secs),
{
    let (after, secs) = system_clock_seconds();
    unix_seconds(after, secs)
}

/// The throttle of a progress-file writer: at most one write per interval
/// unless forced.
pub struct ProgressWriter {
    /// The progress file.
    pub path: String,
    /// The minimum time between unforced writes, in milliseconds.
    pub min_interval_ms: u64,
    /// When the last write happened, on the caller's monotonic clock.
    pub last_ms: Option<u64>,
}

impl ProgressWriter {
    /// A writer for `path`, writing at most once per `min_interval_ms`.
    pub fn new(path: String, min_interval_ms: u64) -> (w: Self)
        ensures
            w.path == path,
            w.min_interval_ms == min_interval_ms,
            w.last_ms is None,
    {
        ProgressWriter { path, min_interval_ms, last_ms: None }
    }

    /// Whether a snapshot offered at `now_ms` is written: always when
    /// forced or on the first write, else once the interval has passed since
    /// the last write (a clock that went back counts as no time passed). A
    /// write is recorded at `now_ms`.
    pub fn should_write(&mut self, now_ms: u64, force: bool) -> (written: bool)
        ensures
            written == (force || match old(self).last_ms {
                None => true,
                Some(t) => (if now_ms >= t { now_ms - t } else { 0 }) >= old(self).min_interval_ms,
            }),
            written ==> final(self).last_ms == Some(now_ms),
            !written ==> final(self).last_ms == old(self).last_ms,
            final(self).path == old(self).path,
            final(self).min_interval_ms == old(self).min_interval_ms,
    {
        if !force {
            if let Some(t) = self.last_ms {
                if now_ms.saturating_sub(t) < self.min_interval_ms {
                    return false;
                }
            }
        }
        self.last_ms = Some(now_ms);
        true
    }
}

} // verus!
