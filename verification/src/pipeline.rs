//! The decisions of a combined scan-and-enrich run: how the reports of
//! successive enrichment passes add up, and when the enrich loop idles,
//! makes its final pass, or ends.

use vstd::prelude::*;

use crate::enrich::EnrichReport;

verus! {

/// How long the enrich loop idles between passes while the scan runs, in
/// milliseconds.
pub const ENRICH_POLL_MS: u64 = 60_000;

/// The idle step of the enrich loop, in milliseconds.
pub const IDLE_STEP_MS: u64 = 250;

/// The totals after folding one more pass into `acc`: fetches and failures
/// add up, skips take the latest pass's view.
pub open spec fn accumulated(acc: EnrichReport, pass: EnrichReport) -> EnrichReport {
    EnrichReport {
        artists_fetched: (acc.artists_fetched + pass.artists_fetched) as usize,
        artists_skipped: pass.artists_skipped,
        artists_failed: (acc.artists_failed + pass.artists_failed) as usize,
        tracks_fetched: (acc.tracks_fetched + pass.tracks_fetched) as usize,
        tracks_skipped: pass.tracks_skipped,
        tracks_failed: (acc.tracks_failed + pass.tracks_failed) as usize,
        albums_fetched: (acc.albums_fetched + pass.albums_fetched) as usize,
        albums_skipped: pass.albums_skipped,
        albums_failed: (acc.albums_failed + pass.albums_failed) as usize,
        elapsed_ms: acc.elapsed_ms,
    }
}

/// The sums fit in machine integers.
pub open spec fn fits(acc: EnrichReport, pass: EnrichReport) -> bool {
    &&& acc.artists_fetched + pass.artists_fetched <= usize::MAX
    &&& acc.artists_failed + pass.artists_failed <= usize::MAX
    &&& acc.tracks_fetched + pass.tracks_fetched <= usize::MAX
    &&& acc.tracks_failed + pass.tracks_failed <= usize::MAX
    &&& acc.albums_fetched + pass.albums_fetched <= usize::MAX
    &&& acc.albums_failed + pass.albums_failed <= usize::MAX
}

/// Fold one pass's report into the accumulated totals.
pub fn accumulate(acc: &mut EnrichReport, pass: &EnrichReport)
    requires
        fits(*old(acc), *pass),
    ensures
        *final(acc) == accumulated(*old(acc), *pass),
{
    acc.artists_fetched = acc.artists_fetched + pass.artists_fetched;
    acc.artists_failed = acc.artists_failed + pass.artists_failed;
    acc.artists_skipped = pass.artists_skipped;
    acc.tracks_fetched = acc.tracks_fetched + pass.tracks_fetched;
    acc.tracks_failed = acc.tracks_failed + pass.tracks_failed;
    acc.tracks_skipped = pass.tracks_skipped;
    acc.albums_fetched = acc.albums_fetched + pass.albums_fetched;
    acc.albums_failed = acc.albums_failed + pass.albums_failed;
    acc.albums_skipped = pass.albums_skipped;
}

/// Folding two passes in turn sums their fetches and failures and keeps the
/// second pass's skips.
pub proof fn law_accumulate_sums_and_keeps_latest_skips(
    acc: EnrichReport,
    first: EnrichReport,
    second: EnrichReport,
)
    requires
        fits(acc, first),
        fits(accumulated(acc, first), second),
    ensures
        accumulated(accumulated(acc, first), second).artists_fetched == acc.artists_fetched
            + first.artists_fetched + second.artists_fetched,
        accumulated(accumulated(acc, first), second).tracks_failed == acc.tracks_failed
            + first.tracks_failed + second.tracks_failed,
        accumulated(accumulated(acc, first), second).albums_fetched == acc.albums_fetched
            + first.albums_fetched + second.albums_fetched,
        accumulated(accumulated(acc, first), second).artists_skipped == second.artists_skipped,
        accumulated(accumulated(acc, first), second).tracks_skipped == second.tracks_skipped,
        accumulated(accumulated(acc, first), second).albums_skipped == second.albums_skipped,
{
}

/// What the enrich loop does next.
#[derive(Debug, Clone, Copy, PartialEq, Eq, Structural)]
pub enum LoopStep {
    /// Idle, then run another pass.
    Idle,
    /// The scan has finished: run one last pass for its tail.
    FinalPass,
    /// The final pass is done.
    Done,
}

/// After a pass (`None` when it failed; a failed pass is retried on the
/// next poll), fold its report in and decide the next step.
pub fn after_pass(acc: &mut EnrichReport, pass: Option<&EnrichReport>, stop_requested: bool, was_final: bool) -> (r: LoopStep)
    requires
        match pass {
            Some(p) => fits(*old(acc), *p),
            None => true,
        },
    ensures
        match pass {
            Some(p) => *final(acc) == accumulated(*old(acc), *p),
            None => *final(acc) == *old(acc),
        },
        r == (if was_final {
            LoopStep::Done
        } else if stop_requested {
            LoopStep::FinalPass
        } else {
            LoopStep::Idle
        }),
{
    if let Some(p) = pass {
        accumulate(acc, p);
    }
    if was_final {
        LoopStep::Done
    } else if stop_requested {
        LoopStep::FinalPass
    } else {
        LoopStep::Idle
    }
}

/// Keep idling while the poll interval has not elapsed and the scan is
/// still running.
pub fn keep_idling(idled_ms: u64, stop_requested: bool) -> (r: bool)
    ensures
        r == (idled_ms < ENRICH_POLL_MS && !stop_requested),
{
    idled_ms < ENRICH_POLL_MS && !stop_requested
}

} // verus!
