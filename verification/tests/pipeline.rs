use sonagram::enrich::EnrichReport;
use sonagram::pipeline::{accumulate, after_pass, keep_idling, LoopStep};
use sonagram::progress::{unix_now, unix_seconds, ProgressWriter};

#[test]
fn accumulate_sums_fetches_and_keeps_latest_skips() {
    let mut acc = EnrichReport::default();
    let mut pass = EnrichReport {
        artists_fetched: 3,
        artists_skipped: 1,
        tracks_failed: 2,
        ..EnrichReport::default()
    };
    accumulate(&mut acc, &pass);
    pass.artists_fetched = 2;
    pass.artists_skipped = 4;
    accumulate(&mut acc, &pass);
    assert_eq!(acc.artists_fetched, 5, "fetches sum across passes");
    assert_eq!(acc.artists_skipped, 4, "skips reflect the latest pass");
    assert_eq!(acc.tracks_failed, 4, "failures sum across passes");
}

#[test]
fn the_enrich_loop_idles_then_makes_a_final_pass() {
    let mut acc = EnrichReport::default();
    let pass = EnrichReport { albums_fetched: 2, ..EnrichReport::default() };
    assert_eq!(after_pass(&mut acc, Some(&pass), false, false), LoopStep::Idle);
    assert_eq!(after_pass(&mut acc, None, true, false), LoopStep::FinalPass);
    assert_eq!(after_pass(&mut acc, Some(&pass), true, true), LoopStep::Done);
    assert_eq!(acc.albums_fetched, 4);
    assert!(keep_idling(59_750, false));
    assert!(!keep_idling(60_000, false));
    assert!(!keep_idling(0, true));
}

#[test]
fn progress_writes_are_throttled_unless_forced() {
    let mut w = ProgressWriter::new("/lib/.sonagram/p.json".to_string(), 1000);
    assert!(w.should_write(5_000, false), "first write lands");
    assert!(!w.should_write(5_500, false));
    assert!(w.should_write(5_600, true), "forced writes land");
    assert!(!w.should_write(6_000, false));
    assert!(w.should_write(6_600, false));
    assert_eq!(w.last_ms, Some(6_600));
}

#[test]
fn clock_readings_become_signed_seconds() {
    assert_eq!(unix_seconds(true, 1_700_000_000), 1_700_000_000);
    assert_eq!(unix_seconds(false, 5), -5);
    assert!(unix_now() > 1_600_000_000);
}
