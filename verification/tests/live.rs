//! What is measured live.

use speed_panel::aggregate::Aggregator;
use speed_panel::ckpt::CkptListing;
use speed_panel::live::{
    build_payload, cal_file_state, cal_state_from, fill_net, is_active, overlay, speed_counts,
    tick_logged, CalFile, LiveReading, LiveTask, RoundTracker,
};
use speed_panel::metrics::{Call, LiveSource, Rate, Snapshot, Speed};
use speed_panel::monitor::{NetIo, NetNow, TickInput};
use speed_panel::platform::{Counters, IfAddr};
use speed_panel::shell::{FloatStyle, Mode};
use speed_panel::snapshot_guard::{GuardFile, SnapshotGuard};

const DAY: (i32, u32, u32) = (2026, 9, 19);
const START: i64 = 1_790_000_000_000;

fn base(now: i64) -> Snapshot<u32> {
    let mut agg = Aggregator::new(DAY);
    agg.ingest(Call {
        id: "a".into(),
        started_ms: START - 3_000,
        first_token_ms: Some(START - 2_000),
        completed_ms: START,
        gen_ms: 2_000,
        output: 100,
        reasoning: 20,
        input: 1_000,
        cache_creation: 30,
        cache_read: 700,
        session: "s".into(),
    });
    agg.snapshot(now)
}

fn reading(available: bool, streaming: bool, awaiting: bool, tps: u32) -> LiveReading<u32> {
    LiveReading {
        available,
        streaming,
        ramping: true,
        awaiting,
        tps,
        slow: tps < 1,
        tasks: vec![LiveTask { pid: 9, session: None, n_sessions: 2, tps, streaming: true }],
    }
}

fn newest(s: &Snapshot<u32>) -> Speed<u32> {
    s.spark[s.spark.len() - 1]
}

const NONE: Speed<u32> = Speed::Rated(Rate { tokens: 0, ms: 0 });
const RECENT: Speed<u32> = Speed::Rated(Rate { tokens: 120, ms: 2_000 });

#[test]
fn measured_speed_comes_first() {
    let s = overlay(base(START + 1), &reading(true, true, false, 88), true, true);
    assert_eq!(s.current_tps, Speed::Measured(88));
    assert_eq!(newest(&s), Speed::Measured(88));
    assert!(s.is_live && s.ramping && !s.is_estimating && !s.is_starting);
    assert_eq!(s.live_source, LiveSource::Io);
    assert_eq!(s.tasks.len(), 1);
    assert_eq!((s.tasks[0].pid, s.tasks[0].session.as_str(), s.tasks[0].n_sessions), (9, "", 2));
    assert!(speed_counts(&s, true));
    assert!(!speed_counts(&s, false));
}

#[test]
fn nothing_is_shown_before_the_first_byte() {
    let s = overlay(base(START + 1), &reading(true, true, true, 0), true, true);
    assert_eq!(s.current_tps, NONE);
    assert!(s.is_live && s.is_starting && !s.is_estimating);
    assert!(s.tasks.is_empty());
    assert!(!speed_counts(&s, true));
}

#[test]
fn recent_speed_stands_in_for_a_silent_stream() {
    let s = overlay(base(START + 1), &reading(true, true, false, 0), true, true);
    assert_eq!(s.current_tps, RECENT);
    assert_eq!(newest(&s), RECENT);
    assert!(s.is_live && s.is_estimating);
    assert_eq!(s.live_source, LiveSource::Window);
    assert!(s.tasks.is_empty());
    assert!(speed_counts(&s, false));
}

#[test]
fn idle_shows_no_speed() {
    for (live, inflight, saw) in [
        (reading(true, false, false, 5), true, true),
        (reading(false, false, false, 5), false, false),
        (reading(false, true, false, 5), true, true),
    ] {
        let s = overlay(base(START + 1), &live, inflight, saw);
        assert_eq!(s.current_tps, NONE);
        assert_eq!(newest(&s), NONE);
        assert!(!s.is_estimating && !s.ramping && !s.is_live);
        assert_eq!(s.live_source, LiveSource::Idle);
        assert!(s.tasks.is_empty());
        assert!(!is_active(&s));
    }
}

#[test]
fn calls_without_any_process() {
    let s = overlay(base(START + 1), &reading(false, false, false, 0), true, false);
    assert_eq!(s.current_tps, RECENT);
    assert!(s.is_estimating && is_active(&s));
    let s = overlay(base(START + 900_000), &reading(false, false, false, 0), true, false);
    assert_eq!(s.current_tps, NONE);
    assert!(s.is_starting && !s.is_estimating);
    assert_eq!(s.live_source, LiveSource::Window);
}

fn net() -> NetNow {
    let mut io = NetIo::checked_new(DAY, &None, &CkptListing::Blocked, START).unwrap();
    let look = |now_ms: i64, up: u64| TickInput {
        today: DAY,
        day_start_ms: START,
        now_ms,
        mono_ns: 0,
        counters: Counters::Addresses(vec![IfAddr { name: "en0".into(), out_bytes: up, in_bytes: 2 * up }]),
        procs: Vec::new(),
        tables: None,
        listing: CkptListing::Blocked,
    };
    io.tick(&look(START, 10));
    io.tick(&look(START + 100, 25)).0
}

#[test]
fn network_is_filled_in() {
    let s = fill_net(base(START + 1), net());
    assert!(s.net_available);
    assert_eq!((s.net_up_today, s.net_down_today), (15, 30));
    assert_eq!(s.net_up_bps, Rate { tokens: 15, ms: 100 });
    assert_eq!(s.net_sess_up_today, (1_000 + 30 - 700) * 5);
    assert_eq!(s.net_sess_down_today, 120 * 400);
    assert_eq!(s.net_ckpt_status, "blocked");
    assert!(!s.net_conns_available);
    assert_eq!(s.current_tps, RECENT);
}

#[test]
fn payload_holds_everything() {
    let guard = SnapshotGuard::new(true, GuardFile::default(), Vec::new()).status(true);
    let p = build_payload(
        base(START + 1),
        "/db".to_string(),
        net(),
        &reading(true, true, false, 88),
        true,
        true,
        Mode::Float,
        FloatStyle::Pet,
        guard,
    );
    assert_eq!(p.snapshot.current_tps, Speed::Measured(88));
    assert_eq!(p.snapshot.net_up_today, 15);
    assert_eq!((p.mode.as_str(), p.float_style.as_str(), p.rollout_dir.as_str()), ("float", "pet", "/db"));
    assert!(p.guard.locked);
}

#[test]
fn a_round_is_settled_when_it_ends() {
    let mut t = RoundTracker::new();
    assert!(!t.step(true, true, 1).ended);
    assert!(t.step(true, true, 1).counts);
    assert!(!t.step(true, false, 5).counts);
    let end = t.step(false, false, 0);
    assert_eq!((end.ended, end.settled), (true, Some(2)));
    assert_eq!(t, RoundTracker::new());
    // Several processes in a round say nothing about the measurement.
    t.step(true, true, 2);
    let end = t.step(false, false, 0);
    assert_eq!((end.ended, end.settled), (true, None));
    // A speed that no process accounts for still counts.
    t.step(true, true, 0);
    assert_eq!(t.step(false, false, 0).settled, Some(1));
    // A round without a measured speed says nothing either.
    t.step(true, false, 1);
    assert_eq!(t.step(false, false, 1).settled, None);
}

#[test]
fn ticks_are_logged_now_and_then() {
    assert!(tick_logged(true, 5, 5));
    assert!(!tick_logged(false, 0, 30_000_000_000));
    assert!(tick_logged(false, 0, 30_000_000_001));
    assert!(!tick_logged(false, 9, 5));
}

#[test]
fn what_was_learned_is_forgotten_after_a_while() {
    let at = |ms: i64| format!(r#"{{"updated_ms":{ms},"samples":[1.5]}}"#);
    let two_weeks = 14 * 24 * 3600 * 1000;
    assert_eq!(cal_file_state(&at(START), START + two_weeks), CalFile::Usable);
    assert_eq!(cal_file_state(&at(START), START + two_weeks + 1), CalFile::Stale);
    assert_eq!(cal_file_state("{}", START), CalFile::Stale);
    assert_eq!(cal_file_state("[", START), CalFile::Broken);
    assert_eq!(cal_state_from(&None, START), CalFile::Broken);
}
