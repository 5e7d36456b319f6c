//! From rows of the usage database to what the panel shows.

use speed_panel::aggregate::Aggregator;
use speed_panel::chart::{checked_chart_stats, empty_chart_stats};
use speed_panel::engine::{
    chart_cutoff, model_cutoff, tokens_from_column, Batch, Engine, HistoryRow, UsageRow,
};
use speed_panel::history::HistoryStats;
use speed_panel::inflight::{candidates, SessionRows};
use speed_panel::metrics::{
    floor_div, gen_ms_from, Call, LiveSource, Rate, Snapshot, Speed, SPARK_BUCKETS,
};
use speed_panel::trend::{
    checked_model_stats, clamp_window_min, empty_model_stats, ModelUsageRow,
};

const DAY: (i32, u32, u32) = (2026, 9, 19);
const NEXT_DAY: (i32, u32, u32) = (2026, 9, 20);
const START: i64 = 1_790_000_000_000;

fn row(id: &str, completed: i64, gen_ms: i64, out: i64) -> UsageRow {
    UsageRow {
        id: id.into(),
        started_at: completed - gen_ms - 500,
        first_token_at: Some(completed - gen_ms),
        completed_at: completed,
        duration_ms: Some(gen_ms + 500),
        output_tokens: Some(out),
        reasoning_tokens: None,
        input_tokens: Some(7),
        cache_creation_input_tokens: Some(2),
        cache_read_input_tokens: Some(3),
        session_id: "s".into(),
    }
}

fn batch(rows: Vec<UsageRow>) -> Option<Batch> {
    Some(Batch { history: Vec::new(), rows: Some(rows) })
}

fn poll(e: &mut Engine, day: (i32, u32, u32), start: i64, source: Option<Batch>) -> Vec<Call> {
    assert!(e.accepts(day, start, &source));
    e.poll(day, start, source)
}

#[test]
fn columns_below_zero_count_nothing() {
    assert_eq!(tokens_from_column(None), 0);
    assert_eq!(tokens_from_column(Some(-5)), 0);
    assert_eq!(tokens_from_column(Some(12)), 12);
}

#[test]
fn generation_time_is_from_first_token() {
    assert_eq!(gen_ms_from(Some(100), 400, Some(900)), 300);
    assert_eq!(gen_ms_from(Some(400), 400, Some(900)), 900);
    assert_eq!(gen_ms_from(None, 400, Some(-1)), 50);
    assert_eq!(gen_ms_from(Some(390), 400, None), 50);
    assert_eq!(floor_div(-1, 10), -1);
    assert_eq!(floor_div(19, 10), 1);
}

#[test]
fn polling_again_adds_nothing() {
    let mut e = Engine::new(Some("/db".into()), DAY);
    assert_eq!(e.data_source_label(), "/db");
    assert!(e.history_due());
    let now = START + 60_000;
    let first = poll(&mut e, DAY, START, batch(vec![row("a", now - 9_000, 2_000, 100)]));
    assert_eq!(first.len(), 1);
    assert_eq!(first[0].gen_ms, 2_000);
    assert!(!e.history_due());
    let again = poll(&mut e, DAY, START, batch(vec![row("a", now - 9_000, 2_000, 100)]));
    assert!(again.is_empty());
    let more = poll(
        &mut e,
        DAY,
        START,
        batch(vec![row("a", now - 9_000, 2_000, 100), row("b", now - 1_000, 1_000, 400)]),
    );
    assert_eq!(more.len(), 1);
    assert_eq!(more[0].id, "b");
    assert_eq!(e.calls().len(), 2);
    let s: Snapshot<u8> = e.snapshot(now);
    assert_eq!(s.calls_today, 2);
    assert_eq!(s.avg_tps, Rate { tokens: 500, ms: 3_000 });
    assert_eq!(s.total_tokens, 518);
    assert_eq!(s.cache_read_tokens, 6);
    assert_eq!(s.rollout_dir, "/db");
    assert_eq!(s.hist_avg_tps, Rate { tokens: 500, ms: 3_000 });
    assert_eq!(s.hist_max_tps, Rate { tokens: 400, ms: 1_000 });
}

#[test]
fn nothing_read_changes_nothing() {
    let mut e = Engine::new(None, DAY);
    assert_eq!(e.data_source_label(), "(未找到 ~/.zcode/cli/db/db.sqlite)");
    assert!(poll(&mut e, DAY, START, None).is_empty());
    assert!(e.history_due());
    let failed = Some(Batch { history: Vec::new(), rows: None });
    assert!(poll(&mut e, DAY, START, failed).is_empty());
    assert!(e.calls().is_empty());
}

#[test]
fn another_day_starts_over() {
    let mut e = Engine::new(None, DAY);
    poll(&mut e, DAY, START, batch(vec![row("a", START + 5_000, 1_000, 100)]));
    assert_eq!(e.calls().len(), 1);
    let next = START + 86_400_000;
    poll(&mut e, NEXT_DAY, next, batch(vec![row("b", next + 5_000, 1_000, 100)]));
    assert_eq!(e.calls().len(), 1);
    assert_eq!(e.calls()[0].id, "b");
    let s: Snapshot<u8> = e.snapshot(next + 6_000);
    assert_eq!(s.calls_today, 1);
    assert_eq!(s.hist_avg_tps, Rate { tokens: 200, ms: 2_000 });
}

/// A call belongs to the day on which it finished.
#[test]
fn calls_belong_to_the_day_they_finish_on() {
    let mut e = Engine::new(None, DAY);
    poll(
        &mut e,
        DAY,
        START,
        batch(vec![row("over", START, 60_000, 100), row("before", START - 1, 1_000, 100)]),
    );
    assert_eq!(e.calls().len(), 1);
    assert_eq!(e.calls()[0].id, "over");
}

#[test]
fn history_is_read_once() {
    let old = |eff: i64| HistoryRow {
        first_token_at: Some(0),
        completed_at: 2_000,
        duration_ms: None,
        output_tokens: Some(eff),
        reasoning_tokens: Some(10),
    };
    let mut e = Engine::new(None, DAY);
    poll(&mut e, DAY, START, Some(Batch { history: vec![old(490)], rows: Some(Vec::new()) }));
    poll(&mut e, DAY, START, Some(Batch { history: vec![old(990)], rows: Some(Vec::new()) }));
    let s: Snapshot<u8> = e.snapshot(START + 1);
    assert_eq!(s.hist_avg_tps, Rate { tokens: 500, ms: 2_000 });
    assert_eq!(s.hist_max_tps, Rate { tokens: 500, ms: 2_000 });
    assert_eq!(s.calls_today, 0);
}

#[test]
fn sums_that_are_too_large_are_not_taken() {
    let mut e = Engine::new(None, DAY);
    poll(&mut e, DAY, START, batch(vec![row("a", START + 5_000, 1_000, i64::MAX)]));
    poll(&mut e, DAY, START, batch(vec![row("b", START + 5_000, 1_000, i64::MAX)]));
    let third = batch(vec![row("c", START + 5_000, 1_000, i64::MAX)]);
    assert!(!e.accepts(DAY, START, &third));
    let empty = Some(Batch { history: Vec::new(), rows: Some(Vec::new()) });
    assert!(e.accepts(DAY, START, &empty));
}

#[test]
fn windows_reach_back_from_now() {
    assert_eq!(model_cutoff(60, START), START - 3_600_000);
    assert_eq!(chart_cutoff(1, START), START - 900_000);
    assert_eq!(clamp_window_min(35), 10);
    let e = Engine::new(None, DAY);
    let p = e.model_stats(None, 40, START).unwrap();
    assert_eq!(p, empty_model_stats(60, START));
    let c = e.chart_stats(None, 40, START).unwrap();
    assert_eq!(c, empty_chart_stats(60, START));
    let huge = || {
        vec![
            ModelUsageRow::from_columns("m".into(), None, START, None, Some(i64::MAX), Some(i64::MAX)),
            ModelUsageRow::from_columns("m".into(), None, START, None, Some(i64::MAX), None),
        ]
    };
    assert!(checked_model_stats(huge(), 10, START).is_none());
    assert!(checked_chart_stats(huge(), 15, START).is_none());
    assert!(e.model_stats(Some(huge()), 10, START).is_none());
}

/// All parts of the whole together are the whole.
#[test]
fn shares_make_the_whole() {
    let r = |model: &str, out: i64| {
        ModelUsageRow::from_columns(model.into(), None, START - 1, Some(100), Some(out), None)
    };
    let p = checked_model_stats(vec![r("a", 30), r("b", 20), r("c", 50), r("a", 0)], 10, START).unwrap();
    assert_eq!(p.series.len(), 3);
    assert_eq!(p.series.iter().map(|s| s.share.part).sum::<u64>(), 100);
    assert!(p.series.iter().all(|s| s.share.whole == 100));
    assert_eq!(p.series[0].model, "c");
}

fn text(s: &str) -> String {
    s.into()
}

#[test]
fn a_session_runs_while_its_newest_answer_is_not_done() {
    let e = Engine::new(None, DAY);
    let sessions = vec![
        SessionRows {
            session: text("one"),
            rows: vec![
                (START - 10, text(r#"{"role":"user"}"#)),
                (START - 20, text(r#"{"role":"assistant","time":{"created":1}"#)),
                (START - 30, text(r#"{"role":"assistant","time":{"created":1,"completed":2}"#)),
            ],
        },
        SessionRows {
            session: text("two"),
            rows: vec![(START - 5, text(r#"{"role":"assistant","time":{"created":1,"completed":2}"#))],
        },
    ];
    assert_eq!(e.call_in_flight(&sessions, START), vec![(text("one"), START - 20)]);
    assert_eq!(
        candidates(&sessions),
        vec![(text("one"), START - 20, false), (text("two"), START - 5, true)]
    );
    assert!(e.call_in_flight(&sessions, START + 700_000).is_empty());
}

fn done(id: &str, completed: i64, gen_ms: i64, out: u64) -> Call {
    Call {
        id: id.into(),
        started_ms: completed - gen_ms,
        first_token_ms: Some(completed - gen_ms),
        completed_ms: completed,
        gen_ms,
        output: out,
        reasoning: 0,
        input: 0,
        cache_creation: 0,
        cache_read: 0,
        session: id.into(),
    }
}

#[test]
fn effective_tokens_are_answer_and_reasoning() {
    let mut c = done("a", 1_000, 20, 30);
    c.reasoning = 12;
    assert_eq!(c.effective_out(), 42);
    assert_eq!(c.counted_ms(), 50);
    assert_eq!(c.clone(), c);
}

/// The recent speed is shown for a while after a call, and then no longer.
#[test]
fn estimate_ends_after_a_while() {
    let mut agg = Aggregator::new(DAY);
    agg.ingest(done("a", START, 2_000, 100));
    let s: Snapshot<u8> = agg.snapshot(START + 60_000);
    assert!(s.is_estimating);
    assert_eq!(s.current_tps, Speed::Rated(Rate { tokens: 100, ms: 2_000 }));
    assert_eq!(s.spark[SPARK_BUCKETS - 1], s.current_tps);
    let s: Snapshot<u8> = agg.snapshot(START + 60_001);
    assert!(!s.is_estimating);
    assert_eq!(s.current_tps, Speed::Rated(Rate::none()));
    assert_eq!(s.last_activity_ms, START);
}

#[test]
fn order_of_calls_does_not_matter() {
    let (a, b, c) = (done("a", START, 2_000, 100), done("b", START + 9, 70, 5), done("c", START - 8, 9, 1));
    let mut x = Aggregator::new(DAY);
    let mut y = Aggregator::new(DAY);
    for call in [&a, &b, &c] {
        x.ingest(call.clone());
    }
    for call in [&c, &b, &a] {
        y.ingest(call.clone());
    }
    let (s, t): (Snapshot<u8>, Snapshot<u8>) = (x.snapshot(START + 100), y.snapshot(START + 100));
    assert_eq!(s, t);
    assert_eq!(s.last_call_tps, Rate { tokens: 5, ms: 70 });
    assert_eq!(s.sessions_today, 3);
}

#[test]
fn rollover_forgets_the_calls_of_another_day() {
    let mut agg = Aggregator::new(DAY);
    agg.ingest(done("a", START, 2_000, 100));
    agg.rollover_if_needed(DAY);
    assert_eq!(agg.calls().len(), 1);
    agg.rollover_if_needed(NEXT_DAY);
    assert!(agg.calls().is_empty());
    let s: Snapshot<u8> = agg.snapshot(START);
    assert_eq!(s.live_source, LiveSource::Idle);
    assert_eq!(s.avg_tps, Rate::none());
}

#[test]
fn counts_that_are_too_large_do_not_fit() {
    let mut agg = Aggregator::new(DAY);
    agg.ingest(done("a", START, 2_000, u64::MAX));
    assert!(agg.fits(START));
    agg.ingest(done("b", START, 2_000, 1));
    assert!(!agg.fits(START));
}

#[test]
fn a_record_is_only_broken() {
    let mut h = HistoryStats::default();
    h.fold(Some(0), 2_000, 2_000, 1_000);
    let record = h.max_tps;
    h.fold(Some(0), 2_000, 2_000, 999);
    assert_eq!(h.max_tps, record);
    h.fold(Some(0), 2_000, 2_000, 1_001);
    assert!(h.max_tps.exceeds(&record));
    assert!(!record.exceeds(&h.max_tps));
    assert!(Rate::none().zero());
    assert!(record.exceeds(&Rate::none()));
    assert!(!Rate::none().exceeds(&Rate::none()));
}

#[test]
fn sources_have_names() {
    assert_eq!(LiveSource::Io.as_str(), "io");
    assert_eq!(LiveSource::Window.as_str(), "window");
    assert_eq!(LiveSource::Idle.as_str(), "idle");
}

/// The slots of the curves lie at fixed times.
#[test]
fn curves_are_fixed_within_a_slot() {
    let start = START / 10_000 * 10_000;
    let rows = || {
        vec![
            ModelUsageRow::from_columns("a".into(), None, start - 1, Some(100), Some(30), None),
            ModelUsageRow::from_columns("b".into(), None, start - 25_000, Some(200), Some(50), None),
        ]
    };
    let early = checked_chart_stats(rows(), 15, start).unwrap();
    let late = checked_chart_stats(rows(), 15, start + 9_999).unwrap();
    assert_eq!(early.buckets, late.buckets);
    assert_eq!(early.buckets[88], Rate { tokens: 30, ms: 100 });
    assert_eq!(early.buckets[87 - 1], Rate { tokens: 50, ms: 200 });
    let next = checked_chart_stats(rows(), 15, start + 10_000).unwrap();
    assert_eq!(next.buckets[87], Rate { tokens: 30, ms: 100 });

    let mut agg = Aggregator::new(DAY);
    agg.ingest(done("a", start - 1, 100, 30));
    let (s, t): (Snapshot<u8>, Snapshot<u8>) = (agg.snapshot(start), agg.snapshot(start + 9_999));
    assert_eq!(s.spark, t.spark);
    assert_eq!(s.spark[88], Speed::Rated(Rate { tokens: 30, ms: 100 }));
}

/// The time for which the recent speed is shown follows the pauses between calls, within bounds.
#[test]
fn pauses_bound_the_estimate() {
    let shown = |gap: i64, after: i64| {
        let mut agg = Aggregator::new(DAY);
        for k in 0..5 {
            agg.ingest(done(&format!("c{k}"), START + k * gap, 1_000, 10));
        }
        let s: Snapshot<u8> = agg.snapshot(START + 4 * gap + after);
        s.is_estimating
    };
    assert!(shown(5_000, 20_000));
    assert!(!shown(5_000, 20_001));
    assert!(shown(100_000, 100_000));
    assert!(!shown(100_000, 100_001));
    assert!(shown(500_000, 240_000));
    assert!(!shown(500_000, 240_001));
}

/// What counted for all time never falls.
#[test]
fn history_only_grows() {
    let mut h = HistoryStats::default();
    let mut before = h;
    for (ft, gen_ms, eff) in [(Some(0), 9_000, 900), (None, 10, 3), (Some(0), 2_000, 400)] {
        h.fold(ft, 10_000, gen_ms, eff);
        assert!(h.total_eff >= before.total_eff && h.total_gen_ms >= before.total_gen_ms);
        assert!(!before.max_tps.exceeds(&h.max_tps));
        before = h;
    }
    assert_eq!(h.max_tps, Rate { tokens: 400, ms: 2_000 });
}
