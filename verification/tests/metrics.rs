//! Speeds and counts of finished calls.

use speed_panel::aggregate::Aggregator;
use speed_panel::chart::aggregate_chart_stats;
use speed_panel::history::HistoryStats;
use speed_panel::inflight::inflight_from_rows;
use speed_panel::metrics::{Call, Rate, Snapshot, Speed, SPARK_BUCKETS};
use speed_panel::trend::{
    aggregate_model_stats, clamp_chart_window, clamp_window_min, ModelUsageRow, Share,
};

const TODAY: (i32, u32, u32) = (2026, 9, 19);

fn now_ms() -> i64 {
    std::time::SystemTime::now()
        .duration_since(std::time::UNIX_EPOCH)
        .map(|d| d.as_millis() as i64)
        .unwrap_or(0)
}

fn tps(r: Rate) -> f64 {
    if r.ms > 0 {
        r.tokens as f64 / (r.ms as f64 / 1000.0)
    } else {
        0.0
    }
}

fn speed(s: Speed<u8>) -> f64 {
    match s {
        Speed::Rated(r) => tps(r),
        Speed::Measured(_) => panic!("nothing was measured"),
    }
}

fn share(s: Share) -> f64 {
    s.part as f64 / s.whole as f64
}

/// An answer that is not done makes its session run; one that is done, one that is too old, and
/// one with a later answer that is done do not. All sessions that run are listed.
#[test]
fn inflight_from_rows_gating() {
    let now = 1_000_000i64;
    let r = inflight_from_rows(&[("new".into(), now - 3_000, false)], now);
    assert_eq!(r, vec![("new".to_string(), now - 3_000)]);
    assert_eq!(
        inflight_from_rows(
            &[
                ("a".into(), now - 60_000, false),
                ("a".into(), now - 30_000, true),
            ],
            now
        ),
        Vec::new()
    );
    let r = inflight_from_rows(
        &[
            ("a".into(), now - 40_000, true),
            ("b".into(), now - 5_000, false),
            ("c".into(), now - 20_000, false),
        ],
        now,
    );
    assert_eq!(
        r,
        vec![
            ("b".to_string(), now - 5_000),
            ("c".to_string(), now - 20_000),
        ]
    );
    assert_eq!(
        inflight_from_rows(&[("z".into(), now - 601_000, false)], now),
        Vec::new()
    );
    assert_eq!(inflight_from_rows(&[], now), Vec::new());
}

fn call(completed: i64, gen_ms: i64, out: u64, reason: u64, input: u64, session: &str) -> Call {
    Call {
        id: format!("{}-{}", completed, out),
        started_ms: completed - gen_ms - 1000,
        first_token_ms: Some(completed - gen_ms),
        completed_ms: completed,
        gen_ms,
        output: out,
        reasoning: reason,
        input,
        cache_creation: 0,
        cache_read: 0,
        session: session.into(),
    }
}

#[test]
fn snapshot_computes_speeds() {
    let now = now_ms();
    let mut agg = Aggregator::new(TODAY);
    agg.ingest(call(now - 10_000, 10_000, 500, 40, 100, "a"));
    agg.ingest(call(now - 1_000, 8_000, 240, 60, 100, "a"));
    assert!(agg.fits(now));
    let s: Snapshot<u8> = agg.snapshot(now);
    assert!((tps(s.avg_tps) - 840.0 / 18.0).abs() < 1e-9);
    assert!((speed(s.current_tps) - 840.0 / 18.0).abs() < 1e-9);
    assert!(!s.is_live);
    assert_eq!(s.total_tokens, 1040);
    assert_eq!(s.output_tokens, 740);
    assert_eq!(s.reasoning_tokens, 100);
    assert_eq!(s.sessions_today, 1);
    assert_eq!(s.spark.len(), SPARK_BUCKETS);
    assert_eq!(s.live_source.as_str(), "window");
    assert!((tps(s.last_call_tps) - 37.5).abs() < 1e-9);
}

/// The last call is the one that finished last, in whatever order calls come in.
#[test]
fn last_call_tps_uses_latest_completed() {
    let now = now_ms();
    let mut agg = Aggregator::new(TODAY);
    agg.ingest(call(now - 1_000, 4_000, 400, 0, 0, "a"));
    agg.ingest(call(now - 30_000, 2_000, 100, 0, 0, "b"));
    agg.ingest(call(now - 20_000, 5_000, 250, 50, 0, "c"));
    let s: Snapshot<u8> = agg.snapshot(now);
    assert!((tps(s.last_call_tps) - 100.0).abs() < 1e-9);
    assert!((tps(s.avg_tps) - 800.0 / 11.0).abs() < 1e-9);
}

#[test]
fn speed_excludes_time_before_first_token() {
    let now = now_ms();
    let mut agg = Aggregator::new(TODAY);
    agg.ingest(call(now - 5_000, 5_000, 500, 0, 0, "a"));
    let s1: Snapshot<u8> = agg.snapshot(now);
    assert!((tps(s1.avg_tps) - 100.0).abs() < 1e-9);
    agg.ingest(Call {
        id: "b".into(),
        started_ms: now - 30_000,
        first_token_ms: Some(now - 6_000),
        completed_ms: now - 1_000,
        gen_ms: 5_000,
        output: 500,
        reasoning: 0,
        input: 0,
        cache_creation: 0,
        cache_read: 0,
        session: "b".into(),
    });
    let s2: Snapshot<u8> = agg.snapshot(now);
    assert!((tps(s2.avg_tps) - 100.0).abs() < 1e-9);
}

fn mrow(
    model: &str,
    completed: i64,
    ft: Option<i64>,
    dur: Option<i64>,
    out: u64,
    reason: u64,
) -> ModelUsageRow {
    ModelUsageRow {
        model: model.into(),
        first_token_at: ft,
        completed_at: completed,
        duration_ms: dur,
        output_tokens: out,
        reasoning_tokens: reason,
    }
}

/// Two models in two slots each: what counts, what does not, and the order of the models.
#[test]
fn model_stats_two_models_two_buckets() {
    let now = 1_700_000_000_000i64;
    let rows = vec![
        mrow("model-a", now - 5_000, Some(now - 9_000), Some(9_000), 300, 100),
        mrow("model-a", now - 15_000, Some(now - 16_000), Some(6_000), 100, 0),
        mrow("model-b", now - 5_000, None, Some(2_000), 400, 0),
        mrow("model-b", now - 25_000, Some(now - 28_000), None, 900, 300),
        mrow("model-a", now - 700_000, Some(now - 701_000), None, 999, 0),
        mrow("model-a", now + 1_000, Some(now), None, 999, 0),
    ];
    let p = aggregate_model_stats(rows, 10, now);
    assert_eq!(p.window_min, 10);
    assert_eq!(p.bucket_ms, 10_000);
    assert_eq!(p.now_ms, now);
    assert_eq!(p.series.len(), 2);
    assert_eq!(p.series[0].model, "model-b");
    assert_eq!(p.series[1].model, "model-a");

    let b = &p.series[0];
    assert_eq!(b.buckets.len(), 60);
    assert_eq!(b.total_calls, 2);
    assert_eq!(b.total_tokens, 1600);
    assert!((tps(b.avg_tps) - 1600.0 / 5.0).abs() < 1e-9);
    assert!((tps(b.peak_tps) - 400.0).abs() < 1e-9);
    assert!((share(b.share) - 1600.0 / 2100.0).abs() < 1e-9);
    assert!((tps(b.buckets[0].tps) - 200.0).abs() < 1e-9);
    assert_eq!(b.buckets[0].calls, 1);
    assert_eq!(b.buckets[0].tokens, 400);
    assert_eq!(b.buckets[1].calls, 0);
    assert_eq!(tps(b.buckets[1].tps), 0.0);
    assert_eq!(b.buckets[1].tokens, 0);
    assert!((tps(b.buckets[2].tps) - 400.0).abs() < 1e-9);
    assert_eq!(b.buckets[2].tokens, 1200);
    assert_eq!(b.buckets.iter().map(|x| x.calls).sum::<u64>(), 2);

    let a = &p.series[1];
    assert_eq!(a.total_calls, 2);
    assert_eq!(a.total_tokens, 500);
    assert!((tps(a.avg_tps) - 100.0).abs() < 1e-9);
    assert!((tps(a.peak_tps) - 100.0).abs() < 1e-9);
    assert!((share(a.share) - 500.0 / 2100.0).abs() < 1e-9);
    assert!((tps(a.buckets[0].tps) - 100.0).abs() < 1e-9);
    assert!((tps(a.buckets[1].tps) - 100.0).abs() < 1e-9);
    assert_eq!(a.buckets[2].calls, 0);
}

/// The nearest window is taken; a call without a first token counts with its duration, and with
/// the least one where that is not known.
#[test]
fn model_stats_window_clamp_and_gen_fallback() {
    assert_eq!(clamp_window_min(999), 360);
    assert_eq!(clamp_window_min(0), 10);
    assert_eq!(clamp_window_min(40), 60);
    assert_eq!(clamp_window_min(400), 360);
    assert_eq!(clamp_window_min(60), 60);
    assert_eq!(clamp_window_min(360), 360);

    let now = 1_700_000_000_000i64;
    let rows = vec![
        mrow("m", now - 5_000, None, Some(5_000), 500, 0),
        mrow("m", now - 6_000, None, None, 100, 0),
        mrow("m", now - 7_000, Some(now - 7_000), Some(0), 100, 0),
    ];
    let p = aggregate_model_stats(rows, 999, now);
    assert_eq!(p.window_min, 360);
    assert_eq!(p.bucket_ms, 360_000);
    assert_eq!(p.series.len(), 1);
    let s = &p.series[0];
    assert_eq!(s.buckets.len(), 60);
    assert_eq!(s.total_calls, 3);
    assert_eq!(s.total_tokens, 700);
    assert!((tps(s.avg_tps) - 700.0 / 5.1).abs() < 1e-9);
    assert!((tps(s.buckets[0].tps) - 700.0 / 5.1).abs() < 1e-9);
    assert_eq!(tps(s.peak_tps), tps(s.buckets[0].tps));
    assert!((share(s.share) - 1.0).abs() < 1e-9);
    let p = aggregate_model_stats(Vec::new(), 10, now);
    assert!(p.series.is_empty());
}

/// All calls make up the average; only a long call with many tokens and a first token sets a
/// record.
#[test]
fn history_stats_fold_and_admission() {
    let now = 1_700_000_000_000i64;
    let mut h = HistoryStats::default();
    h.fold(Some(now - 5_000), now - 1_000, 4_000, 1_000);
    h.fold(Some(now - 3_000), now - 1_950, 1_050, 300);
    assert!((tps(h.max_tps) - 300.0 * 1000.0 / 1050.0).abs() < 1e-9);
    h.fold(Some(now - 100), now - 76, 24, 79);
    assert!((tps(h.max_tps) - 300.0 * 1000.0 / 1050.0).abs() < 1e-9);
    h.fold(Some(now - 300), now - 100, 200, 500);
    assert!((tps(h.max_tps) - 300.0 * 1000.0 / 1050.0).abs() < 1e-9);
    h.fold(None, now - 60_000, 10_000, 2_000);
    assert!((tps(h.max_tps) - 300.0 * 1000.0 / 1050.0).abs() < 1e-9);
    let total_eff = 1_000 + 300 + 79 + 500 + 2_000;
    let total_gen = 4_000 + 1_050 + 50 + 200 + 10_000;
    assert!((tps(h.avg_tps()) - total_eff as f64 / (total_gen as f64 / 1000.0)).abs() < 1e-9);
    assert_eq!(h.total_eff, total_eff);
    assert_eq!(h.total_gen_ms, total_gen);
    assert_eq!(tps(HistoryStats::default().avg_tps()), 0.0);
    assert_eq!(tps(HistoryStats::default().max_tps), 0.0);
}

/// Ninety slots, oldest first; what lies outside of the window does not count.
#[test]
fn chart_stats_buckets_and_order() {
    let now = 1_700_000_005_000i64;
    let rows = vec![
        mrow("m", now - 3_000, Some(now - 15_000), Some(15_000), 1_000, 0),
        mrow("m", now - 95_000, Some(now - 99_000), Some(9_000), 3_000, 0),
        mrow("m", now - 1_200_000, Some(now - 1_204_000), None, 9_999, 0),
    ];
    let p = aggregate_chart_stats(rows, 15, now);
    assert_eq!(p.window_min, 15);
    assert_eq!(p.bucket_ms, 10_000);
    assert_eq!(p.buckets.len(), 90);
    assert!((tps(p.buckets[89]) - 1_000.0 * 1000.0 / 12_000.0).abs() < 1e-9);
    assert!((tps(p.buckets[80]) - 750.0).abs() < 1e-9);
    assert!((tps(p.buckets[0]) - 0.0).abs() < 1e-9);
}

#[test]
fn chart_stats_window_clamp() {
    assert_eq!(clamp_chart_window(999), 1440);
    assert_eq!(clamp_chart_window(30), 15);
    assert_eq!(clamp_chart_window(90), 60);
    assert_eq!(clamp_chart_window(720), 360);
    assert_eq!(clamp_chart_window(15), 15);
    let p = aggregate_chart_stats(Vec::new(), 60, 1_700_000_000_000i64);
    assert_eq!(p.bucket_ms, 60 * 60_000 / 90);
    assert_eq!(p.buckets.len(), 90);
    assert!(p.buckets.iter().all(|v| tps(*v) == 0.0));
}
