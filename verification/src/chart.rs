//! The curve of the speed of all models together.

use vstd::prelude::*;
use crate::metrics::{floor_div, gen_ms_from, generation_ms, no_rate, Rate};
use crate::sums::{lemma_sum_prefix, lemma_sum_push, lemma_sum_step, sum_of};
use crate::trend::{
    chart_windows, clamp_chart_window, lemma_time_span_is_the_nearest, nearest, CHART_BUCKETS,
    ModelUsageRow,
};

verus! {

/// The curve, oldest slot first.
#[derive(Debug, PartialEq)]
pub struct ChartStatsPayload {
    pub window_min: i64,
    pub bucket_ms: i64,
    pub now_ms: i64,
    pub buckets: Vec<Rate>,
}

/// How many slots lie between the end of the call and now.
pub open spec fn slots_back(r: ModelUsageRow, now: i64, bucket_ms: i64) -> int {
    now as int / bucket_ms as int - r.completed_at as int / bucket_ms as int
}

pub open spec fn by_chart_eff(now: i64, bucket_ms: i64, ago: int) -> spec_fn(ModelUsageRow) -> int {
    |r: ModelUsageRow| if slots_back(r, now, bucket_ms) == ago { r.eff() } else { 0 }
}

pub open spec fn by_chart_gen(now: i64, bucket_ms: i64, ago: int) -> spec_fn(ModelUsageRow) -> int {
    |r: ModelUsageRow| if slots_back(r, now, bucket_ms) == ago { r.gen() } else { 0 }
}

/// The times of all calls, and the sums of each slot, can be held in 64 bits.
pub open spec fn chart_summable(rows: Seq<ModelUsageRow>, now: i64, bucket_ms: i64) -> bool {
    &&& forall|i: int| 0 <= i < rows.len() ==> (#[trigger] rows[i]).gen() <= i64::MAX
    &&& forall|ago: int|
        0 <= ago < CHART_BUCKETS ==> #[trigger] sum_of(rows, by_chart_eff(now, bucket_ms, ago))
            <= u64::MAX && sum_of(rows, by_chart_gen(now, bucket_ms, ago)) <= i64::MAX
}

/// The speed in one slot.
pub open spec fn chart_rate(
    rows: Seq<ModelUsageRow>,
    now: i64,
    bucket_ms: i64,
    ago: int,
) -> Rate {
    Rate {
        tokens: sum_of(rows, by_chart_eff(now, bucket_ms, ago)) as u64,
        ms: sum_of(rows, by_chart_gen(now, bucket_ms, ago)) as i64,
    }
}

/// The curve of some calls.
pub open spec fn is_chart(
    p: ChartStatsPayload,
    rows: Seq<ModelUsageRow>,
    window_min: i64,
    now: i64,
) -> bool {
    &&& nearest(p.window_min, chart_windows(), window_min)
    &&& p.bucket_ms == p.window_min * 60_000 / CHART_BUCKETS as int
    &&& p.now_ms == now
    &&& p.buckets@ == Seq::new(
        CHART_BUCKETS as nat,
        |k: int| chart_rate(rows, now, p.bucket_ms, CHART_BUCKETS - 1 - k),
    )
}

/// The width of a slot of the curve that is asked for.
pub open spec fn chart_bucket_for(window_min: i64) -> i64 {
    if window_min <= 37 {
        10_000
    } else if window_min <= 210 {
        40_000
    } else if window_min <= 900 {
        240_000
    } else {
        960_000
    }
}

fn no_speeds() -> (r: Vec<Rate>)
    ensures
        r@.len() == CHART_BUCKETS,
        forall|k: int| 0 <= k < CHART_BUCKETS ==> #[trigger] r@[k] == no_rate(),
{
    let mut r: Vec<Rate> = Vec::new();
    let mut n: usize = 0;
    while n < CHART_BUCKETS
        invariant
            n <= CHART_BUCKETS,
            r@.len() == n,
            forall|k: int| 0 <= k < n ==> #[trigger] r@[k] == no_rate(),
        decreases CHART_BUCKETS - n,
    {
        r.push(Rate::none());
        n += 1;
    }
    r
}

/// The slots hold the sums of some rows.
spec fn slots_hold(acc: Seq<Rate>, rows: Seq<ModelUsageRow>, now: i64, bucket_ms: i64) -> bool {
    &&& acc.len() == CHART_BUCKETS
    &&& forall|k: int|
        0 <= k < CHART_BUCKETS ==> (#[trigger] acc[k]).tokens == sum_of(
            rows,
            by_chart_eff(now, bucket_ms, CHART_BUCKETS - 1 - k),
        ) && acc[k].ms == sum_of(rows, by_chart_gen(now, bucket_ms, CHART_BUCKETS - 1 - k))
}

fn chart_sums(rows: &Vec<ModelUsageRow>, now: i64, bucket_ms: i64) -> (r: Option<Vec<Rate>>)
    requires
        bucket_ms > 0,
    ensures
        r is Some == chart_summable(rows@, now, bucket_ms),
        r matches Some(acc) ==> slots_hold(acc@, rows@, now, bucket_ms),
{
    let mut acc = no_speeds();
    let now_slot: i64 = floor_div(now, bucket_ms);
    let mut i: usize = 0;
    while i < rows.len()
        invariant
            i <= rows.len(),
            bucket_ms > 0,
            now_slot == now as int / bucket_ms as int,
            forall|j: int| 0 <= j < i ==> (#[trigger] rows@[j]).gen() <= i64::MAX,
            slots_hold(acc@, rows@.take(i as int), now, bucket_ms),
        decreases rows.len() - i,
    {
        let row = &rows[i];
        let ghost before = acc@;
        let ghost (part, next) = (rows@.take(i as int), rows@.take(i + 1));
        let timed = match row.first_token_at {
            Some(f) if row.completed_at > f => row.completed_at as i128 - f as i128
                <= i64::MAX as i128,
            _ => true,
        };
        if !timed {
            assert(rows@[i as int].gen() > i64::MAX);
            return None;
        }
        let gen: i64 = gen_ms_from(row.first_token_at, row.completed_at, row.duration_ms);
        let ago: i128 = now_slot as i128 - floor_div(row.completed_at, bucket_ms) as i128;
        proof {
            assert forall|a: int| true implies {
                &&& #[trigger] sum_of(next, by_chart_eff(now, bucket_ms, a)) == sum_of(
                    part,
                    by_chart_eff(now, bucket_ms, a),
                ) + (if a == ago {
                    row.eff()
                } else {
                    0
                })
                &&& sum_of(next, by_chart_gen(now, bucket_ms, a)) == sum_of(
                    part,
                    by_chart_gen(now, bucket_ms, a),
                ) + (if a == ago {
                    row.gen()
                } else {
                    0
                })
                &&& sum_of(next, by_chart_eff(now, bucket_ms, a)) <= sum_of(
                    rows@,
                    by_chart_eff(now, bucket_ms, a),
                )
                &&& sum_of(next, by_chart_gen(now, bucket_ms, a)) <= sum_of(
                    rows@,
                    by_chart_gen(now, bucket_ms, a),
                )
            } by {
                lemma_sum_step(rows@, by_chart_eff(now, bucket_ms, a), i as int);
                lemma_sum_step(rows@, by_chart_gen(now, bucket_ms, a), i as int);
                lemma_sum_prefix(rows@, by_chart_eff(now, bucket_ms, a), i + 1);
                lemma_sum_prefix(rows@, by_chart_gen(now, bucket_ms, a), i + 1);
            }
        }
        if 0 <= ago && ago < CHART_BUCKETS as i128 {
            let at: usize = CHART_BUCKETS - 1 - ago as usize;
            let old_rate: Rate = acc[at];
            let eff: u128 = old_rate.tokens as u128 + row.output_tokens as u128
                + row.reasoning_tokens as u128;
            proof {
                assert(eff == sum_of(next, by_chart_eff(now, bucket_ms, ago as int)));
            }
            if eff > u64::MAX as u128 || old_rate.ms > i64::MAX - gen {
                assert(sum_of(rows@, by_chart_eff(now, bucket_ms, ago as int)) > u64::MAX
                    || sum_of(rows@, by_chart_gen(now, bucket_ms, ago as int)) > i64::MAX);
                return None;
            }
            acc.set(at, Rate { tokens: eff as u64, ms: old_rate.ms + gen });
        }
        proof {
            assert forall|k: int| 0 <= k < CHART_BUCKETS implies (#[trigger] acc@[k]).tokens
                == sum_of(next, by_chart_eff(now, bucket_ms, CHART_BUCKETS - 1 - k)) && acc@[k].ms
                == sum_of(next, by_chart_gen(now, bucket_ms, CHART_BUCKETS - 1 - k)) by {
                let a = CHART_BUCKETS - 1 - k;
                let was = before[k];
                assert(was.tokens == sum_of(part, by_chart_eff(now, bucket_ms, a)));
                let grown = sum_of(next, by_chart_eff(now, bucket_ms, a));
            }
        }
        i += 1;
    }
    assert(rows@.take(i as int) =~= rows@);
    proof {
        assert forall|ago: int| 0 <= ago < CHART_BUCKETS implies #[trigger] sum_of(
            rows@,
            by_chart_eff(now, bucket_ms, ago),
        ) <= u64::MAX && sum_of(rows@, by_chart_gen(now, bucket_ms, ago)) <= i64::MAX by {
            let r = acc@[CHART_BUCKETS - 1 - ago];
            assert(r.tokens == sum_of(rows@, by_chart_eff(now, bucket_ms, ago)));
        }
    }
    Some(acc)
}

fn chart_width(window: i64) -> (r: i64)
    requires
        chart_windows().contains(window),
    ensures
        r == window * 60_000 / CHART_BUCKETS as int,
        r > 0,
{
    proof {
        let w = chart_windows();
        assert(w[0] == 15 && w[1] == 60 && w[2] == 360 && w[3] == 1440);
        let i = choose|i: int| 0 <= i < w.len() && w[i] == window;
        assert(i == 0 || i == 1 || i == 2 || i == 3);
    }
    window * 60_000 / CHART_BUCKETS as i64
}

/// The curve when there is no call to show.
pub fn empty_chart_stats(window_min: i64, now_ms: i64) -> (r: ChartStatsPayload)
    ensures
        is_chart(r, Seq::empty(), window_min, now_ms),
        forall|k: int| 0 <= k < CHART_BUCKETS ==> #[trigger] r.buckets@[k] == no_rate(),
{
    let window = clamp_chart_window(window_min);
    let bucket_ms = chart_width(window);
    let buckets = no_speeds();
    assert(buckets@ =~= Seq::new(
        CHART_BUCKETS as nat,
        |k: int| chart_rate(Seq::empty(), now_ms, bucket_ms, CHART_BUCKETS - 1 - k),
    ));
    ChartStatsPayload { window_min: window, bucket_ms, now_ms, buckets }
}

/// Puts together the curve of all models, unless a sum is too large to hold.
pub fn checked_chart_stats(rows: Vec<ModelUsageRow>, window_min: i64, now_ms: i64) -> (r: Option<
    ChartStatsPayload,
>)
    ensures
        r is Some == chart_summable(rows@, now_ms, chart_bucket_for(window_min)),
        r matches Some(p) ==> is_chart(p, rows@, window_min, now_ms),
{
    let window = clamp_chart_window(window_min);
    let bucket_ms = chart_width(window);
    proof {
        let w = chart_windows();
        assert(w[0] == 15 && w[1] == 60 && w[2] == 360 && w[3] == 1440);
        let i = choose|i: int| 0 <= i < w.len() && w[i] == window;
        assert(i == 0 || i == 1 || i == 2 || i == 3);
        assert(bucket_ms == chart_bucket_for(window_min));
    }
    match chart_sums(&rows, now_ms, bucket_ms) {
        None => None,
        Some(buckets) => {
            assert(buckets@ =~= Seq::new(
                CHART_BUCKETS as nat,
                |k: int| chart_rate(rows@, now_ms, bucket_ms, CHART_BUCKETS - 1 - k),
            ));
            Some(ChartStatsPayload { window_min: window, bucket_ms, now_ms, buckets })
        },
    }
}

/// Puts together the curve of all models.
pub fn aggregate_chart_stats(rows: Vec<ModelUsageRow>, window_min: i64, now_ms: i64) -> (r:
    ChartStatsPayload)
    requires
        chart_summable(rows@, now_ms, chart_bucket_for(window_min)),
    ensures
        is_chart(r, rows@, window_min, now_ms),
{
    checked_chart_stats(rows, window_min, now_ms).unwrap()
}

/// The slots lie at fixed times: asked twice within one slot, the curve is the same.
pub proof fn lemma_curve_is_fixed_within_a_slot(
    rows: Seq<ModelUsageRow>,
    now: i64,
    later: i64,
    bucket_ms: i64,
    ago: int,
)
    requires
        now as int / bucket_ms as int == later as int / bucket_ms as int,
    ensures
        chart_rate(rows, now, bucket_ms, ago) == chart_rate(rows, later, bucket_ms, ago),
{
    assert(by_chart_eff(now, bucket_ms, ago) =~= by_chart_eff(later, bucket_ms, ago));
    assert(by_chart_gen(now, bucket_ms, ago) =~= by_chart_gen(later, bucket_ms, ago));
}

/// The curve has ninety slots, which together are as long as the time span; a call counts in the
/// slot in which it finished, with what it streamed out and with its time of generation, and in no
/// other. The last slot is the one that now lies in.
pub proof fn lemma_call_counts_in_one_slot(
    p: ChartStatsPayload,
    q: ChartStatsPayload,
    rows: Seq<ModelUsageRow>,
    r: ModelUsageRow,
    window_min: i64,
    now: i64,
    k: int,
)
    requires
        is_chart(p, rows, window_min, now),
        is_chart(q, rows.push(r), window_min, now),
        chart_summable(rows.push(r), now, p.bucket_ms),
        0 <= k < 90,
    ensures
        p.buckets@.len() == 90,
        q.buckets@.len() == 90,
        p.bucket_ms * 90 == p.window_min * 60_000,
        p.window_min == q.window_min,
        ({
            let (a, b) = (p.buckets@[k], q.buckets@[k]);
            let here = r.completed_at as int / p.bucket_ms as int + (89 - k) == now as int
                / p.bucket_ms as int;
            &&& here ==> b.tokens == a.tokens + r.output_tokens + r.reasoning_tokens && b.ms == a.ms
                + generation_ms(r.first_token_at, r.completed_at, r.duration_ms)
            &&& !here ==> a == b
        }),
{
    lemma_time_span_is_the_nearest(p.window_min, window_min);
    lemma_time_span_is_the_nearest(q.window_min, window_min);
    let w = p.bucket_ms;
    let ago = 89 - k;
    let all = rows.push(r);
    let n = rows.len() as int;
    assert(all.take(n) =~= rows);
    lemma_sum_push(rows, r, by_chart_eff(now, w, ago));
    lemma_sum_push(rows, r, by_chart_gen(now, w, ago));
    lemma_sum_prefix(all, by_chart_eff(now, w, ago), n);
    lemma_sum_prefix(all, by_chart_gen(now, w, ago), n);
    assert(p.buckets@[k] == chart_rate(rows, now, w, ago));
    assert(q.buckets@[k] == chart_rate(all, now, w, ago));
    assert(sum_of(all, by_chart_eff(now, w, ago)) <= u64::MAX);
}

/// A slot of a curve is a ninetieth of the time span that is nearest to the one asked for.
pub proof fn lemma_slot_is_a_ninetieth(r: i64, x: i64)
    requires
        nearest(r, chart_windows(), x),
    ensures
        chart_bucket_for(x) * 90 == r * 60_000,
{
    lemma_time_span_is_the_nearest(r, x);
}

/// A curve tells the time at which it was made, and the time span that is nearest to the one asked
/// for.
pub proof fn lemma_curve_tells_its_time(
    p: ChartStatsPayload,
    rows: Seq<ModelUsageRow>,
    window_min: i64,
    now: i64,
)
    requires
        is_chart(p, rows, window_min, now),
    ensures
        p.now_ms == now,
        2 * window_min <= 75 <==> p.window_min == 15,
        75 < 2 * window_min <= 420 <==> p.window_min == 60,
        420 < 2 * window_min <= 1800 <==> p.window_min == 360,
        1800 < 2 * window_min <==> p.window_min == 1440,
        p.bucket_ms == chart_bucket_for(window_min),
{
    lemma_time_span_is_the_nearest(p.window_min, window_min);
    lemma_slot_is_a_ninetieth(p.window_min, window_min);
}

} // verus!
