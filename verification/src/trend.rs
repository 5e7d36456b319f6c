//! Speed over time: by model, and of all models together.

use vstd::prelude::*;
use crate::engine::{counted, tokens_from_column};
use crate::metrics::{gen_ms_from, generation_ms, no_rate, Rate};
use crate::order::{
    lemma_permuted, lemma_text_total, lemma_text_transitive, sort, sorted, text_le, text_precedes,
    Ordered,
};
use crate::sums::{lemma_sum_le, lemma_sum_prefix, lemma_sum_push, lemma_sum_step, sum_of};

verus! {

/// Slots of a trend.
pub const MODEL_BUCKETS: usize = 60;

/// Slots of a curve.
pub const CHART_BUCKETS: usize = 90;

/// The time spans of a trend, in minutes.
pub open spec fn model_windows() -> Seq<i64> {
    seq![10, 60, 360]
}

/// The time spans of a curve, in minutes.
pub open spec fn chart_windows() -> Seq<i64> {
    seq![15, 60, 360, 1440]
}

/// How far apart two numbers are.
pub open spec fn distance(a: int, b: int) -> int {
    if a < b {
        b - a
    } else {
        a - b
    }
}

/// Of some choices, `r` is the one nearest to `x`; of two that are equally near, the smaller.
pub open spec fn nearest(r: i64, choices: Seq<i64>, x: i64) -> bool {
    &&& choices.contains(r)
    &&& forall|i: int|
        0 <= i < choices.len() ==> distance(r as int, x as int) < distance(
            #[trigger] choices[i] as int,
            x as int,
        ) || distance(r as int, x as int) == distance(choices[i] as int, x as int) && r <= choices[i]
}

/// Picks the nearest time span of a trend.
pub fn clamp_window_min(window_min: i64) -> (r: i64)
    ensures
        nearest(r, model_windows(), window_min),
{
    let ghost w = model_windows();
    assert(w[0] == 10 && w[1] == 60 && w[2] == 360);
    if window_min <= 35 {
        10
    } else if window_min <= 210 {
        60
    } else {
        360
    }
}

/// Picks the nearest time span of a curve.
pub fn clamp_chart_window(window_min: i64) -> (r: i64)
    ensures
        nearest(r, chart_windows(), window_min),
{
    let ghost w = chart_windows();
    assert(w[0] == 15 && w[1] == 60 && w[2] == 360 && w[3] == 1440);
    if window_min <= 37 {
        15
    } else if window_min <= 210 {
        60
    } else if window_min <= 900 {
        360
    } else {
        1440
    }
}

/// What a finished call counts for: its model, its times and its tokens.
#[derive(Debug, PartialEq)]
pub struct ModelUsageRow {
    pub model: String,
    pub first_token_at: Option<i64>,
    pub completed_at: i64,
    pub duration_ms: Option<i64>,
    pub output_tokens: u64,
    pub reasoning_tokens: u64,
}

impl ModelUsageRow {
    /// Tokens that were streamed out.
    pub open spec fn eff(self) -> int {
        self.output_tokens + self.reasoning_tokens
    }

    /// The time of generation.
    pub open spec fn gen(self) -> int {
        generation_ms(self.first_token_at, self.completed_at, self.duration_ms)
    }

    /// Tokens and times can be held in 64 bits.
    pub open spec fn sound(self) -> bool {
        self.eff() <= u64::MAX && self.gen() <= i64::MAX
    }

    /// Takes a row as it stands in the table: tokens that are missing, or less than none, are none.
    pub fn from_columns(
        model: String,
        first_token_at: Option<i64>,
        completed_at: i64,
        duration_ms: Option<i64>,
        output_tokens: Option<i64>,
        reasoning_tokens: Option<i64>,
    ) -> (r: Self)
        ensures
            r == (ModelUsageRow {
                model,
                first_token_at,
                completed_at,
                duration_ms,
                output_tokens: counted(output_tokens),
                reasoning_tokens: counted(reasoning_tokens),
            }),
    {
        ModelUsageRow {
            model,
            first_token_at,
            completed_at,
            duration_ms,
            output_tokens: tokens_from_column(output_tokens),
            reasoning_tokens: tokens_from_column(reasoning_tokens),
        }
    }

    fn is_sound(&self) -> (r: bool)
        ensures
            r == self.sound(),
    {
        let time = match self.first_token_at {
            Some(f) if self.completed_at > f => self.completed_at as i128 - f as i128
                <= i64::MAX as i128,
            _ => true,
        };
        time && self.output_tokens <= u64::MAX - self.reasoning_tokens
    }
}

/// One slot of a trend.
#[derive(Clone, Copy, Debug, PartialEq)]
pub struct ModelBucket {
    pub tps: Rate,
    pub calls: u64,
    pub tokens: u64,
}

/// A part of a whole.
#[derive(Clone, Copy, Debug, PartialEq)]
pub struct Share {
    pub part: u64,
    pub whole: u64,
}

/// The trend of one model.
#[derive(Debug, PartialEq)]
pub struct ModelSeries {
    pub model: String,
    /// Newest slot first.
    pub buckets: Vec<ModelBucket>,
    pub total_calls: u64,
    pub total_tokens: u64,
    pub avg_tps: Rate,
    pub peak_tps: Rate,
    /// Its tokens among those of all models.
    pub share: Share,
}

/// The trends of all models, the one with most tokens first.
#[derive(Debug, PartialEq)]
pub struct ModelStatsPayload {
    pub window_min: i64,
    pub bucket_ms: i64,
    pub now_ms: i64,
    pub series: Vec<ModelSeries>,
}

/// How long ago the call finished, in slots.
pub open spec fn slot(r: ModelUsageRow, now: i64, bucket_ms: i64) -> int {
    (now - r.completed_at) / bucket_ms as int
}

/// The call finished within the time span.
pub open spec fn shown(r: ModelUsageRow, now: i64, bucket_ms: i64) -> bool {
    0 <= slot(r, now, bucket_ms) < MODEL_BUCKETS
}

pub open spec fn by_all_eff(now: i64, bucket_ms: i64) -> spec_fn(ModelUsageRow) -> int {
    |r: ModelUsageRow| if shown(r, now, bucket_ms) { r.eff() } else { 0 }
}

/// The row counts for the model.
pub open spec fn of_model(r: ModelUsageRow, now: i64, bucket_ms: i64, model: Seq<char>) -> bool {
    shown(r, now, bucket_ms) && r.model@ == model
}

pub open spec fn by_model_eff(now: i64, bucket_ms: i64, model: Seq<char>) -> spec_fn(
    ModelUsageRow,
) -> int {
    |r: ModelUsageRow| if of_model(r, now, bucket_ms, model) { r.eff() } else { 0 }
}

pub open spec fn by_model_gen(now: i64, bucket_ms: i64, model: Seq<char>) -> spec_fn(
    ModelUsageRow,
) -> int {
    |r: ModelUsageRow| if of_model(r, now, bucket_ms, model) { r.gen() } else { 0 }
}

pub open spec fn by_model_calls(now: i64, bucket_ms: i64, model: Seq<char>) -> spec_fn(
    ModelUsageRow,
) -> int {
    |r: ModelUsageRow| if of_model(r, now, bucket_ms, model) { 1 } else { 0 }
}

/// The row counts for the slot of the model.
pub open spec fn in_cell(
    r: ModelUsageRow,
    now: i64,
    bucket_ms: i64,
    model: Seq<char>,
    k: int,
) -> bool {
    of_model(r, now, bucket_ms, model) && slot(r, now, bucket_ms) == k
}

pub open spec fn by_cell_eff(now: i64, bucket_ms: i64, model: Seq<char>, k: int) -> spec_fn(
    ModelUsageRow,
) -> int {
    |r: ModelUsageRow| if in_cell(r, now, bucket_ms, model, k) { r.eff() } else { 0 }
}

pub open spec fn by_cell_gen(now: i64, bucket_ms: i64, model: Seq<char>, k: int) -> spec_fn(
    ModelUsageRow,
) -> int {
    |r: ModelUsageRow| if in_cell(r, now, bucket_ms, model, k) { r.gen() } else { 0 }
}

pub open spec fn by_cell_calls(now: i64, bucket_ms: i64, model: Seq<char>, k: int) -> spec_fn(
    ModelUsageRow,
) -> int {
    |r: ModelUsageRow| if in_cell(r, now, bucket_ms, model, k) { 1 } else { 0 }
}

/// The slot of a model.
pub open spec fn cell(
    rows: Seq<ModelUsageRow>,
    now: i64,
    bucket_ms: i64,
    model: Seq<char>,
    k: int,
) -> ModelBucket {
    ModelBucket {
        tps: Rate {
            tokens: sum_of(rows, by_cell_eff(now, bucket_ms, model, k)) as u64,
            ms: sum_of(rows, by_cell_gen(now, bucket_ms, model, k)) as i64,
        },
        calls: sum_of(rows, by_cell_calls(now, bucket_ms, model, k)) as u64,
        tokens: sum_of(rows, by_cell_eff(now, bucket_ms, model, k)) as u64,
    }
}

/// The tokens of all rows together, and the times of each model together, can be held in 64 bits.
pub open spec fn summable(rows: Seq<ModelUsageRow>, now: i64, bucket_ms: i64) -> bool {
    &&& forall|i: int| 0 <= i < rows.len() ==> (#[trigger] rows[i]).sound()
    &&& sum_of(rows, by_all_eff(now, bucket_ms)) <= u64::MAX
    &&& forall|model: Seq<char>|
        #[trigger] sum_of(rows, by_model_gen(now, bucket_ms, model)) <= i64::MAX
}

/// `peak` is the speed of a slot, or none, and no slot is faster.
pub open spec fn is_peak(peak: Rate, buckets: Seq<ModelBucket>) -> bool {
    &&& peak == no_rate() || exists|k: int|
        0 <= k < buckets.len() && (#[trigger] buckets[k]).tps == peak
    &&& forall|k: int| 0 <= k < buckets.len() ==> !(#[trigger] buckets[k]).tps.faster(peak)
}

/// The trend is that of its model.
pub open spec fn is_trend(
    s: ModelSeries,
    rows: Seq<ModelUsageRow>,
    now: i64,
    bucket_ms: i64,
) -> bool {
    let m = s.model@;
    &&& s.buckets@.len() == MODEL_BUCKETS
    &&& forall|k: int|
        0 <= k < MODEL_BUCKETS ==> #[trigger] s.buckets@[k] == cell(rows, now, bucket_ms, m, k)
    &&& s.total_calls == sum_of(rows, by_model_calls(now, bucket_ms, m))
    &&& s.total_calls > 0
    &&& s.total_tokens == sum_of(rows, by_model_eff(now, bucket_ms, m))
    &&& s.avg_tps == (Rate {
        tokens: s.total_tokens,
        ms: sum_of(rows, by_model_gen(now, bucket_ms, m)) as i64,
    })
    &&& is_peak(s.peak_tps, s.buckets@)
    &&& s.share == (Share {
        part: s.total_tokens,
        whole: sum_of(rows, by_all_eff(now, bucket_ms)) as u64,
    })
}

/// One trend stands before another: it has more tokens, or as many and the earlier name.
pub open spec fn ranks_before(a: ModelSeries, b: ModelSeries) -> bool {
    a.total_tokens > b.total_tokens || a.total_tokens == b.total_tokens && a.model@ != b.model@
        && text_le(a.model@, b.model@)
}

/// The trends of all models that have a call in the time span.
pub open spec fn is_model_stats(
    p: ModelStatsPayload,
    rows: Seq<ModelUsageRow>,
    window_min: i64,
    now: i64,
) -> bool {
    &&& nearest(p.window_min, model_windows(), window_min)
    &&& p.bucket_ms == p.window_min * 60_000 / MODEL_BUCKETS as int
    &&& p.now_ms == now
    &&& forall|k: int|
        0 <= k < p.series@.len() ==> is_trend(#[trigger] p.series@[k], rows, now, p.bucket_ms)
    &&& forall|i: int|
        0 <= i < rows.len() && shown(#[trigger] rows[i], now, p.bucket_ms) ==> exists|k: int|
            0 <= k < p.series@.len() && (#[trigger] p.series@[k]).model@ == rows[i].model@
    &&& forall|k: int, l: int|
        #![trigger p.series@[k], p.series@[l]]
        0 <= k < l < p.series@.len() ==> ranks_before(p.series@[k], p.series@[l])
}

/// The width of a slot of the trend that is asked for.
pub open spec fn bucket_for(window_min: i64) -> i64 {
    if window_min <= 35 {
        10_000
    } else if window_min <= 210 {
        60_000
    } else {
        360_000
    }
}

struct ModelAcc {
    model: String,
    buckets: Vec<ModelBucket>,
    eff: u64,
    gen: i64,
    calls: u64,
}

impl ModelAcc {
    /// The sums are those of some rows.
    spec fn of(self, rows: Seq<ModelUsageRow>, now: i64, bucket_ms: i64) -> bool {
        let m = self.model@;
        &&& self.eff == sum_of(rows, by_model_eff(now, bucket_ms, m))
        &&& self.gen == sum_of(rows, by_model_gen(now, bucket_ms, m))
        &&& self.calls == sum_of(rows, by_model_calls(now, bucket_ms, m))
        &&& self.buckets@.len() == MODEL_BUCKETS
        &&& forall|k: int|
            0 <= k < MODEL_BUCKETS ==> {
                &&& (#[trigger] self.buckets@[k]).tps.tokens == sum_of(
                    rows,
                    by_cell_eff(now, bucket_ms, m, k),
                )
                &&& self.buckets@[k].tps.ms == sum_of(rows, by_cell_gen(now, bucket_ms, m, k))
                &&& self.buckets@[k].calls == sum_of(rows, by_cell_calls(now, bucket_ms, m, k))
                &&& self.buckets@[k].tokens == self.buckets@[k].tps.tokens
            }
    }

    fn none(model: &String) -> (r: ModelAcc)
        ensures
            r.model@ == model@,
            r.eff == 0,
            r.gen == 0,
            r.calls == 0,
            r.buckets@.len() == MODEL_BUCKETS,
            forall|k: int|
                0 <= k < MODEL_BUCKETS ==> #[trigger] r.buckets@[k] == (ModelBucket {
                    tps: no_rate(),
                    calls: 0,
                    tokens: 0,
                }),
    {
        let mut buckets: Vec<ModelBucket> = Vec::new();
        let mut n: usize = 0;
        while n < MODEL_BUCKETS
            invariant
                n <= MODEL_BUCKETS,
                buckets@.len() == n,
                forall|k: int|
                    0 <= k < n ==> #[trigger] buckets@[k] == (ModelBucket {
                        tps: no_rate(),
                        calls: 0,
                        tokens: 0,
                    }),
            decreases MODEL_BUCKETS - n,
        {
            buckets.push(ModelBucket { tps: Rate::none(), calls: 0, tokens: 0 });
            n += 1;
        }
        ModelAcc { model: model.clone(), buckets, eff: 0, gen: 0, calls: 0 }
    }

    fn plus(&mut self, k: usize, eff: u64, gen: i64)
        requires
            k < MODEL_BUCKETS,
            old(self).buckets@.len() == MODEL_BUCKETS,
            gen >= 0,
            old(self).eff + eff <= u64::MAX,
            old(self).gen + gen <= i64::MAX,
            old(self).calls < u64::MAX,
            old(self).buckets@[k as int].tps.tokens <= old(self).eff,
            old(self).buckets@[k as int].tokens <= old(self).eff,
            old(self).buckets@[k as int].tps.ms <= old(self).gen,
            old(self).buckets@[k as int].calls <= old(self).calls,
        ensures
            final(self).model == old(self).model,
            final(self).eff == old(self).eff + eff,
            final(self).gen == old(self).gen + gen,
            final(self).calls == old(self).calls + 1,
            ({
                let b = old(self).buckets@[k as int];
                final(self).buckets@ == old(self).buckets@.update(
                    k as int,
                    (ModelBucket {
                        tps: Rate {
                            tokens: (b.tps.tokens + eff) as u64,
                            ms: (b.tps.ms + gen) as i64,
                        },
                        calls: (b.calls + 1) as u64,
                        tokens: (b.tokens + eff) as u64,
                    }),
                )
            }),
    {
        let b: ModelBucket = self.buckets[k];
        let more = ModelBucket {
            tps: Rate { tokens: b.tps.tokens + eff, ms: b.tps.ms + gen },
            calls: b.calls + 1,
            tokens: b.tokens + eff,
        };
        self.buckets.set(k, more);
        self.eff = self.eff + eff;
        self.gen = self.gen + gen;
        self.calls = self.calls + 1;
    }
}

proof fn lemma_row_adds(rows: Seq<ModelUsageRow>, n: int, now: i64, bucket_ms: i64, m: Seq<char>)
    requires
        0 <= n < rows.len(),
    ensures
        ({
            let (a, b, r) = (rows.take(n), rows.take(n + 1), rows[n]);
            let on = of_model(r, now, bucket_ms, m);
            &&& sum_of(b, by_model_eff(now, bucket_ms, m)) == sum_of(
                a,
                by_model_eff(now, bucket_ms, m),
            ) + if on {
                r.eff()
            } else {
                0
            }
            &&& sum_of(b, by_model_gen(now, bucket_ms, m)) == sum_of(
                a,
                by_model_gen(now, bucket_ms, m),
            ) + if on {
                r.gen()
            } else {
                0
            }
            &&& sum_of(b, by_model_calls(now, bucket_ms, m)) == sum_of(
                a,
                by_model_calls(now, bucket_ms, m),
            ) + if on {
                1int
            } else {
                0
            }
            &&& sum_of(b, by_model_gen(now, bucket_ms, m)) <= sum_of(
                rows,
                by_model_gen(now, bucket_ms, m),
            )
        }),
{
    lemma_sum_step(rows, by_model_eff(now, bucket_ms, m), n);
    lemma_sum_step(rows, by_model_gen(now, bucket_ms, m), n);
    lemma_sum_step(rows, by_model_calls(now, bucket_ms, m), n);
    lemma_sum_prefix(rows, by_model_gen(now, bucket_ms, m), n + 1);
}

proof fn lemma_row_adds_to_cell(
    rows: Seq<ModelUsageRow>,
    n: int,
    now: i64,
    bucket_ms: i64,
    m: Seq<char>,
    k: int,
)
    requires
        0 <= n < rows.len(),
    ensures
        ({
            let (a, b, r) = (rows.take(n), rows.take(n + 1), rows[n]);
            let on = in_cell(r, now, bucket_ms, m, k);
            &&& sum_of(b, by_cell_eff(now, bucket_ms, m, k)) == sum_of(
                a,
                by_cell_eff(now, bucket_ms, m, k),
            ) + if on {
                r.eff()
            } else {
                0
            }
            &&& sum_of(b, by_cell_gen(now, bucket_ms, m, k)) == sum_of(
                a,
                by_cell_gen(now, bucket_ms, m, k),
            ) + if on {
                r.gen()
            } else {
                0
            }
            &&& sum_of(b, by_cell_calls(now, bucket_ms, m, k)) == sum_of(
                a,
                by_cell_calls(now, bucket_ms, m, k),
            ) + if on {
                1int
            } else {
                0
            }
        }),
{
    lemma_sum_step(rows, by_cell_eff(now, bucket_ms, m, k), n);
    lemma_sum_step(rows, by_cell_gen(now, bucket_ms, m, k), n);
    lemma_sum_step(rows, by_cell_calls(now, bucket_ms, m, k), n);
}

proof fn lemma_cell_bounds(rows: Seq<ModelUsageRow>, now: i64, bucket_ms: i64, m: Seq<char>, k: int)
    ensures
        0 <= sum_of(rows, by_cell_eff(now, bucket_ms, m, k)) <= sum_of(
            rows,
            by_model_eff(now, bucket_ms, m),
        ) <= sum_of(rows, by_all_eff(now, bucket_ms)),
        0 <= sum_of(rows, by_cell_gen(now, bucket_ms, m, k)) <= sum_of(
            rows,
            by_model_gen(now, bucket_ms, m),
        ),
        0 <= sum_of(rows, by_cell_calls(now, bucket_ms, m, k)) <= sum_of(
            rows,
            by_model_calls(now, bucket_ms, m),
        ),
{
    lemma_sum_le(rows, by_cell_eff(now, bucket_ms, m, k), by_model_eff(now, bucket_ms, m));
    lemma_sum_le(rows, by_model_eff(now, bucket_ms, m), by_all_eff(now, bucket_ms));
    lemma_sum_le(rows, by_cell_gen(now, bucket_ms, m, k), by_model_gen(now, bucket_ms, m));
    lemma_sum_le(rows, by_cell_calls(now, bucket_ms, m, k), by_model_calls(now, bucket_ms, m));
    lemma_sum_prefix(rows, by_cell_eff(now, bucket_ms, m, k), 0);
    lemma_sum_prefix(rows, by_cell_gen(now, bucket_ms, m, k), 0);
    lemma_sum_prefix(rows, by_cell_calls(now, bucket_ms, m, k), 0);
}

proof fn lemma_calls_bound(rows: Seq<ModelUsageRow>, now: i64, bucket_ms: i64, m: Seq<char>)
    ensures
        0 <= sum_of(rows, by_model_calls(now, bucket_ms, m)) <= rows.len(),
    decreases rows.len(),
{
    if rows.len() > 0 {
        lemma_calls_bound(rows.drop_last(), now, bucket_ms, m);
    }
}

proof fn lemma_no_rows_of(rows: Seq<ModelUsageRow>, now: i64, bucket_ms: i64, m: Seq<char>)
    requires
        forall|i: int|
            0 <= i < rows.len() ==> !of_model(#[trigger] rows[i], now, bucket_ms, m),
    ensures
        sum_of(rows, by_model_eff(now, bucket_ms, m)) == 0,
        sum_of(rows, by_model_gen(now, bucket_ms, m)) == 0,
        sum_of(rows, by_model_calls(now, bucket_ms, m)) == 0,
    decreases rows.len(),
{
    if rows.len() > 0 {
        let before = rows.drop_last();
        assert forall|i: int| 0 <= i < before.len() implies !of_model(
            #[trigger] before[i],
            now,
            bucket_ms,
            m,
        ) by {
            assert(before[i] == rows[i]);
        }
        lemma_no_rows_of(before, now, bucket_ms, m);
        assert(!of_model(rows[rows.len() - 1], now, bucket_ms, m));
    }
}

fn find_model(accs: &Vec<ModelAcc>, model: &String) -> (r: Option<usize>)
    ensures
        r matches Some(j) ==> j < accs@.len() && accs@[j as int].model@ == model@,
        r is None ==> forall|j: int|
            0 <= j < accs@.len() ==> (#[trigger] accs@[j]).model@ != model@,
{
    let mut j: usize = 0;
    while j < accs.len()
        invariant
            j <= accs.len(),
            forall|l: int| 0 <= l < j ==> (#[trigger] accs@[l]).model@ != model@,
        decreases accs.len() - j,
    {
        if accs[j].model == *model {
            return Some(j);
        }
        j += 1;
    }
    None
}

/// No two have the same model.
spec fn distinct_models(accs: Seq<ModelAcc>) -> bool {
    forall|k: int, l: int|
        #![trigger accs[k], accs[l]]
        0 <= k < accs.len() && 0 <= l < accs.len() && k != l ==> accs[k].model@ != accs[l].model@
}

/// Every model that has a call in the time span is there, and no other.
spec fn complete(accs: Seq<ModelAcc>, rows: Seq<ModelUsageRow>, now: i64, bucket_ms: i64) -> bool {
    &&& distinct_models(accs)
    &&& forall|j: int|
        0 <= j < accs.len() ==> (#[trigger] accs[j]).of(rows, now, bucket_ms) && accs[j].calls > 0
    &&& forall|i: int|
        0 <= i < rows.len() && shown(#[trigger] rows[i], now, bucket_ms) ==> exists|j: int|
            0 <= j < accs.len() && (#[trigger] accs[j]).model@ == rows[i].model@
}

proof fn lemma_acc_unchanged(
    acc: ModelAcc,
    rows: Seq<ModelUsageRow>,
    n: int,
    now: i64,
    bucket_ms: i64,
)
    requires
        0 <= n < rows.len(),
        acc.of(rows.take(n), now, bucket_ms),
        !of_model(rows[n], now, bucket_ms, acc.model@),
    ensures
        acc.of(rows.take(n + 1), now, bucket_ms),
{
    let m = acc.model@;
    lemma_row_adds(rows, n, now, bucket_ms, m);
    assert forall|k: int| 0 <= k < MODEL_BUCKETS implies {
        &&& (#[trigger] acc.buckets@[k]).tps.tokens == sum_of(
            rows.take(n + 1),
            by_cell_eff(now, bucket_ms, m, k),
        )
        &&& acc.buckets@[k].tps.ms == sum_of(rows.take(n + 1), by_cell_gen(now, bucket_ms, m, k))
        &&& acc.buckets@[k].calls == sum_of(rows.take(n + 1), by_cell_calls(now, bucket_ms, m, k))
    } by {
        lemma_row_adds_to_cell(rows, n, now, bucket_ms, m, k);
    }
}

fn add_row(
    acc: &mut ModelAcc,
    rows: &Vec<ModelUsageRow>,
    n: usize,
    now: i64,
    bucket_ms: i64,
    k: usize,
) -> (r: bool)
    requires
        n < rows@.len(),
        rows@[n as int].sound(),
        bucket_ms > 0,
        old(acc).of(rows@.take(n as int), now, bucket_ms),
        of_model(rows@[n as int], now, bucket_ms, old(acc).model@),
        slot(rows@[n as int], now, bucket_ms) == k,
        sum_of(rows@.take(n + 1), by_all_eff(now, bucket_ms)) <= u64::MAX,
    ensures
        final(acc).model@ == old(acc).model@,
        r ==> final(acc).of(rows@.take(n + 1), now, bucket_ms) && final(acc).calls > 0,
        !r ==> sum_of(rows@, by_model_gen(now, bucket_ms, old(acc).model@)) > i64::MAX,
{
    assert(n < rows.len() <= usize::MAX);
    let row = &rows[n];
    let ghost m = acc.model@;
    let ghost start = *acc;
    let eff: u64 = row.output_tokens + row.reasoning_tokens;
    let gen: i64 = gen_ms_from(row.first_token_at, row.completed_at, row.duration_ms);
    proof {
        lemma_row_adds(rows@, n as int, now, bucket_ms, m);
        lemma_cell_bounds(rows@.take(n as int), now, bucket_ms, m, k as int);
        lemma_cell_bounds(rows@.take(n + 1), now, bucket_ms, m, k as int);
        lemma_calls_bound(rows@.take(n as int), now, bucket_ms, m);
        assert(acc.buckets@[k as int].tokens == acc.buckets@[k as int].tps.tokens);
    }
    if acc.gen > i64::MAX - gen {
        return false;
    }
    acc.plus(k, eff, gen);
    proof {
        assert forall|l: int| 0 <= l < MODEL_BUCKETS implies {
            &&& (#[trigger] acc.buckets@[l]).tps.tokens == sum_of(
                rows@.take(n + 1),
                by_cell_eff(now, bucket_ms, m, l),
            )
            &&& acc.buckets@[l].tps.ms == sum_of(
                rows@.take(n + 1),
                by_cell_gen(now, bucket_ms, m, l),
            )
            &&& acc.buckets@[l].calls == sum_of(
                rows@.take(n + 1),
                by_cell_calls(now, bucket_ms, m, l),
            )
            &&& acc.buckets@[l].tokens == acc.buckets@[l].tps.tokens
        } by {
            lemma_row_adds_to_cell(rows@, n as int, now, bucket_ms, m, l);
            lemma_cell_bounds(rows@.take(n + 1), now, bucket_ms, m, l);
            assert(start.buckets@[l].tokens == start.buckets@[l].tps.tokens);
        }
    }
    true
}

fn slot_of(row: &ModelUsageRow, now: i64, bucket_ms: i64) -> (r: Option<usize>)
    requires
        bucket_ms > 0,
    ensures
        r matches Some(k) ==> shown(*row, now, bucket_ms) && k == slot(*row, now, bucket_ms),
        r is None ==> !shown(*row, now, bucket_ms),
{
    let ago: i128 = now as i128 - row.completed_at as i128;
    let width: i128 = bucket_ms as i128;
    let ghost q = slot(*row, now, bucket_ms);
    if ago < 0 {
        assert(q < 0) by (nonlinear_arith)
            requires
                ago < 0,
                width > 0,
                q == ago as int / width as int,
        ;
        return None;
    }
    let k: i128 = ago / width;
    if k >= MODEL_BUCKETS as i128 {
        return None;
    }
    assert(k >= 0) by (nonlinear_arith)
        requires
            ago >= 0,
            width > 0,
            k == ago as int / width as int,
    ;
    Some(k as usize)
}

fn model_accs(rows: &Vec<ModelUsageRow>, now: i64, bucket_ms: i64) -> (r: Option<
    (Vec<ModelAcc>, u64),
>)
    requires
        bucket_ms > 0,
    ensures
        r is Some == summable(rows@, now, bucket_ms),
        r matches Some((accs, grand)) ==> complete(accs@, rows@, now, bucket_ms) && grand == sum_of(
            rows@,
            by_all_eff(now, bucket_ms),
        ),
{
    let mut accs: Vec<ModelAcc> = Vec::new();
    let mut grand: u64 = 0;
    let mut i: usize = 0;
    while i < rows.len()
        invariant
            i <= rows.len(),
            bucket_ms > 0,
            forall|j: int| 0 <= j < i ==> (#[trigger] rows@[j]).sound(),
            grand == sum_of(rows@.take(i as int), by_all_eff(now, bucket_ms)),
            complete(accs@, rows@.take(i as int), now, bucket_ms),
        decreases rows.len() - i,
    {
        let row = &rows[i];
        let ghost before = accs@;
        let ghost (part, next) = (rows@.take(i as int), rows@.take(i + 1));
        proof {
            lemma_sum_step(rows@, by_all_eff(now, bucket_ms), i as int);
            lemma_sum_prefix(rows@, by_all_eff(now, bucket_ms), i + 1);
        }
        if !row.is_sound() {
            assert(!rows@[i as int].sound());
            return None;
        }
        match slot_of(row, now, bucket_ms) {
            None => {
                proof {
                    assert forall|j: int| 0 <= j < before.len() implies (#[trigger] before[j]).of(
                        next,
                        now,
                        bucket_ms,
                    ) by {
                        lemma_acc_unchanged(before[j], rows@, i as int, now, bucket_ms);
                    }
                    lemma_complete_next(before, before, rows@, i as int, now, bucket_ms, 0);
                }
            },
            Some(k) => {
                let eff: u64 = row.output_tokens + row.reasoning_tokens;
                if grand > u64::MAX - eff {
                    return None;
                }
                grand = grand + eff;
                let at: usize = match find_model(&accs, &row.model) {
                    Some(j) => j,
                    None => {
                        let fresh = ModelAcc::none(&row.model);
                        proof {
                            lemma_fresh_acc(before, fresh, part, now, bucket_ms);
                        }
                        accs.push(fresh);
                        accs.len() - 1
                    },
                };
                let ghost mid = accs@;
                assert(forall|j: int|
                    0 <= j < mid.len() ==> (#[trigger] mid[j]).of(part, now, bucket_ms));
                let good = add_row(&mut accs[at], rows, i, now, bucket_ms, k);
                if !good {
                    assert(sum_of(rows@, by_model_gen(now, bucket_ms, mid[at as int].model@))
                        > i64::MAX);
                    return None;
                }
                proof {
                    assert forall|j: int| 0 <= j < accs@.len() && j != at implies (
                    #[trigger] accs@[j]).of(next, now, bucket_ms) by {
                        assert(accs@[j] == mid[j]);
                        assert(mid[j].model@ != mid[at as int].model@);
                        lemma_acc_unchanged(mid[j], rows@, i as int, now, bucket_ms);
                    }
                    lemma_complete_next(before, accs@, rows@, i as int, now, bucket_ms, at as int);
                }
            },
        }
        i += 1;
    }
    assert(rows@.take(i as int) =~= rows@);
    proof {
        assert forall|m: Seq<char>| #[trigger] sum_of(rows@, by_model_gen(now, bucket_ms, m))
            <= i64::MAX by {
            lemma_gen_bound(accs@, rows@, now, bucket_ms, m);
        }
    }
    Some((accs, grand))
}

proof fn lemma_fresh_acc(
    before: Seq<ModelAcc>,
    fresh: ModelAcc,
    part: Seq<ModelUsageRow>,
    now: i64,
    bucket_ms: i64,
)
    requires
        complete(before, part, now, bucket_ms),
        forall|j: int| 0 <= j < before.len() ==> (#[trigger] before[j]).model@ != fresh.model@,
        fresh.eff == 0,
        fresh.gen == 0,
        fresh.calls == 0,
        fresh.buckets@.len() == MODEL_BUCKETS,
        forall|k: int|
            0 <= k < MODEL_BUCKETS ==> #[trigger] fresh.buckets@[k] == (ModelBucket {
                tps: no_rate(),
                calls: 0,
                tokens: 0,
            }),
    ensures
        fresh.of(part, now, bucket_ms),
        distinct_models(before.push(fresh)),
{
    let m = fresh.model@;
    assert forall|i: int| 0 <= i < part.len() implies !of_model(
        #[trigger] part[i],
        now,
        bucket_ms,
        m,
    ) by {
        if shown(part[i], now, bucket_ms) {
            let j = choose|j: int|
                0 <= j < before.len() && (#[trigger] before[j]).model@ == part[i].model@;
        }
    }
    lemma_no_rows_of(part, now, bucket_ms, m);
    assert forall|k: int| 0 <= k < MODEL_BUCKETS implies {
        &&& (#[trigger] fresh.buckets@[k]).tps.tokens == sum_of(
            part,
            by_cell_eff(now, bucket_ms, m, k),
        )
        &&& fresh.buckets@[k].tps.ms == sum_of(part, by_cell_gen(now, bucket_ms, m, k))
        &&& fresh.buckets@[k].calls == sum_of(part, by_cell_calls(now, bucket_ms, m, k))
    } by {
        lemma_cell_bounds(part, now, bucket_ms, m, k);
    }
}

proof fn lemma_complete_next(
    before: Seq<ModelAcc>,
    after: Seq<ModelAcc>,
    rows: Seq<ModelUsageRow>,
    n: int,
    now: i64,
    bucket_ms: i64,
    at: int,
)
    requires
        0 <= n < rows.len(),
        complete(before, rows.take(n), now, bucket_ms),
        distinct_models(after),
        before.len() <= after.len(),
        forall|j: int| 0 <= j < before.len() ==> (#[trigger] after[j]).model@ == before[j].model@,
        forall|j: int|
            0 <= j < after.len() ==> (#[trigger] after[j]).of(rows.take(n + 1), now, bucket_ms)
                && after[j].calls > 0,
        shown(rows[n], now, bucket_ms) ==> 0 <= at < after.len() && after[at].model@
            == rows[n].model@,
    ensures
        complete(after, rows.take(n + 1), now, bucket_ms),
{
    let next = rows.take(n + 1);
    assert forall|i: int| 0 <= i < next.len() && shown(
        #[trigger] next[i],
        now,
        bucket_ms,
    ) implies exists|j: int|
        0 <= j < after.len() && (#[trigger] after[j]).model@ == next[i].model@ by {
        if i < n {
            let part = rows.take(n);
            assert(part[i] == next[i]);
            let j = choose|j: int|
                0 <= j < before.len() && (#[trigger] before[j]).model@ == part[i].model@;
            assert(after[j].model@ == next[i].model@);
        } else {
            assert(after[at].model@ == next[i].model@);
        }
    }
}

proof fn lemma_gen_bound(
    accs: Seq<ModelAcc>,
    rows: Seq<ModelUsageRow>,
    now: i64,
    bucket_ms: i64,
    m: Seq<char>,
)
    requires
        complete(accs, rows, now, bucket_ms),
    ensures
        sum_of(rows, by_model_gen(now, bucket_ms, m)) <= i64::MAX,
{
    if exists|j: int| 0 <= j < accs.len() && (#[trigger] accs[j]).model@ == m {
        let j = choose|j: int| 0 <= j < accs.len() && (#[trigger] accs[j]).model@ == m;
        assert(accs[j].of(rows, now, bucket_ms));
    } else {
        lemma_no_rows_of(rows, now, bucket_ms, m);
    }
}

proof fn lemma_slower_carries_over(a: Rate, b: Rate, c: Rate)
    requires
        !a.faster(b),
        c.faster(b),
    ensures
        !a.faster(c),
{
    if !a.is_zero() {
        let (x, y, z) = (a.tokens as int, b.tokens as int, c.tokens as int);
        let (p, q, r) = (a.ms as int, b.ms as int, c.ms as int);
        assert(x * r <= z * p) by (nonlinear_arith)
            requires
                x * q <= y * p,
                z * q > y * r,
                p > 0,
                q > 0,
                r > 0,
        {
            assert(x * q * r <= y * p * r);
            assert(z * q * p > y * r * p);
            assert((x * r) * q <= (z * p) * q);
        }
    }
}

fn peak_of(buckets: &Vec<ModelBucket>) -> (r: Rate)
    ensures
        is_peak(r, buckets@),
{
    let mut peak = Rate::none();
    let mut k: usize = 0;
    while k < buckets.len()
        invariant
            k <= buckets.len(),
            peak == no_rate() || exists|j: int|
                0 <= j < k && (#[trigger] buckets@[j]).tps == peak,
            forall|j: int| 0 <= j < k ==> !(#[trigger] buckets@[j]).tps.faster(peak),
        decreases buckets.len() - k,
    {
        let here: Rate = buckets[k].tps;
        if here.exceeds(&peak) {
            proof {
                assert forall|j: int| 0 <= j < k + 1 implies !(
                #[trigger] buckets@[j]).tps.faster(here) by {
                    if j < k {
                        lemma_slower_carries_over(buckets@[j].tps, peak, here);
                    }
                }
                assert(buckets@[k as int].tps == here);
            }
            peak = here;
        }
        k += 1;
    }
    peak
}

fn series_of(acc: ModelAcc, grand: u64, Ghost(rows): Ghost<Seq<ModelUsageRow>>, Ghost(now): Ghost<
    i64,
>, Ghost(bucket_ms): Ghost<i64>) -> (r: ModelSeries)
    requires
        acc.of(rows, now, bucket_ms),
        acc.calls > 0,
        grand == sum_of(rows, by_all_eff(now, bucket_ms)),
    ensures
        r.model@ == acc.model@,
        is_trend(r, rows, now, bucket_ms),
{
    let peak_tps = peak_of(&acc.buckets);
    ModelSeries {
        model: acc.model,
        buckets: acc.buckets,
        total_calls: acc.calls,
        total_tokens: acc.eff,
        avg_tps: Rate { tokens: acc.eff, ms: acc.gen },
        peak_tps,
        share: Share { part: acc.eff, whole: grand },
    }
}

impl Ordered for ModelSeries {
    /// More tokens stand first; of as many the earlier name.
    open spec fn le(&self, other: &Self) -> bool {
        self.total_tokens > other.total_tokens || self.total_tokens == other.total_tokens
            && text_le(self.model@, other.model@)
    }

    proof fn lemma_total(a: &Self, b: &Self) {
        lemma_text_total(a.model@, b.model@);
    }

    proof fn lemma_transitive(a: &Self, b: &Self, c: &Self) {
        if a.total_tokens == b.total_tokens && b.total_tokens == c.total_tokens {
            lemma_text_transitive(a.model@, b.model@, c.model@);
        }
    }

    fn precedes(&self, other: &Self) -> (r: bool) {
        self.total_tokens > other.total_tokens || self.total_tokens == other.total_tokens
            && text_precedes(self.model.as_str(), other.model.as_str())
    }
}

/// The trends when there is no call to show.
pub fn empty_model_stats(window_min: i64, now_ms: i64) -> (r: ModelStatsPayload)
    requires
        i64::MIN <= window_min * 60_000 <= i64::MAX,
    ensures
        r.window_min == window_min,
        r.bucket_ms == window_min * 1_000,
        r.now_ms == now_ms,
        r.series@.len() == 0,
        model_windows().contains(window_min) ==> is_model_stats(
            r,
            Seq::empty(),
            window_min,
            now_ms,
        ),
{
    ModelStatsPayload {
        window_min,
        bucket_ms: window_min * 60_000 / MODEL_BUCKETS as i64,
        now_ms,
        series: Vec::new(),
    }
}

/// Puts together the trends of all models, unless a sum is too large to hold.
pub fn checked_model_stats(rows: Vec<ModelUsageRow>, window_min: i64, now_ms: i64) -> (r: Option<
    ModelStatsPayload,
>)
    ensures
        r is Some == summable(rows@, now_ms, bucket_for(window_min)),
        r matches Some(p) ==> is_model_stats(p, rows@, window_min, now_ms),
{
    let window = clamp_window_min(window_min);
    proof {
        let w = model_windows();
        assert(w[0] == 10 && w[1] == 60 && w[2] == 360);
        let i = choose|i: int| 0 <= i < w.len() && w[i] == window;
        assert(i == 0 || i == 1 || i == 2);
    }
    let bucket_ms: i64 = window * 60_000 / MODEL_BUCKETS as i64;
    assert(bucket_ms == bucket_for(window_min));
    match model_accs(&rows, now_ms, bucket_ms) {
        None => None,
        Some((accs, grand)) => {
            let ghost all = accs@;
            let mut series: Vec<ModelSeries> = Vec::new();
            for acc in it: accs
                invariant
                    it.seq() == all,
                    complete(all, rows@, now_ms, bucket_ms),
                    grand == sum_of(rows@, by_all_eff(now_ms, bucket_ms)),
                    series@.len() == it.index(),
                    forall|j: int|
                        0 <= j < series@.len() ==> is_trend(
                            #[trigger] series@[j],
                            rows@,
                            now_ms,
                            bucket_ms,
                        ) && series@[j].model@ == all[j].model@,
            {
                assert(all[it.index() as int].of(rows@, now_ms, bucket_ms));
                series.push(series_of(acc, grand, Ghost(rows@), Ghost(now_ms), Ghost(bucket_ms)));
            }
            let ghost mid = series@;
            let series = sort(series);
            let p = ModelStatsPayload { window_min: window, bucket_ms, now_ms, series };
            proof {
                lemma_sorted_trends(p, mid, all, rows@, window_min);
            }
            Some(p)
        },
    }
}

proof fn lemma_sorted_trends(
    p: ModelStatsPayload,
    mid: Seq<ModelSeries>,
    accs: Seq<ModelAcc>,
    rows: Seq<ModelUsageRow>,
    window_min: i64,
)
    requires
        nearest(p.window_min, model_windows(), window_min),
        p.bucket_ms == p.window_min * 60_000 / MODEL_BUCKETS as int,
        sorted(p.series@),
        p.series@.to_multiset() == mid.to_multiset(),
        mid.len() == accs.len(),
        complete(accs, rows, p.now_ms, p.bucket_ms),
        forall|j: int|
            0 <= j < mid.len() ==> is_trend(#[trigger] mid[j], rows, p.now_ms, p.bucket_ms)
                && mid[j].model@ == accs[j].model@,
    ensures
        is_model_stats(p, rows, window_min, p.now_ms),
{
    let (now, bucket_ms) = (p.now_ms, p.bucket_ms);
    let out = p.series@;
    assert forall|i: int, j: int|
        #![trigger mid[i], mid[j]]
        0 <= i < mid.len() && 0 <= j < mid.len() && i != j implies mid[i].model@
        != mid[j].model@ by {
        assert(accs[i].model@ != accs[j].model@);
    }
    lemma_permuted(mid, out, |x: ModelSeries, y: ModelSeries| x.model@ != y.model@);
    assert forall|k: int| 0 <= k < out.len() implies is_trend(
        #[trigger] out[k],
        rows,
        now,
        bucket_ms,
    ) by {
        assert(out.contains(out[k]));
        assert(mid.contains(out[k]));
        let j = choose|j: int| 0 <= j < mid.len() && mid[j] == out[k];
        assert(is_trend(mid[j], rows, now, bucket_ms));
    }
    assert forall|i: int| 0 <= i < rows.len() && shown(
        #[trigger] rows[i],
        now,
        bucket_ms,
    ) implies exists|k: int|
        0 <= k < out.len() && (#[trigger] out[k]).model@ == rows[i].model@ by {
        let j = choose|j: int| 0 <= j < accs.len() && (#[trigger] accs[j]).model@ == rows[i].model@;
        assert(mid.contains(mid[j]));
        assert(out.contains(mid[j]));
        let k = choose|k: int| 0 <= k < out.len() && out[k] == mid[j];
        assert(out[k].model@ == rows[i].model@);
    }
    assert forall|k: int, l: int|
        #![trigger out[k], out[l]]
        0 <= k < l < out.len() implies ranks_before(out[k], out[l]) by {
        assert(out[k].le(&out[l]));
    }
}

/// Puts together the trends of all models.
pub fn aggregate_model_stats(rows: Vec<ModelUsageRow>, window_min: i64, now_ms: i64) -> (r:
    ModelStatsPayload)
    requires
        summable(rows@, now_ms, bucket_for(window_min)),
    ensures
        is_model_stats(r, rows@, window_min, now_ms),
{
    checked_model_stats(rows, window_min, now_ms).unwrap()
}

/// The tokens of a trend.
pub open spec fn by_tokens() -> spec_fn(ModelSeries) -> int {
    |s: ModelSeries| s.total_tokens as int
}

proof fn lemma_one_model(
    series: Seq<ModelSeries>,
    part: Seq<ModelUsageRow>,
    row: ModelUsageRow,
    now: i64,
    bucket_ms: i64,
)
    requires
        forall|k: int, l: int|
            #![trigger series[k], series[l]]
            0 <= k < l < series.len() ==> series[k].model@ != series[l].model@,
    ensures
        sum_of(series, by_rows(part.push(row), now, bucket_ms)) == sum_of(
            series,
            by_rows(part, now, bucket_ms),
        ) + if shown(row, now, bucket_ms) && exists|k: int|
            0 <= k < series.len() && (#[trigger] series[k]).model@ == row.model@ {
            row.eff()
        } else {
            0
        },
    decreases series.len(),
{
    let on = |s: Seq<ModelSeries>|
        exists|k: int| 0 <= k < s.len() && (#[trigger] s[k]).model@ == row.model@;
    if series.len() > 0 {
        let before = series.drop_last();
        assert forall|k: int, l: int|
            #![trigger before[k], before[l]]
            0 <= k < l < before.len() implies before[k].model@ != before[l].model@ by {
            assert(before[k] == series[k] && before[l] == series[l]);
        }
        lemma_one_model(before, part, row, now, bucket_ms);
        let last = series.last();
        assert(series[series.len() - 1] == last);
        assert(part.push(row).drop_last() =~= part);
        if last.model@ == row.model@ {
            assert(!on(before)) by {
                if on(before) {
                    let k = choose|k: int|
                        0 <= k < before.len() && (#[trigger] before[k]).model@ == row.model@;
                    assert(series[k] == before[k]);
                }
            }
            assert(on(series));
        } else {
            assert(on(before) == on(series)) by {
                if on(before) {
                    let k = choose|k: int|
                        0 <= k < before.len() && (#[trigger] before[k]).model@ == row.model@;
                    assert(series[k] == before[k]);
                }
                if on(series) {
                    let k = choose|k: int|
                        0 <= k < series.len() && (#[trigger] series[k]).model@ == row.model@;
                    assert(before[k] == series[k]);
                }
            }
        }
    }
}

/// The tokens that some rows have of the model of a trend.
pub open spec fn by_rows(rows: Seq<ModelUsageRow>, now: i64, bucket_ms: i64) -> spec_fn(
    ModelSeries,
) -> int {
    |s: ModelSeries| sum_of(rows, by_model_eff(now, bucket_ms, s.model@))
}

proof fn lemma_all_models(
    series: Seq<ModelSeries>,
    rows: Seq<ModelUsageRow>,
    now: i64,
    bucket_ms: i64,
)
    requires
        forall|k: int, l: int|
            #![trigger series[k], series[l]]
            0 <= k < l < series.len() ==> series[k].model@ != series[l].model@,
        forall|i: int|
            0 <= i < rows.len() && shown(#[trigger] rows[i], now, bucket_ms) ==> exists|k: int|
                0 <= k < series.len() && (#[trigger] series[k]).model@ == rows[i].model@,
    ensures
        sum_of(series, by_rows(rows, now, bucket_ms)) == sum_of(rows, by_all_eff(now, bucket_ms)),
    decreases rows.len(),
{
    if rows.len() == 0 {
        lemma_zero(series, by_rows(rows, now, bucket_ms));
    } else {
        let before = rows.drop_last();
        assert forall|i: int| 0 <= i < before.len() && shown(
            #[trigger] before[i],
            now,
            bucket_ms,
        ) implies exists|k: int|
            0 <= k < series.len() && (#[trigger] series[k]).model@ == before[i].model@ by {
            assert(before[i] == rows[i]);
        }
        lemma_all_models(series, before, now, bucket_ms);
        lemma_one_model(series, before, rows.last(), now, bucket_ms);
        assert(before.push(rows.last()) =~= rows);
        assert(rows[rows.len() - 1] == rows.last());
    }
}

proof fn lemma_zero(series: Seq<ModelSeries>, f: spec_fn(ModelSeries) -> int)
    requires
        forall|s: ModelSeries| #[trigger] f(s) == 0,
    ensures
        sum_of(series, f) == 0,
    decreases series.len(),
{
    if series.len() > 0 {
        lemma_zero(series.drop_last(), f);
    }
}

/// The shares of all models make up the whole, and each is a part of it.
pub proof fn lemma_shares_make_the_whole(
    p: ModelStatsPayload,
    rows: Seq<ModelUsageRow>,
    window_min: i64,
    now: i64,
)
    requires
        is_model_stats(p, rows, window_min, now),
        summable(rows, now, p.bucket_ms),
    ensures
        sum_of(p.series@, by_tokens()) == sum_of(rows, by_all_eff(now, p.bucket_ms)),
        forall|k: int|
            0 <= k < p.series@.len() ==> (#[trigger] p.series@[k]).share.part
                <= p.series@[k].share.whole,
{
    let (series, b) = (p.series@, p.bucket_ms);
    assert forall|k: int, l: int|
        #![trigger series[k], series[l]]
        0 <= k < l < series.len() implies series[k].model@ != series[l].model@ by {
        assert(ranks_before(series[k], series[l]));
        if series[k].model@ == series[l].model@ {
            assert(is_trend(series[k], rows, now, b) && is_trend(series[l], rows, now, b));
        }
    }
    lemma_all_models(series, rows, now, b);
    assert forall|k: int| 0 <= k < series.len() implies #[trigger] by_tokens()(series[k])
        == by_rows(rows, now, b)(series[k]) by {
        assert(is_trend(series[k], rows, now, b));
    }
    lemma_pointwise(series, by_tokens(), by_rows(rows, now, b));
    assert forall|k: int| 0 <= k < series.len() implies (#[trigger] series[k]).share.part
        <= series[k].share.whole by {
        assert(is_trend(series[k], rows, now, b));
        lemma_cell_bounds(rows, now, b, series[k].model@, 0);
    }
}

proof fn lemma_pointwise(
    series: Seq<ModelSeries>,
    f: spec_fn(ModelSeries) -> int,
    g: spec_fn(ModelSeries) -> int,
)
    requires
        forall|k: int| 0 <= k < series.len() ==> #[trigger] f(series[k]) == g(series[k]),
    ensures
        sum_of(series, f) == sum_of(series, g),
    decreases series.len(),
{
    if series.len() > 0 {
        let before = series.drop_last();
        assert forall|k: int| 0 <= k < before.len() implies #[trigger] f(before[k]) == g(
            before[k],
        ) by {
            assert(before[k] == series[k]);
            assert(f(series[k]) == g(series[k]));
        }
        lemma_pointwise(before, f, g);
        assert(f(series[series.len() - 1]) == g(series[series.len() - 1]));
    }
}

/// The time span is the one nearest to what was asked for, among ten minutes, an hour and six hours
/// for a trend, and a quarter of an hour, an hour, six hours and a day for a curve.
pub proof fn lemma_time_span_is_the_nearest(r: i64, x: i64)
    ensures
        nearest(r, model_windows(), x) ==> {
            &&& r == 10 || r == 60 || r == 360
            &&& 2 * x <= 70 <==> r == 10
            &&& 70 < 2 * x <= 420 <==> r == 60
        },
        nearest(r, chart_windows(), x) ==> {
            &&& r == 15 || r == 60 || r == 360 || r == 1440
            &&& 2 * x <= 75 <==> r == 15
            &&& 75 < 2 * x <= 420 <==> r == 60
            &&& 420 < 2 * x <= 1800 <==> r == 360
        },
{
    let (m, c) = (model_windows(), chart_windows());
    assert(m.len() == 3 && m[0] == 10 && m[1] == 60 && m[2] == 360);
    assert(c.len() == 4 && c[0] == 15 && c[1] == 60 && c[2] == 360 && c[3] == 1440);
    if nearest(r, m, x) {
        let i = choose|i: int| 0 <= i < m.len() && m[i] == r;
        assert(i == 0 || i == 1 || i == 2);
    }
    if nearest(r, c, x) {
        let i = choose|i: int| 0 <= i < c.len() && c[i] == r;
        assert(i == 0 || i == 1 || i == 2 || i == 3);
    }
}

/// A call counts where it finished within the time span: not after now, and not longer ago than the
/// span is long. A trend has sixty slots.
pub proof fn lemma_who_counts_for_a_trend(
    p: ModelStatsPayload,
    rows: Seq<ModelUsageRow>,
    window_min: i64,
    now: i64,
    r: ModelUsageRow,
)
    requires
        is_model_stats(p, rows, window_min, now),
    ensures
        p.bucket_ms * 60 == p.window_min * 60_000,
        p.bucket_ms > 0,
        p.window_min == 10 || p.window_min == 60 || p.window_min == 360,
        shown(r, now, p.bucket_ms) == (0 <= now - r.completed_at < p.window_min * 60_000),
        0 <= now - r.completed_at ==> slot(r, now, p.bucket_ms) * p.bucket_ms <= now
            - r.completed_at < (slot(r, now, p.bucket_ms) + 1) * p.bucket_ms,
{
    lemma_time_span_is_the_nearest(p.window_min, window_min);
    let (d, w) = (now - r.completed_at, p.window_min as int);
    assert(w == 10 ==> p.bucket_ms == 10_000);
    assert(w == 60 ==> p.bucket_ms == 60_000);
    assert(w == 360 ==> p.bucket_ms == 360_000);
    if w == 10 {
        assert(d / 10_000 * 10_000 <= d < (d / 10_000 + 1) * 10_000);
    } else if w == 60 {
        assert(d / 60_000 * 60_000 <= d < (d / 60_000 + 1) * 60_000);
    } else {
        assert(d / 360_000 * 360_000 <= d < (d / 360_000 + 1) * 360_000);
    }
}

proof fn lemma_same_span(
    p: ModelStatsPayload,
    q: ModelStatsPayload,
    a: Seq<ModelUsageRow>,
    b: Seq<ModelUsageRow>,
    window_min: i64,
    now: i64,
)
    requires
        is_model_stats(p, a, window_min, now),
        is_model_stats(q, b, window_min, now),
    ensures
        p.window_min == q.window_min,
        p.bucket_ms == q.bucket_ms,
{
    lemma_time_span_is_the_nearest(p.window_min, window_min);
    lemma_time_span_is_the_nearest(q.window_min, window_min);
}

/// A call that finished outside the time span changes no trend.
pub proof fn lemma_call_outside_the_span_does_not_count(
    p: ModelStatsPayload,
    q: ModelStatsPayload,
    rows: Seq<ModelUsageRow>,
    r: ModelUsageRow,
    window_min: i64,
    now: i64,
    k: int,
    l: int,
)
    requires
        is_model_stats(p, rows, window_min, now),
        is_model_stats(q, rows.push(r), window_min, now),
        now < r.completed_at || now - r.completed_at >= p.window_min * 60_000,
        0 <= k < p.series@.len(),
        0 <= l < q.series@.len(),
        p.series@[k].model@ == q.series@[l].model@,
    ensures
        ({
            let (a, b) = (p.series@[k], q.series@[l]);
            &&& a.total_calls == b.total_calls
            &&& a.total_tokens == b.total_tokens
            &&& a.avg_tps == b.avg_tps
            &&& a.buckets@ == b.buckets@
            &&& a.share == b.share
        }),
{
    lemma_same_span(p, q, rows, rows.push(r), window_min, now);
    lemma_who_counts_for_a_trend(p, rows, window_min, now, r);
    let (a, b) = (p.series@[k], q.series@[l]);
    let (m, w) = (a.model@, p.bucket_ms);
    assert(is_trend(a, rows, now, w));
    assert(is_trend(b, rows.push(r), now, w));
    lemma_sum_push(rows, r, by_model_calls(now, w, m));
    lemma_sum_push(rows, r, by_model_eff(now, w, m));
    lemma_sum_push(rows, r, by_model_gen(now, w, m));
    lemma_sum_push(rows, r, by_all_eff(now, w));
    assert forall|i: int| 0 <= i < MODEL_BUCKETS implies a.buckets@[i] == b.buckets@[i] by {
        lemma_sum_push(rows, r, by_cell_eff(now, w, m, i));
        lemma_sum_push(rows, r, by_cell_gen(now, w, m, i));
        lemma_sum_push(rows, r, by_cell_calls(now, w, m, i));
        assert(a.buckets@[i] == cell(rows, now, w, m, i));
        assert(b.buckets@[i] == cell(rows.push(r), now, w, m, i));
    }
    assert(a.buckets@ =~= b.buckets@);
}

/// A call within the time span counts for the trend of its model, with one call, with what it
/// streamed out and with its time of generation; in the slot in which it finished, counted back from
/// now, and in no other. The trends of other models stay as they are, but for their share: its tokens
/// are among those of all.
pub proof fn lemma_call_counts_for_its_model(
    p: ModelStatsPayload,
    q: ModelStatsPayload,
    rows: Seq<ModelUsageRow>,
    r: ModelUsageRow,
    window_min: i64,
    now: i64,
    k: int,
    l: int,
    i: int,
)
    requires
        is_model_stats(p, rows, window_min, now),
        is_model_stats(q, rows.push(r), window_min, now),
        summable(rows.push(r), now, p.bucket_ms),
        rows.len() < u64::MAX,
        0 <= now - r.completed_at < p.window_min * 60_000,
        0 <= k < p.series@.len(),
        0 <= l < q.series@.len(),
        p.series@[k].model@ == q.series@[l].model@,
        0 <= i < 60,
    ensures
        ({
            let (a, b) = (p.series@[k], q.series@[l]);
            let (x, y) = (a.buckets@[i], b.buckets@[i]);
            let tokens = r.output_tokens + r.reasoning_tokens;
            let ms = generation_ms(r.first_token_at, r.completed_at, r.duration_ms);
            let age = now - r.completed_at;
            let here = i * p.window_min * 1_000 <= age < (i + 1) * p.window_min * 1_000;
            &&& a.buckets@.len() == 60
            &&& b.buckets@.len() == 60
            &&& b.share.whole == a.share.whole + tokens
            &&& b.share.part == b.total_tokens
            &&& if a.model@ == r.model@ {
                &&& b.total_calls == a.total_calls + 1
                &&& b.total_tokens == a.total_tokens + tokens
                &&& b.avg_tps.tokens == a.avg_tps.tokens + tokens
                &&& b.avg_tps.ms == a.avg_tps.ms + ms
                &&& here ==> y.tps.tokens == x.tps.tokens + tokens && y.tps.ms == x.tps.ms + ms
                    && y.calls == x.calls + 1 && y.tokens == x.tokens + tokens
                &&& !here ==> x == y
            } else {
                &&& b.total_calls == a.total_calls
                &&& b.total_tokens == a.total_tokens
                &&& b.avg_tps == a.avg_tps
                &&& x == y
            }
        }),
{
    let all = rows.push(r);
    let n = rows.len() as int;
    lemma_same_span(p, q, rows, all, window_min, now);
    lemma_who_counts_for_a_trend(p, rows, window_min, now, r);
    let (a, b) = (p.series@[k], q.series@[l]);
    let (m, w) = (a.model@, p.bucket_ms);
    assert(is_trend(a, rows, now, w));
    assert(is_trend(b, all, now, w));
    assert(all.take(n) =~= rows && all.take(n + 1) =~= all && all[n] == r);
    lemma_row_adds(all, n, now, w, m);
    lemma_row_adds_to_cell(all, n, now, w, m, i);
    lemma_sum_push(rows, r, by_all_eff(now, w));
    lemma_sum_prefix(rows, by_all_eff(now, w), 0);
    lemma_cell_bounds(rows, now, w, m, i);
    lemma_cell_bounds(all, now, w, m, i);
    lemma_calls_bound(rows, now, w, m);
    lemma_calls_bound(all, now, w, m);
    assert(sum_of(all, by_model_gen(now, w, m)) <= i64::MAX);
    assert(a.buckets@[i] == cell(rows, now, w, m, i));
    assert(b.buckets@[i] == cell(all, now, w, m, i));
    let (s, age) = (slot(r, now, w), now - r.completed_at);
    assert(w == p.window_min * 1_000);
    assert((i * p.window_min * 1_000 <= age < (i + 1) * p.window_min * 1_000) == (s == i)) by {
        assert(i * p.window_min * 1_000 == i * w) by (nonlinear_arith)
            requires
                w == p.window_min * 1_000,
        ;
        assert((i + 1) * p.window_min * 1_000 == (i + 1) * w) by (nonlinear_arith)
            requires
                w == p.window_min * 1_000,
        ;
        assert(i * w <= age < (i + 1) * w ==> s == i) by (nonlinear_arith)
            requires
                s * w <= age < (s + 1) * w,
                w > 0,
        ;
    }
}

/// A model that has a call in the time span has a trend; and one that has a trend has such a call.
pub proof fn lemma_models_with_calls_have_trends(
    p: ModelStatsPayload,
    rows: Seq<ModelUsageRow>,
    window_min: i64,
    now: i64,
    i: int,
    k: int,
)
    requires
        is_model_stats(p, rows, window_min, now),
    ensures
        0 <= i < rows.len() && 0 <= now - rows[i].completed_at < p.window_min * 60_000 ==> exists|
            k: int,
        | 0 <= k < p.series@.len() && (#[trigger] p.series@[k]).model@ == rows[i].model@,
        0 <= k < p.series@.len() ==> exists|i: int|
            0 <= i < rows.len() && (#[trigger] rows[i]).model@ == p.series@[k].model@ && 0 <= now
                - rows[i].completed_at < p.window_min * 60_000,
{
    if 0 <= i < rows.len() {
        lemma_who_counts_for_a_trend(p, rows, window_min, now, rows[i]);
    }
    if 0 <= k < p.series@.len() {
        let m = p.series@[k].model@;
        assert(is_trend(p.series@[k], rows, now, p.bucket_ms));
        if forall|i: int| 0 <= i < rows.len() ==> !of_model(#[trigger] rows[i], now, p.bucket_ms, m) {
            lemma_no_rows_of(rows, now, p.bucket_ms, m);
        }
        let i = choose|i: int|
            0 <= i < rows.len() && of_model(#[trigger] rows[i], now, p.bucket_ms, m);
        lemma_who_counts_for_a_trend(p, rows, window_min, now, rows[i]);
        assert(rows[i].model@ == m);
    }
}

/// The model with most tokens comes first, and none comes twice. The highest speed of a model is
/// that of its fastest slot.
pub proof fn lemma_models_are_ranked(
    p: ModelStatsPayload,
    rows: Seq<ModelUsageRow>,
    window_min: i64,
    now: i64,
    k: int,
    l: int,
)
    requires
        is_model_stats(p, rows, window_min, now),
        0 <= k < l < p.series@.len(),
    ensures
        p.series@[k].total_tokens >= p.series@[l].total_tokens,
        p.series@[k].model@ != p.series@[l].model@,
        p.series@[k].total_tokens == p.series@[l].total_tokens ==> text_le(
            p.series@[k].model@,
            p.series@[l].model@,
        ),
        forall|i: int|
            0 <= i < 60 ==> !(#[trigger] p.series@[k].buckets@[i]).tps.faster(p.series@[k].peak_tps),
        p.series@[k].peak_tps.tokens > 0 ==> exists|i: int|
            0 <= i < 60 && (#[trigger] p.series@[k].buckets@[i]).tps == p.series@[k].peak_tps,
{
    let (a, b) = (p.series@[k], p.series@[l]);
    assert(ranks_before(a, b));
    assert(is_trend(a, rows, now, p.bucket_ms) && is_trend(b, rows, now, p.bucket_ms));
}

/// A slot of a trend is a sixtieth of the time span that is nearest to the one asked for.
pub proof fn lemma_slot_is_a_sixtieth(r: i64, x: i64)
    requires
        nearest(r, model_windows(), x),
    ensures
        bucket_for(x) * 60 == r * 60_000,
{
    lemma_time_span_is_the_nearest(r, x);
}

/// Trends tell the time at which they were made, and the time span that is nearest to the one asked
/// for.
pub proof fn lemma_trends_tell_their_time(
    p: ModelStatsPayload,
    rows: Seq<ModelUsageRow>,
    window_min: i64,
    now: i64,
)
    requires
        is_model_stats(p, rows, window_min, now),
    ensures
        p.now_ms == now,
        2 * window_min <= 70 <==> p.window_min == 10,
        70 < 2 * window_min <= 420 <==> p.window_min == 60,
        420 < 2 * window_min <==> p.window_min == 360,
        p.bucket_ms == bucket_for(window_min),
{
    lemma_time_span_is_the_nearest(p.window_min, window_min);
    lemma_slot_is_a_sixtieth(p.window_min, window_min);
}

} // verus!
