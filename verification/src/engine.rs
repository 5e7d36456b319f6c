//! The calls of the day as they are read from the usage database, poll after poll.

use vstd::prelude::*;
use vstd::hash_set::StringHashSet;
use crate::aggregate::{
    countable, lemma_call_counts_for_the_day, lemma_newest_call_is_the_last,
    lemma_session_counts_once, shows, Aggregator,
};
use crate::chart::{
    chart_bucket_for, chart_summable, checked_chart_stats, empty_chart_stats, is_chart,
    lemma_call_counts_in_one_slot, ChartStatsPayload,
};
use crate::history::{lemma_call_adds_to_all_time, lemma_grows, Finished, HistoryStats, HistoryView};
use crate::inflight::{candidates, candidates_of, in_flight, inflight_from_rows, SessionRows};
use crate::metrics::{gen_ms_from, generation_ms, no_rate, Call, Rate, Snapshot};

use crate::trend::{
    bucket_for, chart_windows, checked_model_stats, clamp_chart_window, clamp_window_min,
    empty_model_stats, is_model_stats, lemma_time_span_is_the_nearest, lemma_who_counts_for_a_trend,
    model_windows, nearest, shown, summable, ModelStatsPayload, ModelUsageRow,
};

verus! {

/// The tokens in a column: nothing, or less than nothing, is none.
pub open spec fn counted(column: Option<i64>) -> u64 {
    match column {
        Some(v) if v > 0 => v as u64,
        _ => 0,
    }
}

/// Reads the tokens in a column.
pub fn tokens_from_column(column: Option<i64>) -> (r: u64)
    ensures
        r == counted(column),
{
    match column {
        Some(v) if v > 0 => v as u64,
        _ => 0,
    }
}

/// So many minutes ago.
pub open spec fn cutoff_of(minutes: i64, now: i64) -> int {
    now - minutes * 60_000
}

/// Calls that finished earlier than this do not come into a trend.
pub fn model_cutoff(window_min: i64, now: i64) -> (r: i64)
    requires
        i64::MIN + 360 * 60_000 <= now,
    ensures
        exists|w: i64| #[trigger] nearest(w, model_windows(), window_min) && r == cutoff_of(w, now),
{
    let w = clamp_window_min(window_min);
    now - w * 60_000
}

/// Calls that finished earlier than this do not come into a curve.
pub fn chart_cutoff(window_min: i64, now: i64) -> (r: i64)
    requires
        i64::MIN + 1440 * 60_000 <= now,
    ensures
        exists|w: i64| #[trigger] nearest(w, chart_windows(), window_min) && r == cutoff_of(w, now),
{
    let w = clamp_chart_window(window_min);
    now - w * 60_000
}

/// A row of the usage table: a call that finished today.
#[derive(Debug, PartialEq)]
pub struct UsageRow {
    pub id: String,
    pub started_at: i64,
    pub first_token_at: Option<i64>,
    pub completed_at: i64,
    pub duration_ms: Option<i64>,
    pub output_tokens: Option<i64>,
    pub reasoning_tokens: Option<i64>,
    pub input_tokens: Option<i64>,
    pub cache_creation_input_tokens: Option<i64>,
    pub cache_read_input_tokens: Option<i64>,
    pub session_id: String,
}

impl UsageRow {
    /// The times in the row lie close enough together to be subtracted.
    pub open spec fn sound(self) -> bool {
        generation_ms(self.first_token_at, self.completed_at, self.duration_ms) <= i64::MAX
    }

    /// The call that the row records.
    pub open spec fn call(self) -> Call {
        Call {
            id: self.id,
            started_ms: self.started_at,
            first_token_ms: self.first_token_at,
            completed_ms: self.completed_at,
            gen_ms: generation_ms(self.first_token_at, self.completed_at, self.duration_ms) as i64,
            output: counted(self.output_tokens),
            reasoning: counted(self.reasoning_tokens),
            input: counted(self.input_tokens),
            cache_creation: counted(self.cache_creation_input_tokens),
            cache_read: counted(self.cache_read_input_tokens),
            session: self.session_id,
        }
    }

    /// What counts of it for all time.
    pub open spec fn finished(self) -> Finished {
        Finished {
            first_token: self.first_token_at,
            completed: self.completed_at,
            gen_ms: generation_ms(self.first_token_at, self.completed_at, self.duration_ms),
            eff: counted(self.output_tokens) + counted(self.reasoning_tokens),
        }
    }

    fn to_call(&self) -> (r: Call)
        requires
            self.sound(),
        ensures
            r == self.call(),
    {
        Call {
            id: self.id.clone(),
            started_ms: self.started_at,
            first_token_ms: self.first_token_at,
            completed_ms: self.completed_at,
            gen_ms: gen_ms_from(self.first_token_at, self.completed_at, self.duration_ms),
            output: tokens_from_column(self.output_tokens),
            reasoning: tokens_from_column(self.reasoning_tokens),
            input: tokens_from_column(self.input_tokens),
            cache_creation: tokens_from_column(self.cache_creation_input_tokens),
            cache_read: tokens_from_column(self.cache_read_input_tokens),
            session: self.session_id.clone(),
        }
    }
}

/// A row of the usage table: a call that finished before today.
#[derive(Clone, Copy, Debug, PartialEq)]
pub struct HistoryRow {
    pub first_token_at: Option<i64>,
    pub completed_at: i64,
    pub duration_ms: Option<i64>,
    pub output_tokens: Option<i64>,
    pub reasoning_tokens: Option<i64>,
}

impl HistoryRow {
    /// The times in the row lie close enough together to be subtracted.
    pub open spec fn sound(self) -> bool {
        generation_ms(self.first_token_at, self.completed_at, self.duration_ms) <= i64::MAX
    }

    /// What counts of it for all time.
    pub open spec fn finished(self) -> Finished {
        Finished {
            first_token: self.first_token_at,
            completed: self.completed_at,
            gen_ms: generation_ms(self.first_token_at, self.completed_at, self.duration_ms),
            eff: counted(self.output_tokens) + counted(self.reasoning_tokens),
        }
    }
}

/// What one look into the database gave.
#[derive(Debug, PartialEq)]
pub struct Batch {
    /// The calls that finished before today; empty where they were not asked for or not read.
    pub history: Vec<HistoryRow>,
    /// The calls that finished today, or nothing where they could not be read.
    pub rows: Option<Vec<UsageRow>>,
}

/// What counts of each row.
pub open spec fn all_history(rows: Seq<HistoryRow>) -> Seq<Finished> {
    rows.map_values(|r: HistoryRow| r.finished())
}

/// What counts of each row.
pub open spec fn all_finished(rows: Seq<UsageRow>) -> Seq<Finished> {
    rows.map_values(|r: UsageRow| r.finished())
}

/// The call of each row.
pub open spec fn all_calls(rows: Seq<UsageRow>) -> Seq<Call> {
    rows.map_values(|r: UsageRow| r.call())
}

/// The names of the calls in some rows.
pub open spec fn ids(rows: Seq<UsageRow>) -> Set<Seq<char>>
    decreases rows.len(),
{
    if rows.len() == 0 {
        Set::empty()
    } else {
        ids(rows.drop_last()).insert(rows.last().id@)
    }
}

/// The rows whose call was not met before, neither earlier nor in a row further up.
pub open spec fn fresh(seen: Set<Seq<char>>, rows: Seq<UsageRow>) -> Seq<UsageRow>
    decreases rows.len(),
{
    if rows.len() == 0 {
        Seq::empty()
    } else {
        let before = rows.drop_last();
        let row = rows.last();
        if seen.contains(row.id@) || ids(before).contains(row.id@) {
            fresh(seen, before)
        } else {
            fresh(seen, before).push(row)
        }
    }
}

/// The calls that finished on the day that began at `start`.
pub open spec fn of_the_day(calls: Seq<Call>, start: i64) -> Seq<Call> {
    calls.filter(|c: Call| c.completed_ms >= start)
}

/// What an [`Engine`] holds.
pub ghost struct EngineView {
    pub calls: Seq<Call>,
    pub today: (i32, u32, u32),
    pub ingested: Set<Seq<char>>,
    pub hist: HistoryView,
    pub hist_loaded: bool,
}

impl EngineView {
    /// A new day has begun: nothing of the old one remains.
    pub open spec fn on(self, today: (i32, u32, u32)) -> EngineView {
        let calls = if today == self.today {
            self.calls
        } else {
            Seq::empty()
        };
        EngineView {
            calls,
            today,
            ingested: if calls.len() == 0 {
                Set::empty()
            } else {
                self.ingested
            },
            ..self
        }
    }

    /// The calls of earlier days are known; they are counted once.
    pub open spec fn with_history(self, rows: Seq<HistoryRow>) -> EngineView {
        EngineView {
            hist: if self.hist_loaded {
                self.hist
            } else {
                self.hist.with_all(all_history(rows))
            },
            hist_loaded: true,
            ..self
        }
    }

    /// The rows that were not met before are taken in, and what does not belong to the day goes.
    pub open spec fn with_rows(self, rows: Seq<UsageRow>, start: i64) -> EngineView {
        let news = fresh(self.ingested, rows);
        EngineView {
            calls: of_the_day(self.calls + all_calls(news), start),
            ingested: self.ingested.union(ids(rows)),
            hist: self.hist.with_all(all_finished(news)),
            ..self
        }
    }

    /// A poll on the day `today`, which began at `start`.
    pub open spec fn polled(
        self,
        today: (i32, u32, u32),
        start: i64,
        batch: Option<Batch>,
    ) -> EngineView {
        let e = self.on(today);
        match batch {
            None => e,
            Some(b) => {
                let e = e.with_history(b.history@);
                match b.rows {
                    None => e,
                    Some(rows) => e.with_rows(rows@, start),
                }
            },
        }
    }

    /// The calls that a poll takes in.
    pub open spec fn news(self, today: (i32, u32, u32), batch: Option<Batch>) -> Seq<Call> {
        match batch {
            Some(b) => match b.rows {
                Some(rows) => all_calls(fresh(self.on(today).ingested, rows@)),
                None => Seq::empty(),
            },
            None => Seq::empty(),
        }
    }
}

/// All times and sums that a poll has to form can be held in 64 bits.
pub open spec fn acceptable(
    e: EngineView,
    today: (i32, u32, u32),
    start: i64,
    batch: Option<Batch>,
) -> bool {
    &&& e.polled(today, start, batch).hist.fits()
    &&& batch matches Some(b) ==> {
        &&& !e.hist_loaded ==> forall|i: int|
            0 <= i < b.history@.len() ==> (#[trigger] b.history@[i]).sound()
        &&& b.rows matches Some(rows) ==> forall|i: int|
            0 <= i < rows@.len() ==> (#[trigger] rows@[i]).sound()
    }
}

proof fn lemma_ids(rows: Seq<UsageRow>)
    ensures
        forall|i: int| 0 <= i < rows.len() ==> ids(rows).contains((#[trigger] rows[i]).id@),
        forall|s: Seq<char>|
            ids(rows).contains(s) ==> exists|i: int| 0 <= i < rows.len() && (#[trigger] rows[i]).id@ == s,
    decreases rows.len(),
{
    if rows.len() > 0 {
        let before = rows.drop_last();
        lemma_ids(before);
        assert forall|i: int| 0 <= i < rows.len() implies ids(rows).contains(
            (#[trigger] rows[i]).id@,
        ) by {
            if i < before.len() {
                assert(before[i] == rows[i]);
            }
        }
        assert forall|s: Seq<char>| ids(rows).contains(s) implies exists|i: int|
            0 <= i < rows.len() && (#[trigger] rows[i]).id@ == s by {
            if ids(before).contains(s) {
                let i = choose|i: int| 0 <= i < before.len() && (#[trigger] before[i]).id@ == s;
                assert(rows[i].id@ == s);
            } else {
                assert(rows[rows.len() - 1].id@ == s);
            }
        }
    }
}

proof fn lemma_fresh_prefix(seen: Set<Seq<char>>, rows: Seq<UsageRow>, n: int)
    requires
        0 <= n <= rows.len(),
    ensures
        fresh(seen, rows.take(n)).len() <= fresh(seen, rows).len(),
        fresh(seen, rows.take(n)) == fresh(seen, rows).take(fresh(seen, rows.take(n)).len() as int),
    decreases rows.len(),
{
    if n < rows.len() {
        lemma_fresh_prefix(seen, rows.drop_last(), n);
        assert(rows.drop_last().take(n) =~= rows.take(n));
        let part = fresh(seen, rows.take(n));
        assert(fresh(seen, rows).take(part.len() as int) =~= fresh(seen, rows.drop_last()).take(
            part.len() as int,
        ));
    } else {
        assert(rows.take(n) =~= rows);
        assert(fresh(seen, rows).take(fresh(seen, rows).len() as int) =~= fresh(seen, rows));
    }
}

fn keep_the_day(calls: Vec<Call>, start: i64) -> (r: Vec<Call>)
    ensures
        r@ == of_the_day(calls@, start),
{
    reveal(Seq::filter);
    let ghost all = calls@;
    let mut r: Vec<Call> = Vec::new();
    assert(r@ =~= of_the_day(all.take(0), start));
    for c in it: calls
        invariant
            it.seq() == all,
            r@ == of_the_day(all.take(it.index() as int), start),
    {
        reveal(Seq::filter);
        assert(all.take(it.index() + 1).drop_last() =~= all.take(it.index() as int));
        if c.completed_ms >= start {
            r.push(c);
        }
    }
    assert(all.take(all.len() as int) =~= all);
    r
}

fn count_history(hist: &mut HistoryStats, rows: &Vec<HistoryRow>)
    requires
        old(hist)@.with_all(all_history(rows@)).fits(),
        forall|i: int| 0 <= i < rows@.len() ==> (#[trigger] rows@[i]).sound(),
    ensures
        final(hist)@ == old(hist)@.with_all(all_history(rows@)),
{
    let ghost start = hist@;
    let ghost all = all_history(rows@);
    let mut i: usize = 0;
    assert(all.take(0) =~= Seq::empty());
    while i < rows.len()
        invariant
            i <= rows.len(),
            all == all_history(rows@),
            start.with_all(all).fits(),
            forall|i: int| 0 <= i < rows@.len() ==> (#[trigger] rows@[i]).sound(),
            hist@ == start.with_all(all.take(i as int)),
        decreases rows.len() - i,
    {
        let row = rows[i];
        proof {
            lemma_grows(start, all, i + 1);
            assert(all.take(i + 1).drop_last() =~= all.take(i as int));
            assert(all[i as int] == row.finished());
        }
        let gen: i64 = gen_ms_from(row.first_token_at, row.completed_at, row.duration_ms);
        let eff: u64 = tokens_from_column(row.output_tokens) + tokens_from_column(
            row.reasoning_tokens,
        );
        hist.fold(row.first_token_at, row.completed_at, gen, eff);
        i += 1;
    }
    assert(all.take(i as int) =~= all);
}

fn is_sound(ft: Option<i64>, completed: i64, dur: Option<i64>) -> (r: bool)
    ensures
        r == (generation_ms(ft, completed, dur) <= i64::MAX),
{
    match ft {
        Some(f) if completed > f => completed as i128 - f as i128 <= i64::MAX as i128,
        _ => true,
    }
}

struct Sums {
    eff: u64,
    gen_ms: i64,
}

impl Sums {
    spec fn of(self, h: HistoryView) -> bool {
        self.eff == h.eff && self.gen_ms == h.gen_ms
    }

    fn plus(&mut self, gen: i64, eff: u64) -> (r: bool)
        requires
            gen >= 0,
        ensures
            r == (old(self).eff + eff <= u64::MAX && old(self).gen_ms + gen <= i64::MAX),
            r ==> final(self).eff == old(self).eff + eff && final(self).gen_ms == old(self).gen_ms
                + gen,
    {
        if eff > u64::MAX - self.eff || self.gen_ms > i64::MAX - gen {
            return false;
        }
        self.eff = self.eff + eff;
        self.gen_ms = self.gen_ms + gen;
        true
    }
}

fn add_history(sums: &mut Sums, rows: &Vec<HistoryRow>, Ghost(h): Ghost<HistoryView>) -> (r: bool)
    requires
        old(sums).of(h),
    ensures
        r == (h.with_all(all_history(rows@)).fits() && forall|i: int|
            0 <= i < rows@.len() ==> (#[trigger] rows@[i]).sound()),
        r ==> final(sums).of(h.with_all(all_history(rows@))),
{
    let ghost all = all_history(rows@);
    let mut i: usize = 0;
    assert(all.take(0) =~= Seq::empty());
    while i < rows.len()
        invariant
            i <= rows.len(),
            all == all_history(rows@),
            forall|j: int| 0 <= j < i ==> (#[trigger] rows@[j]).sound(),
            sums.of(h.with_all(all.take(i as int))),
        decreases rows.len() - i,
    {
        let row = rows[i];
        proof {
            lemma_grows(h, all, i + 1);
            assert(all.take(i + 1).drop_last() =~= all.take(i as int));
            assert(all[i as int] == row.finished());
        }
        if !is_sound(row.first_token_at, row.completed_at, row.duration_ms) {
            assert(!rows@[i as int].sound());
            return false;
        }
        let gen: i64 = gen_ms_from(row.first_token_at, row.completed_at, row.duration_ms);
        let eff: u64 = tokens_from_column(row.output_tokens) + tokens_from_column(
            row.reasoning_tokens,
        );
        if !sums.plus(gen, eff) {
            return false;
        }
        i += 1;
    }
    assert(all.take(i as int) =~= all);
    true
}

fn add_rows(
    sums: &mut Sums,
    seen: &StringHashSet,
    rows: &Vec<UsageRow>,
    Ghost(h): Ghost<HistoryView>,
) -> (r: bool)
    requires
        old(sums).of(h),
    ensures
        r == (h.with_all(all_finished(fresh(seen@, rows@))).fits() && forall|i: int|
            0 <= i < rows@.len() ==> (#[trigger] rows@[i]).sound()),
{
    let ghost all = all_finished(fresh(seen@, rows@));
    let mut met = StringHashSet::new();
    let mut i: usize = 0;
    proof {
        assert(rows@.take(0) =~= Seq::empty());
        assert(all_finished(fresh(seen@, rows@.take(0))) =~= Seq::empty());
    }
    while i < rows.len()
        invariant
            i <= rows.len(),
            all == all_finished(fresh(seen@, rows@)),
            met@ == ids(rows@.take(i as int)),
            forall|j: int| 0 <= j < i ==> (#[trigger] rows@[j]).sound(),
            sums.of(h.with_all(all_finished(fresh(seen@, rows@.take(i as int))))),
        decreases rows.len() - i,
    {
        let row = &rows[i];
        let ghost part = fresh(seen@, rows@.take(i as int));
        let ghost next = fresh(seen@, rows@.take(i + 1));
        proof {
            assert(rows@.take(i + 1).drop_last() =~= rows@.take(i as int));
            lemma_fresh_prefix(seen@, rows@, i + 1);
            lemma_grows(h, all, next.len() as int);
            assert(all.take(next.len() as int) =~= all_finished(next));
        }
        if !is_sound(row.first_token_at, row.completed_at, row.duration_ms) {
            assert(!rows@[i as int].sound());
            return false;
        }
        if !seen.contains(row.id.as_str()) && !met.contains(row.id.as_str()) {
            proof {
                assert(all_finished(next) =~= all_finished(part).push(row.finished()));
                assert(all_finished(next).drop_last() =~= all_finished(part));
            }
            let gen: i64 = gen_ms_from(row.first_token_at, row.completed_at, row.duration_ms);
            let eff: u64 = tokens_from_column(row.output_tokens) + tokens_from_column(
                row.reasoning_tokens,
            );
            if !sums.plus(gen, eff) {
                return false;
            }
        }
        met.insert(row.id.clone());
        i += 1;
    }
    assert(rows@.take(i as int) =~= rows@);
    true
}

/// The calls of the day, those that were met, and the sums over all time.
pub struct Engine {
    pub agg: Aggregator,
    pub ingested: StringHashSet,
    pub hist: HistoryStats,
    pub hist_loaded: bool,
    /// Where the usage database lies, where that is known.
    pub db_path: Option<String>,
}

impl View for Engine {
    type V = EngineView;

    open spec fn view(&self) -> EngineView {
        EngineView {
            calls: self.agg.calls@,
            today: self.agg.today_ymd,
            ingested: self.ingested@,
            hist: self.hist@,
            hist_loaded: self.hist_loaded,
        }
    }
}

/// What stands in place of the path of a database that was not found.
pub open spec fn source_label(db_path: Option<String>) -> Seq<char> {
    match db_path {
        Some(p) => p@,
        None => "(未找到 ~/.zcode/cli/db/db.sqlite)"@,
    }
}

impl Engine {
    /// Nothing has been read yet.
    pub fn new(db_path: Option<String>, today: (i32, u32, u32)) -> (r: Self)
        ensures
            r.db_path == db_path,
            r@ == (EngineView {
                calls: Seq::empty(),
                today,
                ingested: Set::empty(),
                hist: HistoryView { eff: 0, gen_ms: 0, max: no_rate() },
                hist_loaded: false,
            }),
    {
        let agg = Aggregator::new(today);
        assert(agg.calls@ =~= Seq::empty());
        Engine {
            agg,
            ingested: StringHashSet::new(),
            hist: HistoryStats::default(),
            hist_loaded: false,
            db_path,
        }
    }

    /// Names the place that the calls are read from.
    pub fn data_source_label(&self) -> (r: String)
        ensures
            r@ == source_label(self.db_path),
    {
        match &self.db_path {
            Some(p) => p.clone(),
            None => "(未找到 ~/.zcode/cli/db/db.sqlite)".to_owned(),
        }
    }

    /// Tests whether the calls of earlier days are still to be read.
    pub fn history_due(&self) -> (r: bool)
        ensures
            r == !self@.hist_loaded,
    {
        !self.hist_loaded
    }

    /// Tests whether all times and sums that a poll has to form can be held in 64 bits.
    pub fn accepts(&self, today: (i32, u32, u32), today_start_ms: i64, source: &Option<Batch>) -> (r:
        bool)
        ensures
            r == acceptable(self@, today, today_start_ms, *source),
    {
        let ghost e = self@.on(today);
        let batch = match source {
            Some(b) => b,
            None => return true,
        };
        let mut sums = Sums { eff: self.hist.total_eff, gen_ms: self.hist.total_gen_ms };
        let ghost known = e.with_history(batch.history@);
        let mut good = true;
        if !self.hist_loaded {
            good = add_history(&mut sums, &batch.history, Ghost(e.hist));
        }
        match &batch.rows {
            None => good,
            Some(rows) => {
                let ghost news = all_finished(fresh(e.ingested, rows@));
                proof {
                    lemma_grows(known.hist, news, 0);
                    assert(news.take(0) =~= Seq::empty());
                }
                if !good {
                    return false;
                }
                let same_day = today.0 == self.agg.today_ymd.0 && today.1 == self.agg.today_ymd.1
                    && today.2 == self.agg.today_ymd.2;
                let keep = same_day && self.agg.calls.len() > 0;
                let nothing = StringHashSet::new();
                let seen = if keep {
                    &self.ingested
                } else {
                    &nothing
                };
                add_rows(&mut sums, seen, rows, Ghost(known.hist))
            },
        }
    }

    /// Takes in what was read on the day `today`, which began at `today_start_ms`, and returns the
    /// calls that were not met before. Without a database there is nothing to take in.
    pub fn poll(
        &mut self,
        today: (i32, u32, u32),
        today_start_ms: i64,
        source: Option<Batch>,
    ) -> (r: Vec<Call>)
        requires
            acceptable(old(self)@, today, today_start_ms, source),
        ensures
            final(self)@ == old(self)@.polled(today, today_start_ms, source),
            final(self).db_path == old(self).db_path,
            r@ == old(self)@.news(today, source),
    {
        let ghost start = self@;
        self.agg.rollover_if_needed(today);
        if self.agg.calls.len() == 0 {
            self.ingested.clear();
        }
        assert(self@ =~= start.on(today));
        let batch = match source {
            Some(b) => b,
            None => return Vec::new(),
        };
        if !self.hist_loaded {
            self.hist_loaded = true;
            proof {
                if batch.rows is Some {
                    let rows = batch.rows->0;
                    let h = start.on(today).hist.with_all(all_history(batch.history@));
                    let news = all_finished(fresh(start.on(today).ingested, rows@));
                    lemma_grows(h, news, 0);
                    assert(news.take(0) =~= Seq::empty());
                }
            }
            count_history(&mut self.hist, &batch.history);
        }
        let ghost e = start.on(today).with_history(batch.history@);
        assert(self@ =~= e);
        let rows = match batch.rows {
            Some(rows) => rows,
            None => return Vec::new(),
        };
        let ghost seen = e.ingested;
        let ghost news = fresh(seen, rows@);
        let mut new_calls: Vec<Call> = Vec::new();
        let mut i: usize = 0;
        proof {
            assert(rows@.take(0) =~= Seq::empty());
            assert(seen.union(ids(rows@.take(0))) =~= seen);
            assert(all_calls(fresh(seen, rows@.take(0))) =~= Seq::empty());
            assert(all_finished(fresh(seen, rows@.take(0))) =~= Seq::empty());
            assert(e.calls + all_calls(fresh(seen, rows@.take(0))) =~= e.calls);
        }
        while i < rows.len()
            invariant
                i <= rows.len(),
                forall|i: int| 0 <= i < rows@.len() ==> (#[trigger] rows@[i]).sound(),
                news == fresh(seen, rows@),
                e.hist.with_all(all_finished(news)).fits(),
                self.hist_loaded,
                self.agg.today_ymd == e.today,
                self.db_path == old(self).db_path,
                self.ingested@ == seen.union(ids(rows@.take(i as int))),
                self.agg.calls@ == e.calls + all_calls(fresh(seen, rows@.take(i as int))),
                self.hist@ == e.hist.with_all(all_finished(fresh(seen, rows@.take(i as int)))),
                new_calls@ == all_calls(fresh(seen, rows@.take(i as int))),
            decreases rows.len() - i,
        {
            let row = &rows[i];
            let ghost part = fresh(seen, rows@.take(i as int));
            let ghost next = fresh(seen, rows@.take(i + 1));
            proof {
                assert(rows@.take(i + 1).drop_last() =~= rows@.take(i as int));
                lemma_fresh_prefix(seen, rows@, i + 1);
                let all = all_finished(news);
                lemma_grows(e.hist, all, next.len() as int);
                assert(all.take(next.len() as int) =~= all_finished(next));
                assert(seen.union(ids(rows@.take(i + 1))) =~= seen.union(
                    ids(rows@.take(i as int)),
                ).insert(row.id@));
            }
            if !self.ingested.contains(row.id.as_str()) {
                proof {
                    assert(next == part.push(*row));
                    assert(all_finished(next) =~= all_finished(part).push(row.finished()));
                    assert(all_finished(next).drop_last() =~= all_finished(part));
                    assert(all_calls(next) =~= all_calls(part).push(row.call()));
                    assert(e.calls + all_calls(next) =~= (e.calls + all_calls(part)).push(
                        row.call(),
                    ));
                }
                self.ingested.insert(row.id.clone());
                let call = row.to_call();
                let eff: u64 = call.effective_out();
                self.hist.fold(row.first_token_at, row.completed_at, call.gen_ms, eff);
                new_calls.push(call.clone());
                self.agg.ingest(call);
            } else {
                assert(seen.union(ids(rows@.take(i as int))).insert(row.id@) =~= seen.union(
                    ids(rows@.take(i as int)),
                ));
            }
            i += 1;
        }
        assert(rows@.take(i as int) =~= rows@);
        let mut calls: Vec<Call> = Vec::new();
        std::mem::swap(&mut calls, &mut self.agg.calls);
        self.agg.calls = keep_the_day(calls, today_start_ms);
        new_calls
    }

    /// Puts together what the panel shows at the given moment.
    pub fn snapshot<T>(&self, now: i64) -> (r: Snapshot<T>)
        requires
            countable(self@.calls, now),
        ensures
            shows(r, self@.calls, now),
            r.rollout_dir@ == source_label(self.db_path),
            r.hist_max_tps == self@.hist.max,
            r.hist_avg_tps == (Rate { tokens: self.hist.total_eff, ms: self.hist.total_gen_ms }),
    {
        let mut s = self.agg.snapshot(now);
        s.rollout_dir = self.data_source_label();
        s.hist_max_tps = self.hist.max_tps;
        s.hist_avg_tps = self.hist.avg_tps();
        s
    }

    /// The calls of the day, in the order in which they came in.
    pub fn calls(&self) -> (r: &[Call])
        ensures
            r@ == self@.calls,
    {
        self.agg.calls()
    }

    /// Puts together the trends of all models from the rows that were read, or from none where
    /// they could not be read. Nothing comes of sums that are too large to hold.
    pub fn model_stats(&self, rows: Option<Vec<ModelUsageRow>>, window_min: i64, now: i64) -> (r:
        Option<ModelStatsPayload>)
        ensures
            match rows {
                Some(rows) => {
                    &&& r is Some == summable(rows@, now, bucket_for(window_min))
                    &&& r matches Some(p) ==> is_model_stats(p, rows@, window_min, now)
                },
                None => r matches Some(p) && is_model_stats(p, Seq::empty(), window_min, now),
            },
    {
        let window = clamp_window_min(window_min);
        match rows {
            Some(rows) => checked_model_stats(rows, window_min, now),
            None => {
                proof {
                    let w = model_windows();
                    assert(w[0] == 10 && w[1] == 60 && w[2] == 360);
                }
                Some(empty_model_stats(window, now))
            },
        }
    }

    /// Puts together the curve of all models from the rows that were read, or from none where
    /// they could not be read. Nothing comes of sums that are too large to hold.
    pub fn chart_stats(&self, rows: Option<Vec<ModelUsageRow>>, window_min: i64, now: i64) -> (r:
        Option<ChartStatsPayload>)
        ensures
            match rows {
                Some(rows) => {
                    &&& r is Some == chart_summable(rows@, now, chart_bucket_for(window_min))
                    &&& r matches Some(p) ==> is_chart(p, rows@, window_min, now)
                },
                None => r matches Some(p) && is_chart(p, Seq::empty(), window_min, now),
            },
    {
        match rows {
            Some(rows) => checked_chart_stats(rows, window_min, now),
            None => Some(empty_chart_stats(window_min, now)),
        }
    }

    /// Finds the sessions that have a call running, by the newest messages of each session.
    pub fn call_in_flight(&self, sessions: &Vec<SessionRows>, now: i64) -> (r: Vec<(String, i64)>)
        ensures
            in_flight(r@, candidates_of(sessions@), now),
    {
        let cands = candidates(sessions);
        inflight_from_rows(cands.as_slice(), now)
    }
}

/// All names are names of calls.
pub open spec fn named(calls: Seq<Call>, ids: Set<Seq<char>>) -> bool {
    forall|id: Seq<char>|
        ids.contains(id) ==> exists|i: int| 0 <= i < calls.len() && (#[trigger] calls[i]).id@ == id
}

/// All calls finished after `start`.
pub open spec fn since(calls: Seq<Call>, start: i64) -> bool {
    forall|i: int| 0 <= i < calls.len() ==> (#[trigger] calls[i]).completed_ms >= start
}

/// All calls that were met belong to the day that began at `start` and are still there.
pub open spec fn tidy(e: EngineView, start: i64) -> bool {
    named(e.calls, e.ingested) && since(e.calls, start)
}

/// All rows belong to the day that began at `start`.
pub open spec fn rows_of_the_day(batch: Option<Batch>, start: i64) -> bool {
    batch matches Some(b) ==> b.rows matches Some(rows) ==> forall|i: int|
        0 <= i < rows@.len() ==> (#[trigger] rows@[i]).completed_at >= start
}

proof fn lemma_fresh(seen: Set<Seq<char>>, rows: Seq<UsageRow>)
    ensures
        forall|i: int|
            0 <= i < fresh(seen, rows).len() ==> rows.contains(#[trigger] fresh(seen, rows)[i])
                && !seen.contains(fresh(seen, rows)[i].id@),
        forall|i: int, j: int|
            #![trigger fresh(seen, rows)[i], fresh(seen, rows)[j]]
            0 <= i < j < fresh(seen, rows).len() ==> fresh(seen, rows)[i].id@ != fresh(
                seen,
                rows,
            )[j].id@,
        forall|id: Seq<char>|
            ids(rows).contains(id) && !seen.contains(id) ==> exists|i: int|
                0 <= i < fresh(seen, rows).len() && (#[trigger] fresh(seen, rows)[i]).id@ == id,
    decreases rows.len(),
{
    if rows.len() > 0 {
        let before = rows.drop_last();
        let row = rows.last();
        let (p, n) = (fresh(seen, before), fresh(seen, rows));
        lemma_fresh(seen, before);
        lemma_ids(before);
        assert(rows[rows.len() - 1] == row);
        assert forall|i: int| 0 <= i < n.len() implies rows.contains(#[trigger] n[i])
            && !seen.contains(n[i].id@) by {
            if i < p.len() {
                assert(n[i] == p[i]);
                let j = choose|j: int| 0 <= j < before.len() && before[j] == p[i];
                assert(rows[j] == n[i]);
            }
        }
        assert forall|i: int, j: int|
            #![trigger n[i], n[j]]
            0 <= i < j < n.len() implies n[i].id@ != n[j].id@ by {
            assert(n[i] == p[i]);
            if j < p.len() {
                assert(n[j] == p[j]);
            } else {
                assert(before.contains(p[i]));
                let k = choose|k: int| 0 <= k < before.len() && before[k] == p[i];
                assert(ids(before).contains(before[k].id@));
            }
        }
        assert forall|id: Seq<char>|
            ids(rows).contains(id) && !seen.contains(id) implies exists|i: int|
            0 <= i < n.len() && (#[trigger] n[i]).id@ == id by {
            if ids(before).contains(id) {
                let i = choose|i: int| 0 <= i < p.len() && (#[trigger] p[i]).id@ == id;
                assert(n[i] == p[i]);
            } else {
                assert(n[n.len() - 1].id@ == id);
            }
        }
    }
}

proof fn lemma_filter_all(calls: Seq<Call>, start: i64)
    requires
        since(calls, start),
    ensures
        of_the_day(calls, start) == calls,
    decreases calls.len(),
{
    reveal(Seq::filter);
    if calls.len() > 0 {
        let before = calls.drop_last();
        assert forall|i: int| 0 <= i < before.len() implies (#[trigger] before[i]).completed_ms
            >= start by {
            assert(before[i] == calls[i]);
        }
        lemma_filter_all(before, start);
        assert(calls[calls.len() - 1].completed_ms >= start);
        assert(before.push(calls.last()) =~= calls);
    }
}

proof fn lemma_nothing_fresh(seen: Set<Seq<char>>, rows: Seq<UsageRow>)
    requires
        ids(rows).subset_of(seen),
    ensures
        fresh(seen, rows).len() == 0,
    decreases rows.len(),
{
    if rows.len() > 0 {
        assert(ids(rows).contains(rows.last().id@));
        assert(ids(rows.drop_last()).subset_of(seen)) by {
            assert(ids(rows.drop_last()).subset_of(ids(rows)));
        }
        lemma_nothing_fresh(seen, rows.drop_last());
    }
}

proof fn lemma_still_since(calls: Seq<Call>, news: Seq<UsageRow>, start: i64)
    requires
        since(calls, start),
        forall|i: int| 0 <= i < news.len() ==> (#[trigger] news[i]).completed_at >= start,
    ensures
        since(calls + all_calls(news), start),
{
    let all = calls + all_calls(news);
    assert forall|i: int| 0 <= i < all.len() implies (#[trigger] all[i]).completed_ms >= start by {
        if i < calls.len() {
            assert(all[i] == calls[i]);
        } else {
            assert(all[i] == news[i - calls.len()].call());
        }
    }
}

proof fn lemma_still_named(e: EngineView, rows: Seq<UsageRow>)
    requires
        named(e.calls, e.ingested),
    ensures
        named(e.calls + all_calls(fresh(e.ingested, rows)), e.ingested.union(ids(rows))),
{
    let news = fresh(e.ingested, rows);
    let all = e.calls + all_calls(news);
    assert forall|id: Seq<char>| e.ingested.union(ids(rows)).contains(id) implies exists|i: int|
        0 <= i < all.len() && (#[trigger] all[i]).id@ == id by {
        if e.ingested.contains(id) {
            let i = choose|i: int| 0 <= i < e.calls.len() && (#[trigger] e.calls[i]).id@ == id;
            assert(all[i] == e.calls[i]);
        } else {
            lemma_fresh(e.ingested, rows);
            let i = choose|i: int| 0 <= i < news.len() && (#[trigger] news[i]).id@ == id;
            assert(all[e.calls.len() + i] == news[i].call());
        }
    }
}

proof fn lemma_rows_keep_tidy(e: EngineView, rows: Seq<UsageRow>, start: i64)
    requires
        tidy(e, start),
        forall|i: int| 0 <= i < rows.len() ==> (#[trigger] rows[i]).completed_at >= start,
    ensures
        tidy(e.with_rows(rows, start), start),
{
    let news = fresh(e.ingested, rows);
    assert forall|i: int| 0 <= i < news.len() implies (#[trigger] news[i]).completed_at >= start by {
        lemma_fresh(e.ingested, rows);
        let j = choose|j: int| 0 <= j < rows.len() && rows[j] == news[i];
        assert(rows[j].completed_at >= start);
    }
    lemma_still_since(e.calls, news, start);
    lemma_still_named(e, rows);
    lemma_filter_all(e.calls + all_calls(news), start);
}

/// While the rows that come in belong to the day, every call that was met stays.
pub proof fn lemma_poll_keeps_tidy(
    e: EngineView,
    today: (i32, u32, u32),
    start: i64,
    batch: Option<Batch>,
)
    requires
        tidy(e, start) || today != e.today,
        rows_of_the_day(batch, start),
    ensures
        tidy(e.polled(today, start, batch), start),
{
    let on = e.on(today);
    assert(tidy(on, start));
    if batch is Some {
        let b = batch->0;
        let known = on.with_history(b.history@);
        assert(tidy(known, start));
        if b.rows is Some {
            lemma_rows_keep_tidy(known, (b.rows->0)@, start);
        }
    }
}

/// No call is counted twice: a second poll of the same rows on the same day takes in nothing and
/// changes nothing.
pub proof fn lemma_polling_again_adds_nothing(
    e: EngineView,
    today: (i32, u32, u32),
    start: i64,
    batch: Option<Batch>,
)
    requires
        tidy(e, start) || today != e.today,
        rows_of_the_day(batch, start),
    ensures
        ({
            let once = e.polled(today, start, batch);
            &&& once.news(today, batch).len() == 0
            &&& once.polled(today, start, batch) == once
        }),
{
    let once = e.polled(today, start, batch);
    lemma_poll_keeps_tidy(e, today, start, batch);
    if once.calls.len() == 0 {
        assert(once.ingested =~= Set::empty());
    }
    assert(once.on(today) == once);
    if batch is Some && batch->0.rows is Some {
        let rows = (batch->0.rows->0)@;
        assert(ids(rows).subset_of(once.ingested));
        lemma_nothing_fresh(once.ingested, rows);
        lemma_filter_all(once.calls, start);
        let news = fresh(once.ingested, rows);
        assert(once.calls + all_calls(news) =~= once.calls);
        assert(once.ingested.union(ids(rows)) =~= once.ingested);
        assert(all_finished(news) =~= Seq::empty());
    }
}

/// A sum grew by what stands in a column; where nothing stands there, or less than nothing, it is
/// as it was.
pub open spec fn grew_by(before: int, after: int, column: Option<i64>) -> bool {
    match column {
        Some(v) if v >= 0 => after == before + v,
        _ => after == before,
    }
}

/// A new call counts with what stands in its row, each column for what it is: what was answered,
/// reasoned, asked, put into the cache and read from it.
pub proof fn lemma_new_row_counts_by_its_columns<T>(
    s: Snapshot<T>,
    t: Snapshot<T>,
    e: EngineView,
    today: (i32, u32, u32),
    start: i64,
    batch: Batch,
    row: UsageRow,
    now: i64,
)
    requires
        e.today == today,
        since(e.calls, start),
        batch.rows matches Some(rows) && rows@ == seq![row],
        !e.ingested.contains(row.id@),
        row.completed_at >= start,
        shows(s, e.calls, now),
        shows(t, e.polled(today, start, Some(batch)).calls, now),
        countable(e.polled(today, start, Some(batch)).calls, now),
    ensures
        grew_by(s.output_tokens as int, t.output_tokens as int, row.output_tokens),
        grew_by(s.reasoning_tokens as int, t.reasoning_tokens as int, row.reasoning_tokens),
        grew_by(s.input_tokens as int, t.input_tokens as int, row.input_tokens),
        grew_by(
            s.cache_creation_tokens as int,
            t.cache_creation_tokens as int,
            row.cache_creation_input_tokens,
        ),
        grew_by(
            s.cache_read_tokens as int,
            t.cache_read_tokens as int,
            row.cache_read_input_tokens,
        ),
        e.calls.len() < u64::MAX ==> t.calls_today == s.calls_today + 1,
        e.news(today, Some(batch)).len() == 1,
{
    let rows = (batch.rows->0)@;
    let seen = e.on(today).ingested;
    assert(rows.drop_last() =~= Seq::empty());
    assert(rows.last() == row);
    let news = fresh(seen, rows);
    assert(!ids(rows.drop_last()).contains(row.id@));
    assert(fresh(seen, rows.drop_last()) =~= Seq::empty());
    assert(news =~= seq![row]);
    assert(all_calls(news) =~= seq![row.call()]);
    let calls = e.calls.push(row.call());
    assert(e.calls + all_calls(news) =~= calls);
    assert forall|i: int| 0 <= i < calls.len() implies (#[trigger] calls[i]).completed_ms
        >= start by {
        if i < e.calls.len() {
            assert(calls[i] == e.calls[i]);
        }
    }
    lemma_filter_all(calls, start);
    lemma_call_counts_for_the_day(s, t, e.calls, row.call(), now);
}

/// Over all time a new call counts with what it streamed out, and with the time from its first
/// token to its end.
pub proof fn lemma_new_row_counts_for_all_time(
    e: EngineView,
    today: (i32, u32, u32),
    start: i64,
    batch: Batch,
    row: UsageRow,
)
    requires
        e.today == today,
        e.hist_loaded,
        batch.rows matches Some(rows) && rows@ == seq![row],
        !e.ingested.contains(row.id@),
    ensures
        ({
            let (a, b) = (e.hist, e.polled(today, start, Some(batch)).hist);
            &&& row.output_tokens is None ==> grew_by(a.eff, b.eff, row.reasoning_tokens)
            &&& row.reasoning_tokens is None ==> grew_by(a.eff, b.eff, row.output_tokens)
            &&& (row.output_tokens matches Some(x) && x >= 0) && (
            row.reasoning_tokens matches Some(y) && y >= 0) ==> b.eff == a.eff
                + row.output_tokens->0 + row.reasoning_tokens->0
            &&& (row.first_token_at matches Some(f) && row.completed_at - f >= 50) ==> b.gen_ms
                == a.gen_ms + row.completed_at - row.first_token_at->0
        }),
{
    let rows = (batch.rows->0)@;
    let seen = e.on(today).ingested;
    assert(rows.drop_last() =~= Seq::empty());
    assert(rows.last() == row);
    let news = fresh(seen, rows);
    assert(!ids(rows.drop_last()).contains(row.id@));
    assert(fresh(seen, rows.drop_last()) =~= Seq::empty());
    assert(news =~= seq![row]);
    assert(all_finished(news) =~= Seq::<Finished>::empty().push(row.finished()));
    lemma_call_adds_to_all_time(e.hist, Seq::empty(), row.finished());
}

proof fn lemma_of_the_day_holds(calls: Seq<Call>, start: i64, c: Call)
    ensures
        of_the_day(calls, start).contains(c) == (calls.contains(c) && c.completed_ms >= start),
    decreases calls.len(),
{
    reveal(Seq::filter);
    if calls.len() > 0 {
        let before = calls.drop_last();
        lemma_of_the_day_holds(before, start, c);
        let (p, n) = (of_the_day(before, start), of_the_day(calls, start));
        if calls.contains(c) {
            let i = choose|i: int| 0 <= i < calls.len() && calls[i] == c;
            if i < before.len() {
                assert(before[i] == c);
            }
        }
        if before.contains(c) {
            let i = choose|i: int| 0 <= i < before.len() && before[i] == c;
            assert(calls[i] == c);
        }
        assert(calls[calls.len() - 1] == calls.last());
        if p.contains(c) {
            let i = choose|i: int| 0 <= i < p.len() && p[i] == c;
            assert(n[i] == c);
        }
        if n.contains(c) {
            let i = choose|i: int| 0 <= i < n.len() && n[i] == c;
            if i < p.len() {
                assert(p[i] == c);
            }
        }
        if calls.last().completed_ms >= start {
            assert(n[n.len() - 1] == calls.last());
        }
    }
}

/// Every call that was not met before and finished on the day is taken in, with its name, its
/// session and its times as they stand in its row.
pub proof fn lemma_every_new_call_is_taken_in(
    e: EngineView,
    today: (i32, u32, u32),
    start: i64,
    batch: Batch,
    i: int,
)
    requires
        e.today == today,
        batch.rows is Some,
        0 <= i < (batch.rows->0)@.len(),
        !e.ingested.contains((batch.rows->0)@[i].id@),
        forall|j: int| 0 <= j < i ==> (#[trigger] (batch.rows->0)@[j]).id@ != (batch.rows->0)@[i].id@,
        (batch.rows->0)@[i].completed_at >= start,
    ensures
        exists|k: int|
            #![trigger e.polled(today, start, Some(batch)).calls[k]]
            {
                let c = e.polled(today, start, Some(batch)).calls[k];
                let row = (batch.rows->0)@[i];
                &&& 0 <= k < e.polled(today, start, Some(batch)).calls.len()
                &&& c.id@ == row.id@
                &&& c.session@ == row.session_id@
                &&& c.started_ms == row.started_at
                &&& c.first_token_ms == row.first_token_at
                &&& c.completed_ms == row.completed_at
            },
{
    let rows = (batch.rows->0)@;
    let row = rows[i];
    let seen = e.on(today).ingested;
    let news = fresh(seen, rows);
    lemma_fresh_holds(seen, rows, i);
    let k = choose|k: int| 0 <= k < news.len() && news[k] == row;
    let all = e.calls + all_calls(news);
    assert(all[e.calls.len() + k] == row.call());
    assert(all.contains(row.call()));
    lemma_of_the_day_holds(all, start, row.call());
    let calls = e.polled(today, start, Some(batch)).calls;
    assert(calls.contains(row.call()));
    let l = choose|l: int| 0 <= l < calls.len() && calls[l] == row.call();
    assert(e.polled(today, start, Some(batch)).calls[l] == row.call());
}

proof fn lemma_fresh_holds(seen: Set<Seq<char>>, rows: Seq<UsageRow>, i: int)
    requires
        0 <= i < rows.len(),
        !seen.contains(rows[i].id@),
        forall|j: int| 0 <= j < i ==> (#[trigger] rows[j]).id@ != rows[i].id@,
    ensures
        fresh(seen, rows).contains(rows[i]),
    decreases rows.len(),
{
    let before = rows.drop_last();
    let (p, n) = (fresh(seen, before), fresh(seen, rows));
    if i < before.len() {
        assert forall|j: int| 0 <= j < i implies (#[trigger] before[j]).id@ != before[i].id@ by {
            assert(before[j] == rows[j]);
        }
        lemma_fresh_holds(seen, before, i);
        let k = choose|k: int| 0 <= k < p.len() && p[k] == before[i];
        assert(n[k] == rows[i]);
    } else {
        lemma_ids(before);
        if ids(before).contains(rows[i].id@) {
            let j = choose|j: int| 0 <= j < before.len() && (#[trigger] before[j]).id@ == rows[i].id@;
            assert(rows[j].id@ != rows[i].id@);
        }
        assert(n[n.len() - 1] == rows[i]);
    }
}

/// After a poll that could read the calls, all that are there finished on the day; and each was
/// there before or stands in a row.
pub proof fn lemma_only_calls_of_the_day_stay(
    e: EngineView,
    today: (i32, u32, u32),
    start: i64,
    batch: Batch,
    k: int,
)
    requires
        batch.rows is Some,
        0 <= k < e.polled(today, start, Some(batch)).calls.len(),
    ensures
        ({
            let c = e.polled(today, start, Some(batch)).calls[k];
            &&& c.completed_ms >= start
            &&& e.today == today && e.calls.contains(c) || exists|i: int|
                0 <= i < (batch.rows->0)@.len() && (#[trigger] (batch.rows->0)@[i]).id@ == c.id@
        }),
{
    let rows = (batch.rows->0)@;
    let on = e.on(today);
    let news = fresh(on.ingested, rows);
    let all = on.calls + all_calls(news);
    let calls = e.polled(today, start, Some(batch)).calls;
    let c = calls[k];
    assert(calls.contains(c));
    lemma_of_the_day_holds(all, start, c);
    let j = choose|j: int| 0 <= j < all.len() && all[j] == c;
    if j < on.calls.len() {
        assert(on.calls[j] == c);
    } else {
        lemma_fresh(on.ingested, rows);
        let r = news[j - on.calls.len()];
        assert(c == r.call());
        assert(rows.contains(r));
        let i = choose|i: int| 0 <= i < rows.len() && rows[i] == r;
        assert(rows[i].id@ == c.id@);
    }
}

/// A new day starts over: whatever was met the day before, a poll on another day gives the calls
/// that it would give at the start.
pub proof fn lemma_another_day_starts_over(
    e: EngineView,
    other: EngineView,
    today: (i32, u32, u32),
    start: i64,
    batch: Option<Batch>,
)
    requires
        today != e.today,
        other.calls.len() == 0,
    ensures
        e.polled(today, start, batch).calls == other.polled(today, start, batch).calls,
        e.polled(today, start, batch).today == today,
        batch is None ==> e.polled(today, start, batch).calls.len() == 0,
        batch is None ==> e.polled(today, start, batch).hist == e.hist,
        e.news(today, batch) == other.news(today, batch),
{
    assert(other.on(today).calls =~= Seq::empty());
    assert(e.on(today).calls =~= Seq::empty());
}

/// A poll that could not read the calls keeps those that are there.
pub proof fn lemma_failed_poll_keeps_the_calls(
    e: EngineView,
    start: i64,
    batch: Option<Batch>,
)
    requires
        batch matches Some(b) ==> b.rows is None,
    ensures
        e.polled(e.today, start, batch).calls == e.calls,
        e.news(e.today, batch).len() == 0,
{
}

/// The calls of earlier days count once: the first poll adds them to the sums of all time, and
/// later ones do not.
pub proof fn lemma_earlier_days_count_once(
    e: EngineView,
    today: (i32, u32, u32),
    start: i64,
    a: Batch,
    b: Batch,
    rows: Seq<HistoryRow>,
    row: HistoryRow,
)
    requires
        a.rows == b.rows,
    ensures
        e.hist_loaded ==> e.polled(today, start, Some(a)) == e.polled(today, start, Some(b)),
        e.polled(today, start, Some(a)).hist_loaded,
        !e.hist_loaded && a.rows is None && a.history@ == rows && b.history@ == rows.push(row) ==> {
            let (x, y) = (
                e.polled(today, start, Some(a)).hist,
                e.polled(today, start, Some(b)).hist,
            );
            &&& row.output_tokens is None ==> grew_by(x.eff, y.eff, row.reasoning_tokens)
            &&& row.reasoning_tokens is None ==> grew_by(x.eff, y.eff, row.output_tokens)
            &&& (row.output_tokens matches Some(v) && v >= 0) && (
            row.reasoning_tokens matches Some(w) && w >= 0) ==> y.eff == x.eff
                + row.output_tokens->0 + row.reasoning_tokens->0
            &&& (row.first_token_at matches Some(f) && row.completed_at - f >= 50) ==> y.gen_ms
                == x.gen_ms + row.completed_at - row.first_token_at->0
        },
{
    assert(all_history(rows.push(row)) =~= all_history(rows).push(row.finished()));
    lemma_call_adds_to_all_time(e.hist, all_history(rows), row.finished());
}

/// A new call counts with the times and the session that stand in its row: the time from its first
/// token to its end, its end as the last activity, and its session where no call had it before.
pub proof fn lemma_new_row_counts_by_its_times<T>(
    s: Snapshot<T>,
    t: Snapshot<T>,
    e: EngineView,
    today: (i32, u32, u32),
    start: i64,
    batch: Batch,
    row: UsageRow,
    now: i64,
)
    requires
        e.today == today,
        since(e.calls, start),
        batch.rows matches Some(rows) && rows@ == seq![row],
        !e.ingested.contains(row.id@),
        row.completed_at >= start,
        row.completed_at >= 0,
        row.sound(),
        shows(s, e.calls, now),
        shows(t, e.polled(today, start, Some(batch)).calls, now),
        countable(e.polled(today, start, Some(batch)).calls, now),
        forall|i: int|
            0 <= i < e.calls.len() ==> (#[trigger] e.calls[i]).completed_ms <= row.completed_at,
    ensures
        t.last_activity_ms == row.completed_at,
        (row.first_token_at matches Some(f) && row.completed_at - f >= 50) ==> t.avg_tps.ms
            == s.avg_tps.ms + row.completed_at - row.first_token_at->0,
        row.first_token_at is None && (row.duration_ms matches Some(d) && d >= 50) ==> t.avg_tps.ms
            == s.avg_tps.ms + row.duration_ms->0,
        t.sessions_today == s.sessions_today + if row.session_id@.len() > 0 && forall|i: int|
            0 <= i < e.calls.len() ==> (#[trigger] e.calls[i]).session@ != row.session_id@ {
            1int
        } else {
            0
        },
        e.polled(today, start, Some(batch)).calls.last().id@ == row.id@,
{
    let rows = (batch.rows->0)@;
    let seen = e.on(today).ingested;
    assert(rows.drop_last() =~= Seq::empty());
    assert(rows.last() == row);
    let news = fresh(seen, rows);
    assert(!ids(rows.drop_last()).contains(row.id@));
    assert(fresh(seen, rows.drop_last()) =~= Seq::empty());
    assert(news =~= seq![row]);
    assert(all_calls(news) =~= seq![row.call()]);
    let calls = e.calls.push(row.call());
    assert(e.calls + all_calls(news) =~= calls);
    assert forall|i: int| 0 <= i < calls.len() implies (#[trigger] calls[i]).completed_ms
        >= start by {
        if i < e.calls.len() {
            assert(calls[i] == e.calls[i]);
        }
    }
    lemma_filter_all(calls, start);
    lemma_call_counts_for_the_day(s, t, e.calls, row.call(), now);
    lemma_session_counts_once(s, t, e.calls, row.call(), now);
    lemma_newest_call_is_the_last(t, e.calls, row.call(), now);
}

/// Calls that finished before the time that is read from do not come into a trend, and those that
/// finished after it do: what is read is enough, and no more than is needed.
pub proof fn lemma_trend_is_read_from_its_start(
    p: ModelStatsPayload,
    rows: Seq<ModelUsageRow>,
    window_min: i64,
    now: i64,
    r: ModelUsageRow,
)
    requires
        is_model_stats(p, rows, window_min, now),
        r.completed_at <= now,
    ensures
        r.completed_at < cutoff_of(p.window_min, now) ==> !shown(r, now, p.bucket_ms),
        r.completed_at > cutoff_of(p.window_min, now) ==> shown(r, now, p.bucket_ms),
{
    lemma_who_counts_for_a_trend(p, rows, window_min, now, r);
}

/// Calls that finished before the time that is read from come into no slot of a curve.
pub proof fn lemma_curve_is_read_from_its_start(
    p: ChartStatsPayload,
    q: ChartStatsPayload,
    rows: Seq<ModelUsageRow>,
    r: ModelUsageRow,
    window_min: i64,
    now: i64,
    k: int,
)
    requires
        is_chart(p, rows, window_min, now),
        is_chart(q, rows.push(r), window_min, now),
        chart_summable(rows.push(r), now, p.bucket_ms),
        r.completed_at < cutoff_of(p.window_min, now),
        0 <= k < 90,
    ensures
        p.buckets@[k] == q.buckets@[k],
        now - cutoff_of(p.window_min, now) == 90 * p.bucket_ms,
{
    lemma_call_counts_in_one_slot(p, q, rows, r, window_min, now, k);
    lemma_time_span_is_the_nearest(p.window_min, window_min);
    let b = p.bucket_ms as int;
    let c = r.completed_at as int;
    assert(c < now - 90 * b);
    assert(c / b + (89 - k) < now as int / b) by (nonlinear_arith)
        requires
            b > 0,
            0 <= k,
            c < now - 90 * b,
    ;
}

} // verus!
