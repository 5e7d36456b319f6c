//! The calls of the day and what the panel shows of them.

use vstd::prelude::*;
use vstd::hash_set::StringHashSet;
use crate::order::{lemma_ordered, ordered, sort, Ordered};
use crate::sums::{
    lemma_order_does_not_matter, lemma_part, lemma_same_sum, lemma_sum_holds, lemma_sum_prefix,
    lemma_sum_push, lemma_sum_remove, lemma_sum_step, sum_of,
};
use crate::metrics::{
    clamped, floor_div, no_rate, ESTIMATE_DEFAULT_MS, ESTIMATE_MAX_MS, ESTIMATE_MIN_MS,
    LIVE_WINDOW_MS, MAX_GAP_MS, SPARK_BUCKETS, SPARK_BUCKET_MS, Call, LiveSource, Rate, Snapshot,
    Speed,
};

verus! {

pub open spec fn by_output() -> spec_fn(Call) -> int {
    |c: Call| c.output as int
}

pub open spec fn by_reasoning() -> spec_fn(Call) -> int {
    |c: Call| c.reasoning as int
}

pub open spec fn by_input() -> spec_fn(Call) -> int {
    |c: Call| c.input as int
}

pub open spec fn by_cache_creation() -> spec_fn(Call) -> int {
    |c: Call| c.cache_creation as int
}

pub open spec fn by_cache_read() -> spec_fn(Call) -> int {
    |c: Call| c.cache_read as int
}

/// The tokens that count as used.
pub open spec fn by_total() -> spec_fn(Call) -> int {
    |c: Call| c.output + c.reasoning + c.input + c.cache_creation
}

pub open spec fn by_eff() -> spec_fn(Call) -> int {
    |c: Call| c.eff()
}

pub open spec fn by_dur() -> spec_fn(Call) -> int {
    |c: Call| c.dur()
}

/// The call finished recently.
pub open spec fn recent(c: Call, now: i64) -> bool {
    c.completed_ms >= now - LIVE_WINDOW_MS
}

pub open spec fn by_recent_eff(now: i64) -> spec_fn(Call) -> int {
    |c: Call| if recent(c, now) { c.eff() } else { 0 }
}

pub open spec fn by_recent_dur(now: i64) -> spec_fn(Call) -> int {
    |c: Call| if recent(c, now) { c.dur() } else { 0 }
}

/// How many slots of the curve lie between the end of the call and now.
pub open spec fn slots_ago(c: Call, now: i64) -> int {
    now as int / SPARK_BUCKET_MS as int - c.completed_ms as int / SPARK_BUCKET_MS as int
}

pub open spec fn by_slot_eff(now: i64, ago: int) -> spec_fn(Call) -> int {
    |c: Call| if slots_ago(c, now) == ago { c.eff() } else { 0 }
}

pub open spec fn by_slot_dur(now: i64, ago: int) -> spec_fn(Call) -> int {
    |c: Call| if slots_ago(c, now) == ago { c.dur() } else { 0 }
}

/// The call that finished last; of several the one that came in last. Times before the epoch do
/// not count.
pub open spec fn latest(calls: Seq<Call>) -> Option<Call>
    decreases calls.len(),
{
    if calls.len() == 0 {
        None
    } else {
        let before = latest(calls.drop_last());
        let c = calls.last();
        if c.completed_ms >= latest_ms(calls.drop_last()) {
            Some(c)
        } else {
            before
        }
    }
}

/// When the last call finished, or zero.
pub open spec fn latest_ms(calls: Seq<Call>) -> i64
    decreases calls.len(),
{
    if calls.len() == 0 {
        0
    } else {
        let before = latest_ms(calls.drop_last());
        if calls.last().completed_ms >= before {
            calls.last().completed_ms
        } else {
            before
        }
    }
}

/// The last call never counts as earlier than the epoch, and no call finished after it.
pub proof fn lemma_latest(calls: Seq<Call>)
    ensures
        latest_ms(calls) >= 0,
        forall|i: int| 0 <= i < calls.len() ==> (#[trigger] calls[i]).completed_ms <= latest_ms(calls),
        latest(calls) is None ==> latest_ms(calls) == 0 && forall|i: int|
            0 <= i < calls.len() ==> (#[trigger] calls[i]).completed_ms < 0,
        latest(calls) matches Some(c) ==> c.completed_ms == latest_ms(calls) && calls.contains(c),
    decreases calls.len(),
{
    if calls.len() > 0 {
        let before = calls.drop_last();
        lemma_latest(before);
        assert forall|i: int| 0 <= i < calls.len() implies (#[trigger] calls[i]).completed_ms
            <= latest_ms(calls) by {
            if i < before.len() {
                assert(before[i] == calls[i]);
            }
        }
        if latest(calls) is None {
            assert forall|i: int| 0 <= i < calls.len() implies (#[trigger] calls[i]).completed_ms
                < 0 by {
                if i < before.len() {
                    assert(before[i] == calls[i]);
                }
            }
        }
        if calls.last().completed_ms >= latest_ms(before) {
            assert(calls[calls.len() - 1] == calls.last());
        } else if let Some(c) = latest(before) {
            let i = choose|i: int| 0 <= i < before.len() && before[i] == c;
            assert(calls[i] == c);
        }
    }
}

/// The sessions that the calls belong to.
pub open spec fn sessions_of(calls: Seq<Call>) -> Set<Seq<char>>
    decreases calls.len(),
{
    if calls.len() == 0 {
        Set::empty()
    } else {
        let before = sessions_of(calls.drop_last());
        let s = calls.last().session@;
        if s.len() > 0 {
            before.insert(s)
        } else {
            before
        }
    }
}

/// `times` with `t` put in its place, unless it is there.
pub open spec fn with_moment(times: Seq<i64>, t: i64) -> Seq<i64>
    decreases times.len(),
{
    if times.len() == 0 || t > times.last() {
        times.push(t)
    } else if t == times.last() {
        times
    } else {
        with_moment(times.drop_last(), t).push(times.last())
    }
}

/// The moments at which calls finished, in order and without repetition.
pub open spec fn moments(calls: Seq<Call>) -> Seq<i64>
    decreases calls.len(),
{
    if calls.len() == 0 {
        Seq::empty()
    } else {
        with_moment(moments(calls.drop_last()), calls.last().completed_ms)
    }
}

/// The pauses between neighbouring moments, but for the long ones.
pub open spec fn pauses(times: Seq<i64>) -> Seq<i64>
    decreases times.len(),
{
    if times.len() < 2 {
        Seq::empty()
    } else {
        let gap = times.last() - times[times.len() - 2];
        let before = pauses(times.drop_last());
        if 0 < gap < MAX_GAP_MS {
            before.push(gap as i64)
        } else {
            before
        }
    }
}

/// The last ten pauses, or all where there are fewer.
pub open spec fn last_ten(s: Seq<i64>) -> Seq<i64> {
    if s.len() > 10 {
        s.skip(s.len() - 10)
    } else {
        s
    }
}

/// How long after a call the panel goes on showing the recent speed: the middle one of the last
/// pauses, within its bounds.
pub open spec fn grace_ms(calls: Seq<Call>) -> int {
    let p = pauses(moments(calls));
    if p.len() >= 3 {
        let tail = ordered(last_ten(p));
        clamped(tail[tail.len() as int / 2] as int, ESTIMATE_MIN_MS as int, ESTIMATE_MAX_MS as int)
    } else {
        ESTIMATE_DEFAULT_MS as int
    }
}

/// The recent speed goes on being shown: a call finished not long ago.
pub open spec fn estimating(calls: Seq<Call>, now: i64) -> bool {
    &&& latest_ms(calls) > 0
    &&& now - latest_ms(calls) <= grace_ms(calls)
    &&& sum_of(calls, by_recent_dur(now)) > 0
}

/// The speed of the calls that finished recently.
pub open spec fn recent_rate(calls: Seq<Call>, now: i64) -> Rate {
    Rate {
        tokens: sum_of(calls, by_recent_eff(now)) as u64,
        ms: sum_of(calls, by_recent_dur(now)) as i64,
    }
}

/// The speed of all calls together.
pub open spec fn average_rate(calls: Seq<Call>) -> Rate {
    Rate { tokens: sum_of(calls, by_eff()) as u64, ms: sum_of(calls, by_dur()) as i64 }
}

/// The speed of the call that finished last.
pub open spec fn latest_rate(calls: Seq<Call>) -> Rate {
    match latest(calls) {
        Some(c) => Rate { tokens: c.eff() as u64, ms: c.dur() as i64 },
        None => no_rate(),
    }
}

/// The speed in one slot of the curve.
pub open spec fn slot_rate(calls: Seq<Call>, now: i64, ago: int) -> Rate {
    Rate {
        tokens: sum_of(calls, by_slot_eff(now, ago)) as u64,
        ms: sum_of(calls, by_slot_dur(now, ago)) as i64,
    }
}

/// The speed shown now.
pub open spec fn shown_rate(calls: Seq<Call>, now: i64) -> Rate {
    if estimating(calls, now) {
        recent_rate(calls, now)
    } else {
        no_rate()
    }
}

/// The curve, oldest slot first. While the recent speed is shown, it also fills a newest slot
/// that is empty.
pub open spec fn curve(calls: Seq<Call>, now: i64) -> Seq<Rate> {
    Seq::new(
        SPARK_BUCKETS as nat,
        |k: int|
            {
                let own = slot_rate(calls, now, SPARK_BUCKETS - 1 - k);
                if k == SPARK_BUCKETS - 1 && estimating(calls, now) && own.is_zero() {
                    recent_rate(calls, now)
                } else {
                    own
                }
            },
    )
}

/// The sums over the calls, and the times between them, can be held in 64 bits.
pub open spec fn countable(calls: Seq<Call>, now: i64) -> bool {
    &&& sum_of(calls, by_total()) <= u64::MAX
    &&& sum_of(calls, by_cache_read()) <= u64::MAX
    &&& sum_of(calls, by_dur()) <= i64::MAX
    &&& i64::MIN + LIVE_WINDOW_MS <= now
    &&& i64::MIN + latest_ms(calls) <= now
}

struct Totals {
    output: u64,
    reasoning: u64,
    input: u64,
    cache_creation: u64,
    cache_read: u64,
    dur: i64,
}

proof fn lemma_bounds(calls: Seq<Call>, n: int)
    requires
        0 <= n <= calls.len(),
    ensures
        0 <= sum_of(calls.take(n), by_output()) <= sum_of(calls, by_output()),
        0 <= sum_of(calls.take(n), by_reasoning()) <= sum_of(calls, by_reasoning()),
        0 <= sum_of(calls.take(n), by_input()) <= sum_of(calls, by_input()),
        0 <= sum_of(calls.take(n), by_cache_creation()) <= sum_of(calls, by_cache_creation()),
        0 <= sum_of(calls.take(n), by_cache_read()) <= sum_of(calls, by_cache_read()),
        0 <= sum_of(calls.take(n), by_dur()) <= sum_of(calls, by_dur()),
        sum_of(calls, by_total()) == sum_of(calls, by_output()) + sum_of(calls, by_reasoning())
            + sum_of(calls, by_input()) + sum_of(calls, by_cache_creation()),
        sum_of(calls, by_eff()) == sum_of(calls, by_output()) + sum_of(calls, by_reasoning()),
{
    lemma_sum_prefix(calls, by_output(), n);
    lemma_sum_prefix(calls, by_reasoning(), n);
    lemma_sum_prefix(calls, by_input(), n);
    lemma_sum_prefix(calls, by_cache_creation(), n);
    lemma_sum_prefix(calls, by_cache_read(), n);
    lemma_sum_prefix(calls, by_dur(), n);
    lemma_total(calls);
}

/// The total is what was answered, reasoned, asked and put into the cache.
pub proof fn lemma_total(calls: Seq<Call>)
    ensures
        sum_of(calls, by_total()) == sum_of(calls, by_output()) + sum_of(calls, by_reasoning())
            + sum_of(calls, by_input()) + sum_of(calls, by_cache_creation()),
        sum_of(calls, by_eff()) == sum_of(calls, by_output()) + sum_of(calls, by_reasoning()),
    decreases calls.len(),
{
    if calls.len() > 0 {
        lemma_total(calls.drop_last());
    }
}

fn totals(calls: &Vec<Call>) -> (r: Totals)
    requires
        sum_of(calls@, by_total()) <= u64::MAX,
        sum_of(calls@, by_cache_read()) <= u64::MAX,
        sum_of(calls@, by_dur()) <= i64::MAX,
    ensures
        r.output == sum_of(calls@, by_output()),
        r.reasoning == sum_of(calls@, by_reasoning()),
        r.input == sum_of(calls@, by_input()),
        r.cache_creation == sum_of(calls@, by_cache_creation()),
        r.cache_read == sum_of(calls@, by_cache_read()),
        r.dur == sum_of(calls@, by_dur()),
{
    let mut t = Totals { output: 0, reasoning: 0, input: 0, cache_creation: 0, cache_read: 0, dur: 0 };
    let mut i: usize = 0;
    while i < calls.len()
        invariant
            i <= calls.len(),
            sum_of(calls@, by_total()) <= u64::MAX,
            sum_of(calls@, by_cache_read()) <= u64::MAX,
            sum_of(calls@, by_dur()) <= i64::MAX,
            t.output == sum_of(calls@.take(i as int), by_output()),
            t.reasoning == sum_of(calls@.take(i as int), by_reasoning()),
            t.input == sum_of(calls@.take(i as int), by_input()),
            t.cache_creation == sum_of(calls@.take(i as int), by_cache_creation()),
            t.cache_read == sum_of(calls@.take(i as int), by_cache_read()),
            t.dur == sum_of(calls@.take(i as int), by_dur()),
        decreases calls.len() - i,
    {
        proof {
            lemma_bounds(calls@, i + 1);
            lemma_sum_step(calls@, by_output(), i as int);
            lemma_sum_step(calls@, by_reasoning(), i as int);
            lemma_sum_step(calls@, by_input(), i as int);
            lemma_sum_step(calls@, by_cache_creation(), i as int);
            lemma_sum_step(calls@, by_cache_read(), i as int);
            lemma_sum_step(calls@, by_dur(), i as int);
            lemma_sum_prefix(calls@, by_output(), 0);
            lemma_sum_prefix(calls@, by_reasoning(), 0);
            lemma_sum_prefix(calls@, by_input(), 0);
            lemma_sum_prefix(calls@, by_cache_creation(), 0);
        }
        let c = &calls[i];
        t.output = t.output + c.output;
        t.reasoning = t.reasoning + c.reasoning;
        t.input = t.input + c.input;
        t.cache_creation = t.cache_creation + c.cache_creation;
        t.cache_read = t.cache_read + c.cache_read;
        t.dur = t.dur + c.counted_ms();
        i += 1;
    }
    assert(calls@.take(i as int) =~= calls@);
    t
}

fn recent_speed(calls: &Vec<Call>, now: i64) -> (r: Rate)
    requires
        sum_of(calls@, by_eff()) <= u64::MAX,
        sum_of(calls@, by_dur()) <= i64::MAX,
        i64::MIN + LIVE_WINDOW_MS <= now,
    ensures
        r == recent_rate(calls@, now),
        r.ms == sum_of(calls@, by_recent_dur(now)),
        r.tokens == sum_of(calls@, by_recent_eff(now)),
{
    let mut r = Rate::none();
    let mut i: usize = 0;
    while i < calls.len()
        invariant
            i <= calls.len(),
            sum_of(calls@, by_eff()) <= u64::MAX,
            sum_of(calls@, by_dur()) <= i64::MAX,
            i64::MIN + LIVE_WINDOW_MS <= now,
            r.tokens == sum_of(calls@.take(i as int), by_recent_eff(now)),
            r.ms == sum_of(calls@.take(i as int), by_recent_dur(now)),
        decreases calls.len() - i,
    {
        proof {
            lemma_part(calls@, by_recent_eff(now), by_eff(), i + 1);
            lemma_part(calls@, by_recent_dur(now), by_dur(), i + 1);
            lemma_part(calls@, by_recent_eff(now), by_eff(), i as int);
            lemma_sum_step(calls@, by_recent_eff(now), i as int);
            lemma_sum_step(calls@, by_recent_dur(now), i as int);
        }
        let c = &calls[i];
        if c.completed_ms >= now - LIVE_WINDOW_MS {
            r.tokens = r.tokens + c.effective_out();
            r.ms = r.ms + c.counted_ms();
        }
        i += 1;
    }
    assert(calls@.take(i as int) =~= calls@);
    r
}

fn last_moment(calls: &Vec<Call>) -> (r: i64)
    ensures
        r == latest_ms(calls@),
{
    let mut at: i64 = 0;
    let mut i: usize = 0;
    while i < calls.len()
        invariant
            i <= calls.len(),
            at == latest_ms(calls@.take(i as int)),
        decreases calls.len() - i,
    {
        assert(calls@.take(i + 1).drop_last() =~= calls@.take(i as int));
        if calls[i].completed_ms >= at {
            at = calls[i].completed_ms;
        }
        i += 1;
    }
    assert(calls@.take(i as int) =~= calls@);
    at
}

fn latest_speed(calls: &Vec<Call>) -> (r: (i64, Rate))
    requires
        sum_of(calls@, by_eff()) <= u64::MAX,
    ensures
        r.0 == latest_ms(calls@),
        r.1 == latest_rate(calls@),
{
    let mut at: i64 = 0;
    let mut rate = Rate::none();
    let mut i: usize = 0;
    while i < calls.len()
        invariant
            i <= calls.len(),
            sum_of(calls@, by_eff()) <= u64::MAX,
            at == latest_ms(calls@.take(i as int)),
            rate == latest_rate(calls@.take(i as int)),
        decreases calls.len() - i,
    {
        proof {
            lemma_part(calls@, by_eff(), by_eff(), i as int);
            lemma_part(calls@, by_eff(), by_eff(), i + 1);
            lemma_sum_step(calls@, by_eff(), i as int);
            assert(calls@.take(i + 1).drop_last() =~= calls@.take(i as int));
        }
        let c = &calls[i];
        if c.completed_ms >= at {
            at = c.completed_ms;
            rate = Rate { tokens: c.effective_out(), ms: c.counted_ms() };
        }
        i += 1;
    }
    assert(calls@.take(i as int) =~= calls@);
    (at, rate)
}

fn session_count(calls: &Vec<Call>) -> (r: u64)
    ensures
        r == sessions_of(calls@).len(),
{
    let mut seen = StringHashSet::new();
    let mut i: usize = 0;
    while i < calls.len()
        invariant
            i <= calls.len(),
            seen@ == sessions_of(calls@.take(i as int)),
        decreases calls.len() - i,
    {
        assert(calls@.take(i + 1).drop_last() =~= calls@.take(i as int));
        if !calls[i].session.as_str().is_empty() {
            seen.insert(calls[i].session.clone());
        }
        i += 1;
    }
    assert(calls@.take(i as int) =~= calls@);
    seen.len() as u64
}

fn put_moment(times: &mut Vec<i64>, t: i64)
    ensures
        final(times)@ == with_moment(old(times)@, t),
{
    let ghost all = times@;
    let mut at: usize = times.len();
    assert(all.take(at as int) =~= all);
    assert(with_moment(all.take(at as int), t) + all.skip(at as int) =~= with_moment(all, t));
    while at > 0 && times[at - 1] > t
        invariant
            at <= times.len(),
            times@ == all,
            with_moment(all.take(at as int), t) + all.skip(at as int) == with_moment(all, t),
        decreases at,
    {
        proof {
            let here = all.take(at as int);
            assert(here.drop_last() =~= all.take(at - 1));
            assert(with_moment(here, t) == with_moment(all.take(at - 1), t).push(all[at - 1]));
            assert(with_moment(all.take(at - 1), t) + all.skip(at - 1) =~= with_moment(here, t)
                + all.skip(at as int));
        }
        at -= 1;
    }
    if at > 0 && times[at - 1] == t {
        assert(all.take(at as int) + all.skip(at as int) =~= all);
    } else {
        proof {
            assert(with_moment(all.take(at as int), t) == all.take(at as int).push(t));
            assert(all.insert(at as int, t) =~= all.take(at as int).push(t) + all.skip(at as int));
        }
        times.insert(at, t);
    }
}

fn finish_moments(calls: &Vec<Call>) -> (r: Vec<i64>)
    ensures
        r@ == moments(calls@),
{
    let mut r: Vec<i64> = Vec::new();
    let mut i: usize = 0;
    while i < calls.len()
        invariant
            i <= calls.len(),
            r@ == moments(calls@.take(i as int)),
        decreases calls.len() - i,
    {
        assert(calls@.take(i + 1).drop_last() =~= calls@.take(i as int));
        put_moment(&mut r, calls[i].completed_ms);
        i += 1;
    }
    assert(calls@.take(i as int) =~= calls@);
    r
}

fn pause_lengths(times: &Vec<i64>) -> (r: Vec<i64>)
    ensures
        r@ == pauses(times@),
{
    let mut r: Vec<i64> = Vec::new();
    if times.len() < 2 {
        assert(r@ =~= pauses(times@));
        return r;
    }
    let mut i: usize = 1;
    assert(r@ =~= pauses(times@.take(1)));
    while i < times.len()
        invariant
            1 <= i <= times.len(),
            r@ == pauses(times@.take(i as int)),
        decreases times.len() - i,
    {
        proof {
            assert(times@.take(i + 1).drop_last() =~= times@.take(i as int));
        }
        let ghost before = r@;
        let gap: i128 = times[i] as i128 - times[i - 1] as i128;
        if gap > 0 && gap < MAX_GAP_MS as i128 {
            r.push(gap as i64);
            assert(r@ =~= before.push(gap as i64));
        }
        i += 1;
    }
    assert(times@.take(i as int) =~= times@);
    r
}

/// Each moment is later than the ones before it.
pub open spec fn strictly_rising(s: Seq<i64>) -> bool {
    forall|i: int, j: int| 0 <= i < j < s.len() ==> s[i] < s[j]
}

proof fn lemma_with_moment_rises(s: Seq<i64>, t: i64)
    requires
        strictly_rising(s),
    ensures
        strictly_rising(with_moment(s, t)),
        with_moment(s, t).len() > 0,
        s.len() > 0 && t < s.last() ==> with_moment(s, t).last() == s.last(),
        !(s.len() > 0 && t < s.last()) ==> with_moment(s, t).last() == t,
    decreases s.len(),
{
    if s.len() > 0 && t < s.last() {
        lemma_with_moment_rises(s.drop_last(), t);
        let w = with_moment(s.drop_last(), t);
        assert(w.last() < s.last());
        assert forall|i: int, j: int| 0 <= i < j < w.push(s.last()).len() implies w.push(
            s.last(),
        )[i] < w.push(s.last())[j] by {
            if j == w.len() {
                if i < w.len() - 1 {
                    assert(w[i] < w[w.len() - 1]);
                }
            }
        }
    }
}

/// The moments at which calls finished are in order, without repetition.
pub proof fn lemma_moments_rise(calls: Seq<Call>)
    ensures
        strictly_rising(moments(calls)),
    decreases calls.len(),
{
    if calls.len() > 0 {
        lemma_moments_rise(calls.drop_last());
        lemma_with_moment_rises(moments(calls.drop_last()), calls.last().completed_ms);
    }
}

fn grace(calls: &Vec<Call>) -> (r: i64)
    ensures
        r == grace_ms(calls@),
{
    let times = finish_moments(calls);
    let gaps = pause_lengths(&times);
    if gaps.len() < 3 {
        return ESTIMATE_DEFAULT_MS;
    }
    let start: usize = if gaps.len() > 10 {
        gaps.len() - 10
    } else {
        0
    };
    let ghost tail = last_ten(gaps@);
    assert(tail =~= gaps@.skip(start as int));
    let mut last: Vec<i64> = Vec::new();
    let mut i: usize = start;
    assert(last@ =~= tail.take(0));
    while i < gaps.len()
        invariant
            start <= i <= gaps.len(),
            tail == gaps@.skip(start as int),
            last@ == tail.take(i - start),
        decreases gaps.len() - i,
    {
        assert(tail.take(i + 1 - start) =~= tail.take(i - start).push(gaps@[i as int]));
        last.push(gaps[i]);
        i += 1;
    }
    assert(tail.take(i - start) =~= tail);
    let in_order = sort(last);
    let m: i64 = in_order[in_order.len() / 2];
    if m < ESTIMATE_MIN_MS {
        ESTIMATE_MIN_MS
    } else if m > ESTIMATE_MAX_MS {
        ESTIMATE_MAX_MS
    } else {
        m
    }
}

fn slot_speeds(calls: &Vec<Call>, now: i64) -> (r: Vec<Rate>)
    requires
        sum_of(calls@, by_eff()) <= u64::MAX,
        sum_of(calls@, by_dur()) <= i64::MAX,
    ensures
        r@.len() == SPARK_BUCKETS,
        forall|k: int|
            0 <= k < SPARK_BUCKETS ==> #[trigger] r@[k] == slot_rate(
                calls@,
                now,
                SPARK_BUCKETS - 1 - k,
            ),
{
    let mut r: Vec<Rate> = Vec::new();
    let mut n: usize = 0;
    while n < SPARK_BUCKETS
        invariant
            n <= SPARK_BUCKETS,
            r@.len() == n,
            forall|k: int| 0 <= k < n ==> #[trigger] r@[k] == no_rate(),
        decreases SPARK_BUCKETS - n,
    {
        r.push(Rate::none());
        n += 1;
    }
    let now_slot: i64 = floor_div(now, SPARK_BUCKET_MS);
    let mut i: usize = 0;
    while i < calls.len()
        invariant
            i <= calls.len(),
            sum_of(calls@, by_eff()) <= u64::MAX,
            sum_of(calls@, by_dur()) <= i64::MAX,
            now_slot == now as int / SPARK_BUCKET_MS as int,
            r@.len() == SPARK_BUCKETS,
            forall|k: int|
                #![trigger r@[k]]
                0 <= k < SPARK_BUCKETS ==> {
                    &&& r@[k].tokens == sum_of(
                        calls@.take(i as int),
                        by_slot_eff(now, SPARK_BUCKETS - 1 - k),
                    )
                    &&& r@[k].ms == sum_of(
                        calls@.take(i as int),
                        by_slot_dur(now, SPARK_BUCKETS - 1 - k),
                    )
                },
        decreases calls.len() - i,
    {
        let c = &calls[i];
        let ago: i64 = now_slot - floor_div(c.completed_ms, SPARK_BUCKET_MS);
        let ghost before = r@;
        proof {
            assert forall|a: int| true implies {
                &&& #[trigger] sum_of(calls@.take(i + 1), by_slot_eff(now, a)) == sum_of(
                    calls@.take(i as int),
                    by_slot_eff(now, a),
                ) + (if a == ago {
                    c.eff()
                } else {
                    0
                })
                &&& sum_of(calls@.take(i + 1), by_slot_eff(now, a)) <= u64::MAX
                &&& sum_of(calls@.take(i + 1), by_slot_dur(now, a)) == sum_of(
                    calls@.take(i as int),
                    by_slot_dur(now, a),
                ) + (if a == ago {
                    c.dur()
                } else {
                    0
                })
                &&& sum_of(calls@.take(i + 1), by_slot_dur(now, a)) <= i64::MAX
            } by {
                lemma_sum_step(calls@, by_slot_eff(now, a), i as int);
                lemma_sum_step(calls@, by_slot_dur(now, a), i as int);
                lemma_part(calls@, by_slot_eff(now, a), by_eff(), i + 1);
                lemma_part(calls@, by_slot_dur(now, a), by_dur(), i + 1);
            }
        }
        if 0 <= ago && ago < SPARK_BUCKETS as i64 {
            let at: usize = SPARK_BUCKETS - 1 - ago as usize;
            proof {
                assert(sum_of(calls@.take(i + 1), by_slot_eff(now, ago as int)) <= u64::MAX);
                assert(before[at as int].tokens == sum_of(
                    calls@.take(i as int),
                    by_slot_eff(now, ago as int),
                ));
                lemma_part(calls@, by_slot_eff(now, ago as int), by_eff(), i as int);
            }
            let old_rate: Rate = r[at];
            let new_rate = Rate {
                tokens: old_rate.tokens + c.effective_out(),
                ms: old_rate.ms + c.counted_ms(),
            };
            r.set(at, new_rate);
        }
        proof {
            assert forall|k: int| #![trigger r@[k]] 0 <= k < SPARK_BUCKETS implies {
                &&& r@[k].tokens == sum_of(
                    calls@.take(i + 1),
                    by_slot_eff(now, SPARK_BUCKETS - 1 - k),
                )
                &&& r@[k].ms == sum_of(calls@.take(i + 1), by_slot_dur(now, SPARK_BUCKETS - 1 - k))
            } by {
                let a = SPARK_BUCKETS - 1 - k;
                let _ = before[k];
                assert(sum_of(calls@.take(i + 1), by_slot_eff(now, a)) <= u64::MAX);
            }
        }
        i += 1;
    }
    assert(calls@.take(i as int) =~= calls@);
    r
}

/// The rates of a curve that holds no measured speed.
pub open spec fn rated<T>(curve: Seq<Rate>) -> Seq<Speed<T>> {
    curve.map_values(|r: Rate| Speed::<T>::Rated(r))
}

/// What the panel shows of some calls at one moment, before anything is measured.
pub open spec fn shows<T>(s: Snapshot<T>, calls: Seq<Call>, now: i64) -> bool {
    &&& s.current_tps == Speed::<T>::Rated(shown_rate(calls, now))
    &&& s.avg_tps == average_rate(calls)
    &&& s.total_tokens == sum_of(calls, by_total())
    &&& s.output_tokens == sum_of(calls, by_output())
    &&& s.reasoning_tokens == sum_of(calls, by_reasoning())
    &&& s.input_tokens == sum_of(calls, by_input())
    &&& s.cache_creation_tokens == sum_of(calls, by_cache_creation())
    &&& s.cache_read_tokens == sum_of(calls, by_cache_read())
    &&& s.calls_today == calls.len()
    &&& s.sessions_today == sessions_of(calls).len()
    &&& !s.is_live
    &&& s.is_estimating == estimating(calls, now)
    &&& !s.ramping
    &&& !s.is_starting
    &&& s.window_tps == recent_rate(calls, now)
    &&& s.last_call_tps == latest_rate(calls)
    &&& s.live_source == if estimating(calls, now) {
        LiveSource::Window
    } else {
        LiveSource::Idle
    }
    &&& s.last_activity_ms == latest_ms(calls)
    &&& s.now_ms == now
    &&& s.spark@ == rated::<T>(curve(calls, now))
    &&& s.tasks@.len() == 0
    &&& s.without_network()
}

/// The calls of one day.
pub struct Aggregator {
    pub calls: Vec<Call>,
    pub today_ymd: (i32, u32, u32),
}

impl Aggregator {
    /// No calls yet on the given day.
    pub fn new(today: (i32, u32, u32)) -> (r: Self)
        ensures
            r.calls@.len() == 0,
            r.today_ymd == today,
    {
        Aggregator { calls: Vec::new(), today_ymd: today }
    }

    /// Takes in a call.
    pub fn ingest(&mut self, call: Call)
        ensures
            final(self).calls@ == old(self).calls@.push(call),
            final(self).today_ymd == old(self).today_ymd,
    {
        self.calls.push(call);
    }

    /// On another day, starts over.
    pub fn rollover_if_needed(&mut self, today: (i32, u32, u32))
        ensures
            final(self).today_ymd == today,
            final(self).calls@ == if today == old(self).today_ymd {
                old(self).calls@
            } else {
                Seq::empty()
            },
    {
        if today.0 != self.today_ymd.0 || today.1 != self.today_ymd.1 || today.2
            != self.today_ymd.2 {
            self.today_ymd = today;
            self.calls.clear();
        }
    }

    /// The calls, in the order in which they came in.
    pub fn calls(&self) -> (r: &[Call])
        ensures
            r@ == self.calls@,
    {
        self.calls.as_slice()
    }

    /// Tests whether the sums that the panel shows can be held in 64 bits.
    pub fn fits(&self, now: i64) -> (r: bool)
        ensures
            r == countable(self.calls@, now),
    {
        let ghost calls = self.calls@;
        let mut total: u64 = 0;
        let mut cached: u64 = 0;
        let mut dur: i64 = 0;
        let mut i: usize = 0;
        while i < self.calls.len()
            invariant
                i <= self.calls.len(),
                calls == self.calls@,
                total == sum_of(calls.take(i as int), by_total()),
                cached == sum_of(calls.take(i as int), by_cache_read()),
                dur == sum_of(calls.take(i as int), by_dur()),
            decreases self.calls.len() - i,
        {
            proof {
                lemma_sum_step(calls, by_total(), i as int);
                lemma_sum_step(calls, by_cache_read(), i as int);
                lemma_sum_step(calls, by_dur(), i as int);
                lemma_sum_prefix(calls, by_total(), i + 1);
                lemma_sum_prefix(calls, by_cache_read(), i + 1);
                lemma_sum_prefix(calls, by_dur(), i + 1);
                lemma_sum_prefix(calls, by_dur(), i as int);
            }
            let c = &self.calls[i];
            let more: u128 = total as u128 + c.output as u128 + c.reasoning as u128
                + c.input as u128 + c.cache_creation as u128;
            if more > u64::MAX as u128 || cached > u64::MAX - c.cache_read || dur > i64::MAX
                - c.counted_ms() {
                return false;
            }
            total = more as u64;
            cached = cached + c.cache_read;
            dur = dur + c.counted_ms();
            i += 1;
        }
        proof {
            assert(calls.take(i as int) =~= calls);
            lemma_latest(calls);
        }
        let last: i64 = last_moment(&self.calls);
        i64::MIN + LIVE_WINDOW_MS <= now && i64::MIN + last <= now
    }

    /// Puts together what the panel shows at the given moment.
    pub fn snapshot<T>(&self, now: i64) -> (r: Snapshot<T>)
        requires
            countable(self.calls@, now),
        ensures
            shows(r, self.calls@, now),
            r.hist_max_tps == no_rate(),
            r.hist_avg_tps == no_rate(),
            r.rollout_dir@.len() == 0,
    {
        let ghost calls = self.calls@;
        proof {
            lemma_total(calls);
            lemma_bounds(calls, calls.len() as int);
            lemma_latest(calls);
            assert(calls.take(calls.len() as int) =~= calls);
        }
        let t = totals(&self.calls);
        let window = recent_speed(&self.calls, now);
        let (last_completed, last_rate) = latest_speed(&self.calls);
        let sessions = session_count(&self.calls);
        let grace = grace(&self.calls);
        let since: i64 = now - last_completed;
        let is_estimating = last_completed > 0 && since <= grace && window.ms > 0;
        let current = if is_estimating {
            window
        } else {
            Rate::none()
        };
        let slots = slot_speeds(&self.calls, now);
        let mut spark: Vec<Speed<T>> = Vec::new();
        let mut k: usize = 0;
        while k < slots.len()
            invariant
                k <= slots.len(),
                slots@.len() == SPARK_BUCKETS,
                calls == self.calls@,
                is_estimating == estimating(calls, now),
                window == recent_rate(calls, now),
                forall|j: int|
                    0 <= j < SPARK_BUCKETS ==> #[trigger] slots@[j] == slot_rate(
                        calls,
                        now,
                        SPARK_BUCKETS - 1 - j,
                    ),
                spark@ == rated::<T>(curve(calls, now)).take(k as int),
            decreases slots.len() - k,
        {
            let own: Rate = slots[k];
            let shown = if k == SPARK_BUCKETS - 1 && is_estimating && own.zero() {
                window
            } else {
                own
            };
            spark.push(Speed::Rated(shown));
            proof {
                assert(curve(calls, now)[k as int] == shown);
                assert(rated::<T>(curve(calls, now)).take(k + 1) =~= rated::<T>(
                    curve(calls, now),
                ).take(k as int).push(Speed::<T>::Rated(shown)));
            }
            k += 1;
        }
        assert(rated::<T>(curve(calls, now)).take(k as int) =~= rated::<T>(curve(calls, now)));
        Snapshot {
            current_tps: Speed::Rated(current),
            avg_tps: Rate { tokens: t.output + t.reasoning, ms: t.dur },
            total_tokens: t.output + t.reasoning + t.input + t.cache_creation,
            output_tokens: t.output,
            reasoning_tokens: t.reasoning,
            input_tokens: t.input,
            cache_creation_tokens: t.cache_creation,
            cache_read_tokens: t.cache_read,
            calls_today: self.calls.len() as u64,
            sessions_today: sessions,
            is_live: false,
            is_estimating,
            ramping: false,
            is_starting: false,
            window_tps: window,
            last_call_tps: last_rate,
            hist_max_tps: Rate::none(),
            hist_avg_tps: Rate::none(),
            live_source: if is_estimating {
                LiveSource::Window
            } else {
                LiveSource::Idle
            },
            last_activity_ms: last_completed,
            now_ms: now,
            rollout_dir: String::new(),
            spark,
            tasks: Vec::new(),
            net_available: false,
            net_up_bps: Rate::none(),
            net_down_bps: Rate::none(),
            net_up_today: 0,
            net_down_today: 0,
            net_sess_up_today: 0,
            net_sess_down_today: 0,
            net_ckpt_today: 0,
            net_ckpt_today_count: 0,
            net_ckpt_today_list: Vec::new(),
            net_ckpt_uploading: false,
            net_ckpt_status: String::new(),
            net_ckpt_list: Vec::new(),
            net_conns_available: false,
            net_cli_conns: 0,
            net_app_conns: 0,
            net_cli_conn_list: Vec::new(),
            net_app_conn_list: Vec::new(),
        }
    }
}

/// The panel goes on showing the recent speed for twenty seconds at least and for four minutes at
/// most.
pub proof fn lemma_grace_is_bounded(calls: Seq<Call>)
    ensures
        ESTIMATE_MIN_MS <= grace_ms(calls) <= ESTIMATE_MAX_MS,
{
}

/// Two lists hold calls that differ in nothing but when they were asked for, when their first
/// token came, and what they are called by.
pub open spec fn same_work(a: Seq<Call>, b: Seq<Call>) -> bool {
    &&& a.len() == b.len()
    &&& forall|i: int|
        #![trigger a[i], b[i]]
        0 <= i < a.len() ==> a[i] == (Call {
            id: a[i].id,
            started_ms: a[i].started_ms,
            first_token_ms: a[i].first_token_ms,
            ..b[i]
        })
}

proof fn lemma_same_moments(a: Seq<Call>, b: Seq<Call>)
    requires
        same_work(a, b),
    ensures
        moments(a) == moments(b),
        latest_ms(a) == latest_ms(b),
        latest_rate(a) == latest_rate(b),
        sessions_of(a) == sessions_of(b),
    decreases a.len(),
{
    if a.len() > 0 {
        let (x, y) = (a.drop_last(), b.drop_last());
        assert forall|i: int| #![trigger x[i], y[i]] 0 <= i < x.len() implies x[i] == (Call {
            id: x[i].id,
            started_ms: x[i].started_ms,
            first_token_ms: x[i].first_token_ms,
            ..y[i]
        }) by {
            assert(x[i] == a[i] && y[i] == b[i]);
        }
        lemma_same_moments(x, y);
        assert(a.last() == a[a.len() - 1] && b.last() == b[b.len() - 1]);
    }
}

/// The time before the first token does not count: calls that differ only in when they were asked
/// for and when their first token came, with the same time of generation, make the panel show the
/// same.
pub proof fn lemma_waiting_does_not_count<T>(a: Seq<Call>, b: Seq<Call>, now: i64, s: Snapshot<T>)
    requires
        same_work(a, b),
    ensures
        shows(s, a, now) == shows(s, b, now),
        countable(a, now) == countable(b, now),
{
    lemma_same_moments(a, b);
    assert forall|i: int| 0 <= i < a.len() implies a[i].eff() == b[i].eff() && a[i].dur()
        == b[i].dur() && a[i].completed_ms == b[i].completed_ms by {}
    lemma_same_sum(a, b, by_output());
    lemma_same_sum(a, b, by_reasoning());
    lemma_same_sum(a, b, by_input());
    lemma_same_sum(a, b, by_cache_creation());
    lemma_same_sum(a, b, by_cache_read());
    lemma_same_sum(a, b, by_total());
    lemma_same_sum(a, b, by_eff());
    lemma_same_sum(a, b, by_dur());
    lemma_same_sum(a, b, by_recent_eff(now));
    lemma_same_sum(a, b, by_recent_dur(now));
    assert forall|ago: int| #[trigger] slot_rate(a, now, ago) == slot_rate(b, now, ago) by {
        lemma_same_sum(a, b, by_slot_eff(now, ago));
        lemma_same_sum(a, b, by_slot_dur(now, ago));
    }
    assert(curve(a, now) =~= curve(b, now));
}

/// When the last call finished does not depend on the order in which the calls came in; nor does
/// its speed, where no two calls finished last.
pub proof fn lemma_latest_in_any_order(a: Seq<Call>, b: Seq<Call>)
    requires
        a.to_multiset() == b.to_multiset(),
    ensures
        latest_ms(a) == latest_ms(b),
        (forall|i: int, j: int|
            #![trigger a[i], a[j]]
            0 <= i < a.len() && 0 <= j < a.len() && a[i].completed_ms == latest_ms(a)
                && a[j].completed_ms == latest_ms(a) ==> a[i] == a[j]) ==> latest_rate(a)
            == latest_rate(b),
{
    a.to_multiset_ensures();
    b.to_multiset_ensures();
    lemma_latest(a);
    lemma_latest(b);
    assert forall|c: Call| a.contains(c) == b.contains(c) by {
        assert(a.to_multiset().count(c) > 0 <==> a.contains(c));
        assert(b.to_multiset().count(c) > 0 <==> b.contains(c));
    }
    if let Some(c) = latest(b) {
        assert(a.contains(c));
    }
    if let Some(c) = latest(a) {
        assert(b.contains(c));
    }
}

/// The slots of the curve lie at fixed times: within one slot, what each of them holds is the same.
pub proof fn lemma_curve_moves_slot_by_slot(calls: Seq<Call>, now: i64, later: i64, ago: int)
    requires
        now as int / SPARK_BUCKET_MS as int == later as int / SPARK_BUCKET_MS as int,
    ensures
        slot_rate(calls, now, ago) == slot_rate(calls, later, ago),
{
    assert(by_slot_eff(now, ago) =~= by_slot_eff(later, ago));
    assert(by_slot_dur(now, ago) =~= by_slot_dur(later, ago));
}

/// A call that finished more than ten minutes ago changes nothing of the recent speed: without it,
/// the recent speed is the same.
pub proof fn lemma_old_call_is_not_recent<T>(
    s: Snapshot<T>,
    t: Snapshot<T>,
    calls: Seq<Call>,
    i: int,
    now: i64,
)
    requires
        0 <= i < calls.len(),
        shows(s, calls, now),
        shows(t, calls.remove(i), now),
        now - calls[i].completed_ms > 600_000,
    ensures
        s.window_tps == t.window_tps,
{
    lemma_sum_remove(calls, by_recent_eff(now), i);
    lemma_sum_remove(calls, by_recent_dur(now), i);
}

/// A call that finished within the last ten minutes counts for the recent speed, with all that it
/// streamed out and with the time that took.
pub proof fn lemma_late_call_is_recent<T>(
    s: Snapshot<T>,
    t: Snapshot<T>,
    calls: Seq<Call>,
    i: int,
    now: i64,
)
    requires
        0 <= i < calls.len(),
        countable(calls, now),
        shows(s, calls, now),
        shows(t, calls.remove(i), now),
        now - calls[i].completed_ms <= 600_000,
    ensures
        s.window_tps.tokens == t.window_tps.tokens + calls[i].output + calls[i].reasoning,
        calls[i].gen_ms >= 50 ==> s.window_tps.ms == t.window_tps.ms + calls[i].gen_ms,
        calls[i].gen_ms < 50 ==> s.window_tps.ms == t.window_tps.ms + 50,
{
    let rest = calls.remove(i);
    lemma_sum_remove(calls, by_recent_eff(now), i);
    lemma_sum_remove(calls, by_recent_dur(now), i);
    lemma_sum_prefix(rest, by_recent_eff(now), 0);
    lemma_sum_prefix(rest, by_recent_dur(now), 0);
    lemma_total(calls);
    lemma_part(calls, by_recent_eff(now), by_eff(), 0);
    lemma_part(calls, by_recent_dur(now), by_dur(), 0);
    lemma_sum_prefix(calls, by_input(), 0);
    lemma_sum_prefix(calls, by_cache_creation(), 0);
}

/// Where every call finished within the last ten minutes, the recent speed is the average of all.
pub proof fn lemma_all_calls_are_recent<T>(s: Snapshot<T>, calls: Seq<Call>, now: i64)
    requires
        shows(s, calls, now),
        forall|i: int| 0 <= i < calls.len() ==> now - (#[trigger] calls[i]).completed_ms <= 600_000,
    ensures
        s.window_tps == s.avg_tps,
{
    lemma_sums_over_recent(calls, now);
}

proof fn lemma_sums_over_recent(calls: Seq<Call>, now: i64)
    requires
        forall|i: int| 0 <= i < calls.len() ==> now - (#[trigger] calls[i]).completed_ms <= 600_000,
    ensures
        sum_of(calls, by_recent_eff(now)) == sum_of(calls, by_eff()),
        sum_of(calls, by_recent_dur(now)) == sum_of(calls, by_dur()),
    decreases calls.len(),
{
    if calls.len() > 0 {
        let before = calls.drop_last();
        assert forall|i: int| 0 <= i < before.len() implies now - (
        #[trigger] before[i]).completed_ms <= 600_000 by {
            assert(before[i] == calls[i]);
        }
        lemma_sums_over_recent(before, now);
        assert(now - calls[calls.len() - 1].completed_ms <= 600_000);
    }
}

proof fn lemma_moments_are_few(calls: Seq<Call>)
    ensures
        moments(calls).len() <= calls.len(),
        moments(calls).len() > 0 ==> pauses(moments(calls)).len() < moments(calls).len(),
    decreases calls.len(),
{
    if calls.len() > 0 {
        lemma_moments_are_few(calls.drop_last());
        lemma_with_moment_is_one_more(moments(calls.drop_last()), calls.last().completed_ms);
        lemma_pauses_are_few(moments(calls));
    }
}

proof fn lemma_with_moment_is_one_more(s: Seq<i64>, t: i64)
    ensures
        with_moment(s, t).len() <= s.len() + 1,
        with_moment(s, t).len() > 0,
    decreases s.len(),
{
    if s.len() > 0 {
        lemma_with_moment_is_one_more(s.drop_last(), t);
    }
}

proof fn lemma_pauses_are_few(times: Seq<i64>)
    ensures
        times.len() > 0 ==> pauses(times).len() < times.len(),
        times.len() == 0 ==> pauses(times).len() == 0,
    decreases times.len(),
{
    if times.len() >= 2 {
        lemma_pauses_are_few(times.drop_last());
    }
}

/// The recent speed is what is shown as long as calls follow one another, and nothing is shown
/// after that. It goes on for twenty seconds after the last call at least, for four minutes at
/// most, and for one minute where there are only a few calls.
pub proof fn lemma_recent_speed_goes_on<T>(s: Snapshot<T>, calls: Seq<Call>, now: i64)
    requires
        shows(s, calls, now),
    ensures
        s.is_estimating ==> s.current_tps == Speed::<T>::Rated(s.window_tps) && s.live_source
            == LiveSource::Window,
        !s.is_estimating ==> s.current_tps == Speed::<T>::Rated(Rate { tokens: 0, ms: 0 })
            && s.live_source == LiveSource::Idle,
        now - s.last_activity_ms > 240_000 ==> !s.is_estimating,
        s.last_activity_ms > 0 && now - s.last_activity_ms <= 20_000 ==> s.is_estimating,
        s.last_activity_ms <= 0 ==> !s.is_estimating,
        calls.len() <= 3 ==> s.is_estimating == (s.last_activity_ms > 0 && now - s.last_activity_ms
            <= 60_000),
{
    lemma_latest(calls);
    lemma_moments_are_few(calls);
    if s.last_activity_ms > 0 && now - s.last_activity_ms <= 240_000 {
        let c = latest(calls)->0;
        let i = choose|i: int| 0 <= i < calls.len() && calls[i] == c;
        lemma_sum_holds(calls, by_recent_dur(now), i);
    }
}

/// How many numbers lie below another.
pub open spec fn count_below(s: Seq<i64>, m: i64) -> int {
    sum_of(
        s,
        |x: i64|
            if x < m {
                1
            } else {
                0
            },
    )
}

/// How many numbers lie above another.
pub open spec fn count_above(s: Seq<i64>, m: i64) -> int {
    sum_of(
        s,
        |x: i64|
            if x > m {
                1
            } else {
                0
            },
    )
}

proof fn lemma_few_below(s: Seq<i64>, m: i64, h: int)
    requires
        0 <= h <= s.len(),
        forall|i: int| h <= i < s.len() ==> #[trigger] s[i] >= m,
    ensures
        count_below(s, m) <= h,
    decreases s.len(),
{
    if s.len() > 0 {
        let before = s.drop_last();
        let n = if h < s.len() {
            h
        } else {
            h - 1
        };
        assert forall|i: int| n <= i < before.len() implies #[trigger] before[i] >= m by {
            assert(before[i] == s[i]);
        }
        lemma_few_below(before, m, n);
        if h < s.len() {
            assert(s[s.len() - 1] >= m);
        }
    }
}

proof fn lemma_few_above(s: Seq<i64>, m: i64, h: int)
    requires
        0 <= h <= s.len(),
        forall|i: int| 0 <= i < h ==> #[trigger] s[i] <= m,
    ensures
        count_above(s, m) <= s.len() - h,
    decreases s.len(),
{
    if s.len() > 0 {
        let before = s.drop_last();
        let n = if h < s.len() {
            h
        } else {
            h - 1
        };
        assert forall|i: int| 0 <= i < n implies #[trigger] before[i] <= m by {
            assert(before[i] == s[i]);
        }
        lemma_few_above(before, m, n);
        if h == s.len() {
            assert(s[s.len() - 1] <= m);
        }
    }
}

/// One of some numbers lies in their middle: no more than half of them lie below it, and less than
/// half above.
pub open spec fn lies_in_the_middle(m: i64, s: Seq<i64>) -> bool {
    s.contains(m) && 2 * count_below(s, m) <= s.len() && 2 * count_above(s, m) < s.len()
}

/// The panel goes on showing the recent speed for as long as the middle one of the last ten pauses
/// between calls lasts: no more than half of them are shorter, and less than half are longer. Where
/// there are fewer than three pauses, it does so for a minute.
pub proof fn lemma_grace_is_the_middle_pause(calls: Seq<Call>, tail: Seq<i64>)
    requires
        ({
            let p = pauses(moments(calls));
            tail == if p.len() > 10 {
                p.subrange(p.len() - 10, p.len() as int)
            } else {
                p
            }
        }),
    ensures
        tail.len() < 3 ==> grace_ms(calls) == 60_000,
        tail.len() >= 3 ==> exists|m: i64| #[trigger]
            lies_in_the_middle(m, tail) && grace_ms(calls) == if m < 20_000 {
                20_000
            } else if m > 240_000 {
                240_000
            } else {
                m as int
            },
{
    let p = pauses(moments(calls));
    assert(tail =~= last_ten(p));
    if p.len() >= 3 {
        let o = ordered(tail);
        lemma_ordered(tail);
        let h = o.len() as int / 2;
        let m = o[h];
        assert(o.contains(m));
        o.to_multiset_ensures();
        tail.to_multiset_ensures();
        assert(o.to_multiset().count(m) > 0);
        assert(tail.contains(m));
        assert forall|i: int| h <= i < o.len() implies #[trigger] o[i] >= m by {
            if i > h {
                assert(Ordered::le(&o[h], &o[i]));
            }
        }
        assert forall|i: int| 0 <= i < h + 1 implies #[trigger] o[i] <= m by {
            if i < h {
                assert(Ordered::le(&o[i], &o[h]));
            }
        }
        lemma_few_below(o, m, h);
        lemma_few_above(o, m, h + 1);
        let f = |x: i64|
            if x < m {
                1int
            } else {
                0
            };
        let g = |x: i64|
            if x > m {
                1int
            } else {
                0
            };
        lemma_order_does_not_matter(o, tail, f);
        lemma_order_does_not_matter(o, tail, g);
        assert(count_below(o, m) == count_below(tail, m));
        assert(count_above(o, m) == count_above(tail, m));
        assert(lies_in_the_middle(m, tail));
        assert(grace_ms(calls) == clamped(m as int, 20_000, 240_000));
    }
}

/// A pause lies between two moments that follow one another, unless it lasted ten minutes or more.
pub proof fn lemma_pause_lies_between_moments(times: Seq<i64>, t: i64)
    requires
        times.len() > 0,
        t > times.last(),
    ensures
        t - times.last() < 600_000 ==> pauses(times.push(t)) == pauses(times).push(
            (t - times.last()) as i64,
        ),
        t - times.last() >= 600_000 ==> pauses(times.push(t)) == pauses(times),
        pauses(seq![t]).len() == 0,
{
    assert(times.push(t).drop_last() =~= times);
}

proof fn lemma_with_moment_holds(s: Seq<i64>, t: i64, x: i64)
    ensures
        with_moment(s, t).contains(x) == (s.contains(x) || x == t),
    decreases s.len(),
{
    let w = with_moment(s, t);
    if s.len() == 0 || t > s.last() {
        assert(w[w.len() - 1] == t);
        if s.contains(x) {
            let i = choose|i: int| 0 <= i < s.len() && s[i] == x;
            assert(w[i] == x);
        }
        if w.contains(x) && x != t {
            let i = choose|i: int| 0 <= i < w.len() && w[i] == x;
            assert(s[i] == x);
        }
    } else if t == s.last() {
        assert(s[s.len() - 1] == t);
    } else {
        let u = with_moment(s.drop_last(), t);
        lemma_with_moment_holds(s.drop_last(), t, x);
        if w.contains(x) {
            let i = choose|i: int| 0 <= i < w.len() && w[i] == x;
            if i < u.len() {
                assert(u[i] == x);
                if x != t {
                    let j = choose|j: int| 0 <= j < s.drop_last().len() && s.drop_last()[j] == x;
                    assert(s[j] == x);
                }
            } else {
                assert(s[s.len() - 1] == x);
            }
        }
        if s.contains(x) {
            let i = choose|i: int| 0 <= i < s.len() && s[i] == x;
            if i < s.len() - 1 {
                assert(s.drop_last()[i] == x);
                let j = choose|j: int| 0 <= j < u.len() && u[j] == x;
                assert(w[j] == x);
            } else {
                assert(w[u.len() as int] == x);
            }
        }
        if x == t {
            let j = choose|j: int| 0 <= j < u.len() && u[j] == x;
            assert(w[j] == x);
        }
    }
}

/// The moments are those at which calls finished, and no others.
pub proof fn lemma_moments_are_of_calls(calls: Seq<Call>, t: i64)
    ensures
        moments(calls).contains(t) == exists|i: int|
            0 <= i < calls.len() && (#[trigger] calls[i]).completed_ms == t,
    decreases calls.len(),
{
    if calls.len() > 0 {
        let before = calls.drop_last();
        lemma_moments_are_of_calls(before, t);
        lemma_with_moment_holds(moments(before), calls.last().completed_ms, t);
        if moments(before).contains(t) {
            let i = choose|i: int| 0 <= i < before.len() && (#[trigger] before[i]).completed_ms == t;
            assert(calls[i].completed_ms == t);
        }
        if calls.last().completed_ms == t {
            assert(calls[calls.len() - 1].completed_ms == t);
        }
        if exists|i: int| 0 <= i < calls.len() && (#[trigger] calls[i]).completed_ms == t {
            let i = choose|i: int| 0 <= i < calls.len() && (#[trigger] calls[i]).completed_ms == t;
            if i < before.len() {
                assert(before[i].completed_ms == t);
            }
        }
    }
}

/// A call that comes in counts once, and each of its numbers for what it is: what was answered,
/// reasoned, asked, put into the cache and read from it. What was read from the cache is not used.
pub proof fn lemma_call_counts_for_the_day<T>(
    s: Snapshot<T>,
    t: Snapshot<T>,
    calls: Seq<Call>,
    c: Call,
    now: i64,
)
    requires
        shows(s, calls, now),
        shows(t, calls.push(c), now),
        countable(calls.push(c), now),
    ensures
        t.output_tokens == s.output_tokens + c.output,
        t.reasoning_tokens == s.reasoning_tokens + c.reasoning,
        t.input_tokens == s.input_tokens + c.input,
        t.cache_creation_tokens == s.cache_creation_tokens + c.cache_creation,
        t.cache_read_tokens == s.cache_read_tokens + c.cache_read,
        t.total_tokens == s.total_tokens + c.output + c.reasoning + c.input + c.cache_creation,
        calls.len() < u64::MAX ==> t.calls_today == s.calls_today + 1,
        t.avg_tps.tokens == s.avg_tps.tokens + c.output + c.reasoning,
        c.gen_ms >= 50 ==> t.avg_tps.ms == s.avg_tps.ms + c.gen_ms,
        c.gen_ms < 50 ==> t.avg_tps.ms == s.avg_tps.ms + 50,
{
    let all = calls.push(c);
    let n = calls.len() as int;
    assert(all.take(n) =~= calls);
    lemma_bounds(all, n);
    lemma_total(calls);
    lemma_sum_prefix(all, by_eff(), n);
    lemma_sum_push(calls, c, by_output());
    lemma_sum_push(calls, c, by_reasoning());
    lemma_sum_push(calls, c, by_input());
    lemma_sum_push(calls, c, by_cache_creation());
    lemma_sum_push(calls, c, by_cache_read());
    lemma_sum_push(calls, c, by_total());
    lemma_sum_push(calls, c, by_eff());
    lemma_sum_push(calls, c, by_dur());
    lemma_sum_prefix(calls, by_output(), 0);
    lemma_sum_prefix(calls, by_reasoning(), 0);
    lemma_sum_prefix(calls, by_input(), 0);
    lemma_sum_prefix(calls, by_cache_creation(), 0);
}

/// Without a call nothing was used, and there is no speed.
pub proof fn lemma_nothing_without_calls<T>(s: Snapshot<T>, now: i64)
    requires
        shows(s, Seq::empty(), now),
    ensures
        s.total_tokens == 0,
        s.output_tokens == 0,
        s.reasoning_tokens == 0,
        s.input_tokens == 0,
        s.cache_creation_tokens == 0,
        s.cache_read_tokens == 0,
        s.calls_today == 0,
        s.sessions_today == 0,
        s.avg_tps == (Rate { tokens: 0, ms: 0 }),
        s.window_tps == (Rate { tokens: 0, ms: 0 }),
        s.last_call_tps == (Rate { tokens: 0, ms: 0 }),
        s.current_tps == Speed::<T>::Rated(Rate { tokens: 0, ms: 0 }),
        s.last_activity_ms == 0,
        !s.is_estimating && !s.is_live,
{
}

/// The speed of the last call is that of the call that finished after all others, wherever it
/// stands in the list; and that is when the panel was last active.
pub proof fn lemma_last_call_is_the_latest<T>(s: Snapshot<T>, calls: Seq<Call>, i: int, now: i64)
    requires
        shows(s, calls, now),
        countable(calls, now),
        0 <= i < calls.len(),
        calls[i].completed_ms >= 0,
        forall|j: int|
            0 <= j < calls.len() && j != i ==> (#[trigger] calls[j]).completed_ms
                < calls[i].completed_ms,
    ensures
        s.last_activity_ms == calls[i].completed_ms,
        s.last_call_tps.tokens == calls[i].output + calls[i].reasoning,
        calls[i].gen_ms >= 50 ==> s.last_call_tps.ms == calls[i].gen_ms,
        calls[i].gen_ms < 50 ==> s.last_call_tps.ms == 50,
{
    lemma_latest(calls);
    lemma_total(calls);
    lemma_sum_prefix(calls, by_input(), 0);
    lemma_sum_prefix(calls, by_cache_creation(), 0);
    lemma_sum_holds(calls, by_eff(), i);
    assert(calls[i].completed_ms <= latest_ms(calls));
    let c = latest(calls)->0;
    let k = choose|k: int| 0 <= k < calls.len() && calls[k] == c;
    assert(calls[k].completed_ms == latest_ms(calls));
}

/// A session is one that some call belongs to; a call without the name of a session belongs to
/// none.
pub proof fn lemma_sessions_are_of_calls(calls: Seq<Call>, name: Seq<char>)
    ensures
        sessions_of(calls).contains(name) == (name.len() > 0 && exists|i: int|
            0 <= i < calls.len() && (#[trigger] calls[i]).session@ == name),
        sessions_of(calls).finite(),
    decreases calls.len(),
{
    if calls.len() > 0 {
        let before = calls.drop_last();
        lemma_sessions_are_of_calls(before, name);
        if exists|i: int| 0 <= i < before.len() && (#[trigger] before[i]).session@ == name {
            let i = choose|i: int| 0 <= i < before.len() && (#[trigger] before[i]).session@ == name;
            assert(calls[i].session@ == name);
        }
        if calls.last().session@ == name {
            assert(calls[calls.len() - 1].session@ == name);
        }
        if exists|i: int| 0 <= i < calls.len() && (#[trigger] calls[i]).session@ == name {
            let i = choose|i: int| 0 <= i < calls.len() && (#[trigger] calls[i]).session@ == name;
            if i < before.len() {
                assert(before[i].session@ == name);
            }
        }
    }
}

/// A session counts once, however many calls it has: a call of a session that has one already, or
/// of none, adds no session, and a call of another adds one.
pub proof fn lemma_session_counts_once<T>(
    s: Snapshot<T>,
    t: Snapshot<T>,
    calls: Seq<Call>,
    c: Call,
    now: i64,
)
    requires
        shows(s, calls, now),
        shows(t, calls.push(c), now),
    ensures
        t.sessions_today == s.sessions_today + if c.session@.len() > 0 && forall|i: int|
            0 <= i < calls.len() ==> (#[trigger] calls[i]).session@ != c.session@ {
            1int
        } else {
            0
        },
{
    lemma_sessions_are_of_calls(calls, c.session@);
    assert(calls.push(c).drop_last() =~= calls);
    assert(calls.push(c).last() == c);
    if sessions_of(calls).contains(c.session@) {
        assert(sessions_of(calls).insert(c.session@) =~= sessions_of(calls));
    }
}

/// A call counts in that slot of the curve in which it finished, and in no other. The curve has
/// ninety slots of ten seconds; the last is the one that now lies in, and while the recent speed is
/// shown it shows that speed where no call has finished in it.
pub proof fn lemma_call_counts_in_its_slot<T>(
    s: Snapshot<T>,
    t: Snapshot<T>,
    calls: Seq<Call>,
    c: Call,
    now: i64,
    k: int,
)
    requires
        shows(s, calls, now),
        shows(t, calls.push(c), now),
        countable(calls.push(c), now),
        0 <= k < 90,
        k < 89 || !s.is_estimating && !t.is_estimating,
    ensures
        s.spark@.len() == 90,
        t.spark@.len() == 90,
        s.spark@[k] is Rated,
        t.spark@[k] is Rated,
        ({
            let (a, b) = (s.spark@[k]->Rated_0, t.spark@[k]->Rated_0);
            let here = c.completed_ms as int / 10_000 + (89 - k) == now as int / 10_000;
            &&& here ==> b.tokens == a.tokens + c.output + c.reasoning
            &&& here && c.gen_ms >= 50 ==> b.ms == a.ms + c.gen_ms
            &&& here && c.gen_ms < 50 ==> b.ms == a.ms + 50
            &&& !here ==> a == b
        }),
{
    let all = calls.push(c);
    let n = calls.len() as int;
    let ago = 89 - k;
    assert(all.take(n) =~= calls);
    lemma_bounds(all, n);
    lemma_sum_prefix(all, by_input(), 0);
    lemma_sum_prefix(all, by_cache_creation(), 0);
    lemma_sum_push(calls, c, by_slot_eff(now, ago));
    lemma_sum_push(calls, c, by_slot_dur(now, ago));
    lemma_part(all, by_slot_eff(now, ago), by_eff(), n);
    lemma_part(all, by_slot_dur(now, ago), by_dur(), n);
    assert(s.spark@[k] == Speed::<T>::Rated(curve(calls, now)[k]));
    assert(t.spark@[k] == Speed::<T>::Rated(curve(all, now)[k]));
}

/// While the recent speed is shown, the newest slot of the curve shows it too, where no call has
/// finished in that slot.
pub proof fn lemma_recent_speed_is_on_the_curve<T>(s: Snapshot<T>, calls: Seq<Call>, now: i64)
    requires
        shows(s, calls, now),
        s.is_estimating,
        forall|i: int|
            0 <= i < calls.len() ==> (#[trigger] calls[i]).completed_ms as int / 10_000
                != now as int / 10_000,
    ensures
        s.spark@.len() == 90,
        s.spark@[89] == Speed::<T>::Rated(s.window_tps),
{
    lemma_empty_slot(calls, now);
    assert(s.spark@[89] == Speed::<T>::Rated(curve(calls, now)[89]));
}

proof fn lemma_empty_slot(calls: Seq<Call>, now: i64)
    requires
        forall|i: int|
            0 <= i < calls.len() ==> (#[trigger] calls[i]).completed_ms as int / 10_000
                != now as int / 10_000,
    ensures
        sum_of(calls, by_slot_eff(now, 0)) == 0,
    decreases calls.len(),
{
    if calls.len() > 0 {
        let before = calls.drop_last();
        assert forall|i: int| 0 <= i < before.len() implies (
        #[trigger] before[i]).completed_ms as int / 10_000 != now as int / 10_000 by {
            assert(before[i] == calls[i]);
        }
        lemma_empty_slot(before, now);
        assert(calls[calls.len() - 1].completed_ms as int / 10_000 != now as int / 10_000);
    }
}

/// A call that finished no earlier than all others is the one whose speed is shown as that of the
/// last call, also where another finished at the same moment.
pub proof fn lemma_newest_call_is_the_last<T>(s: Snapshot<T>, calls: Seq<Call>, c: Call, now: i64)
    requires
        shows(s, calls.push(c), now),
        countable(calls.push(c), now),
        c.completed_ms >= 0,
        forall|i: int| 0 <= i < calls.len() ==> (#[trigger] calls[i]).completed_ms <= c.completed_ms,
    ensures
        s.last_activity_ms == c.completed_ms,
        s.last_call_tps.tokens == c.output + c.reasoning,
        c.gen_ms >= 50 ==> s.last_call_tps.ms == c.gen_ms,
        c.gen_ms < 50 ==> s.last_call_tps.ms == 50,
{
    let all = calls.push(c);
    assert(all.drop_last() =~= calls);
    lemma_latest(calls);
    lemma_total(all);
    lemma_sum_prefix(all, by_input(), 0);
    lemma_sum_prefix(all, by_cache_creation(), 0);
    lemma_sum_holds(all, by_eff(), all.len() - 1);
    if let Some(k) = latest(calls) {
        let i = choose|i: int| 0 <= i < calls.len() && calls[i] == k;
        assert(calls[i].completed_ms <= c.completed_ms);
    }
}

/// The newest slot of the curve shows its own calls as soon as there are any with tokens, also while
/// the recent speed is shown: one more adds to it.
pub proof fn lemma_call_counts_in_the_newest_slot<T>(
    s: Snapshot<T>,
    t: Snapshot<T>,
    calls: Seq<Call>,
    c: Call,
    i: int,
    now: i64,
)
    requires
        shows(s, calls, now),
        shows(t, calls.push(c), now),
        countable(calls.push(c), now),
        0 <= i < calls.len(),
        calls[i].output + calls[i].reasoning > 0,
        calls[i].completed_ms as int / 10_000 == now as int / 10_000,
    ensures
        s.spark@.len() == 90,
        t.spark@.len() == 90,
        s.spark@[89] is Rated,
        t.spark@[89] is Rated,
        ({
            let (a, b) = (s.spark@[89]->Rated_0, t.spark@[89]->Rated_0);
            let here = c.completed_ms as int / 10_000 == now as int / 10_000;
            &&& a.tokens >= calls[i].output + calls[i].reasoning
            &&& here ==> b.tokens == a.tokens + c.output + c.reasoning
            &&& !here ==> a == b
        }),
{
    let all = calls.push(c);
    let n = calls.len() as int;
    assert(all.take(n) =~= calls);
    assert(all.drop_last() =~= calls);
    lemma_total(all);
    lemma_sum_prefix(all, by_input(), 0);
    lemma_sum_prefix(all, by_cache_creation(), 0);
    lemma_part(all, by_slot_eff(now, 0), by_eff(), n);
    lemma_part(all, by_slot_dur(now, 0), by_dur(), n);
    lemma_sum_holds(calls, by_slot_eff(now, 0), i);
    lemma_sum_holds(calls, by_slot_dur(now, 0), i);
    assert(slots_ago(calls[i], now) == 0);
    assert(s.spark@[89] == Speed::<T>::Rated(curve(calls, now)[89]));
    assert(t.spark@[89] == Speed::<T>::Rated(curve(all, now)[89]));
    assert(!slot_rate(calls, now, 0).is_zero());
    assert(!slot_rate(all, now, 0).is_zero());
}

/// Calls tell nothing of the network and of what is being measured: what is shown of them leaves
/// that blank.
pub proof fn lemma_calls_tell_nothing_of_the_network<T>(s: Snapshot<T>, calls: Seq<Call>, now: i64)
    requires
        shows(s, calls, now),
    ensures
        !s.net_available && !s.net_conns_available && !s.net_ckpt_uploading,
        s.net_up_bps.tokens == 0 && s.net_down_bps.tokens == 0,
        s.net_up_today == 0 && s.net_down_today == 0,
        s.net_sess_up_today == 0 && s.net_sess_down_today == 0,
        s.net_ckpt_today == 0 && s.net_ckpt_today_count == 0,
        s.net_ckpt_today_list@.len() == 0 && s.net_ckpt_status@.len() == 0 && s.net_ckpt_list@.len()
            == 0,
        s.net_cli_conns == 0 && s.net_app_conns == 0,
        s.net_cli_conn_list@.len() == 0 && s.net_app_conn_list@.len() == 0,
        !s.is_live && !s.ramping && !s.is_starting && s.tasks@.len() == 0,
        s.now_ms == now,
{
}

} // verus!
