//! Speed over all time: the average of every finished call and the record.

use vstd::prelude::*;
use crate::metrics::{at_least, no_rate, HIST_MAX_MIN_EFF, HIST_MAX_MIN_GEN_MS, MIN_DUR_MS, Rate};

verus! {

/// What counts of a finished call.
pub ghost struct Finished {
    pub first_token: Option<i64>,
    pub completed: i64,
    pub gen_ms: int,
    pub eff: int,
}

impl Finished {
    /// The call may set a record: its first token was seen, and it was neither short nor small.
    pub open spec fn admitted(self) -> bool {
        &&& self.first_token matches Some(f) && self.completed > f
        &&& self.gen_ms >= HIST_MAX_MIN_GEN_MS
        &&& self.eff >= HIST_MAX_MIN_EFF
    }

    pub open spec fn rate(self) -> Rate {
        Rate { tokens: self.eff as u64, ms: self.gen_ms as i64 }
    }
}

/// What a [`HistoryStats`] holds.
pub ghost struct HistoryView {
    pub eff: int,
    pub gen_ms: int,
    pub max: Rate,
}

impl HistoryView {
    /// One call more.
    pub open spec fn with(self, f: Finished) -> HistoryView {
        HistoryView {
            eff: self.eff + f.eff,
            gen_ms: self.gen_ms + at_least(f.gen_ms, MIN_DUR_MS as int),
            max: if f.admitted() && f.rate().faster(self.max) {
                f.rate()
            } else {
                self.max
            },
        }
    }

    /// Some calls more.
    pub open spec fn with_all(self, calls: Seq<Finished>) -> HistoryView
        decreases calls.len(),
    {
        if calls.len() == 0 {
            self
        } else {
            self.with_all(calls.drop_last()).with(calls.last())
        }
    }

    /// The sums can be held in 64 bits.
    pub open spec fn fits(self) -> bool {
        self.eff <= u64::MAX && self.gen_ms <= i64::MAX
    }
}

/// Sums over every finished call, and the fastest one.
#[derive(Clone, Copy, Debug, PartialEq)]
pub struct HistoryStats {
    pub total_eff: u64,
    pub total_gen_ms: i64,
    pub max_tps: Rate,
}

impl View for HistoryStats {
    type V = HistoryView;

    open spec fn view(&self) -> HistoryView {
        HistoryView {
            eff: self.total_eff as int,
            gen_ms: self.total_gen_ms as int,
            max: self.max_tps,
        }
    }
}

impl Default for HistoryStats {
    /// No call yet.
    fn default() -> (r: Self)
        ensures
            r.total_eff == 0,
            r.total_gen_ms == 0,
            r.max_tps == no_rate(),
    {
        HistoryStats { total_eff: 0, total_gen_ms: 0, max_tps: Rate::none() }
    }
}

impl HistoryStats {
    /// Takes in a finished call.
    pub fn fold(&mut self, ft: Option<i64>, completed_ms: i64, gen_ms: i64, eff: u64)
        requires
            old(self)@.with(
                Finished { first_token: ft, completed: completed_ms, gen_ms: gen_ms as int, eff: eff as int },
            ).fits(),
        ensures
            final(self)@ == old(self)@.with(
                (Finished { first_token: ft, completed: completed_ms, gen_ms: gen_ms as int, eff: eff as int }),
            ),
    {
        self.total_eff = self.total_eff + eff;
        let counted: i64 = if gen_ms < MIN_DUR_MS {
            MIN_DUR_MS
        } else {
            gen_ms
        };
        self.total_gen_ms = self.total_gen_ms + counted;
        let seen = match ft {
            Some(f) => completed_ms > f,
            None => false,
        };
        if seen && gen_ms >= HIST_MAX_MIN_GEN_MS && eff >= HIST_MAX_MIN_EFF {
            let rate = Rate { tokens: eff, ms: gen_ms };
            if rate.exceeds(&self.max_tps) {
                self.max_tps = rate;
            }
        }
    }

    /// The average speed.
    pub fn avg_tps(&self) -> (r: Rate)
        ensures
            r == (Rate { tokens: self.total_eff, ms: self.total_gen_ms }),
    {
        Rate { tokens: self.total_eff, ms: self.total_gen_ms }
    }
}

proof fn lemma_not_faster_carries_over(a: Rate, b: Rate, c: Rate)
    requires
        !a.faster(b),
        !b.faster(c),
    ensures
        !a.faster(c),
{
    if !a.is_zero() {
        assert(!b.is_zero());
        assert(!c.is_zero());
        let (x, y, z) = (a.tokens as int, b.tokens as int, c.tokens as int);
        let (p, q, r) = (a.ms as int, b.ms as int, c.ms as int);
        assert(x * r <= z * p) by (nonlinear_arith)
            requires
                x * q <= y * p,
                y * r <= z * q,
                p > 0,
                q > 0,
                r > 0,
        {
            assert(x * q * r <= y * p * r);
            assert(y * r * p <= z * q * p);
            assert((x * r) * q <= (z * p) * q);
        }
    }
}

proof fn lemma_faster_is_not_slower(a: Rate, b: Rate)
    requires
        a.faster(b),
    ensures
        !b.faster(a),
{
}

/// The record is one that was set: no call that may set a record is faster, and the record itself
/// is one of those calls or the earlier record.
pub proof fn lemma_record(h: HistoryView, calls: Seq<Finished>)
    ensures
        !h.max.faster(h.with_all(calls).max),
        forall|i: int|
            0 <= i < calls.len() && (#[trigger] calls[i]).admitted() ==> !calls[i].rate().faster(
                h.with_all(calls).max,
            ),
        h.with_all(calls).max == h.max || exists|i: int|
            0 <= i < calls.len() && (#[trigger] calls[i]).admitted() && calls[i].rate()
                == h.with_all(calls).max,
    decreases calls.len(),
{
    if calls.len() > 0 {
        let before = calls.drop_last();
        let last = calls.last();
        lemma_record(h, before);
        let (m, n) = (h.with_all(before).max, h.with_all(calls).max);
        if n != m {
            lemma_faster_is_not_slower(n, m);
        }
        assert(!m.faster(n));
        lemma_not_faster_carries_over(h.max, m, n);
        assert forall|i: int| 0 <= i < calls.len() && (#[trigger] calls[i]).admitted() implies !calls[i].rate().faster(
            n,
        ) by {
            if i < before.len() {
                assert(before[i] == calls[i]);
                lemma_not_faster_carries_over(calls[i].rate(), m, n);
            }
        }
        if n == m && m != h.max {
            let i = choose|i: int|
                0 <= i < before.len() && (#[trigger] before[i]).admitted() && before[i].rate() == m;
            assert(calls[i] == before[i]);
        } else if n != m {
            assert(calls[calls.len() - 1] == last);
        }
    }
}

/// Each call adds to the sums.
pub proof fn lemma_grows(h: HistoryView, calls: Seq<Finished>, n: int)
    requires
        0 <= n <= calls.len(),
        forall|i: int| 0 <= i < calls.len() ==> (#[trigger] calls[i]).eff >= 0,
    ensures
        h.with_all(calls.take(n)).eff <= h.with_all(calls).eff,
        h.with_all(calls.take(n)).gen_ms <= h.with_all(calls).gen_ms,
    decreases calls.len(),
{
    if n < calls.len() {
        let before = calls.drop_last();
        assert forall|i: int| 0 <= i < before.len() implies (#[trigger] before[i]).eff >= 0 by {
            assert(before[i] == calls[i]);
        }
        lemma_grows(h, before, n);
        assert(before.take(n) =~= calls.take(n));
        assert(calls.last() == calls[calls.len() - 1]);
    } else {
        assert(calls.take(n) =~= calls);
    }
}

/// Every call adds what it streamed out to the tokens of all time, and its time to their time; a
/// call of less than fifty milliseconds adds fifty.
pub proof fn lemma_call_adds_to_all_time(h: HistoryView, calls: Seq<Finished>, f: Finished)
    ensures
        h.with_all(calls.push(f)).eff == h.with_all(calls).eff + f.eff,
        f.gen_ms >= 50 ==> h.with_all(calls.push(f)).gen_ms == h.with_all(calls).gen_ms + f.gen_ms,
        f.gen_ms < 50 ==> h.with_all(calls.push(f)).gen_ms == h.with_all(calls).gen_ms + 50,
        h.with_all(Seq::empty()) == h,
{
    assert(calls.push(f).drop_last() =~= calls);
}

/// A call sets the record where it is faster than the record, its first token was seen before its
/// end, and it had three hundred tokens and took a second at least; no other call does.
pub proof fn lemma_who_sets_the_record(h: HistoryView, calls: Seq<Finished>, f: Finished)
    requires
        0 <= f.eff <= u64::MAX,
        f.gen_ms <= i64::MAX,
    ensures
        ({
            let (old_max, new_max) = (h.with_all(calls).max, h.with_all(calls.push(f)).max);
            let own = Rate { tokens: f.eff as u64, ms: f.gen_ms as i64 };
            &&& (f.first_token matches Some(t) && t < f.completed) && f.gen_ms >= 1_000 && f.eff
                >= 300 && own.faster(old_max) ==> new_max == own
            &&& !own.faster(old_max) ==> new_max == old_max
            &&& f.first_token is None ==> new_max == old_max
            &&& (f.first_token matches Some(t) && t >= f.completed) ==> new_max == old_max
            &&& f.gen_ms < 1_000 ==> new_max == old_max
            &&& f.eff < 300 ==> new_max == old_max
        }),
{
    assert(calls.push(f).drop_last() =~= calls);
}

} // verus!
