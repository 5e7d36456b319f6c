//! Token counts and speeds of finished model calls.
//!
//! A speed is kept as the exact pair of tokens and milliseconds that it is the quotient of. Where
//! a speed was measured on a live stream instead, it is a value of the caller's type `T`.

use vstd::prelude::*;

verus! {

/// Calls that finished within this time make up the recent speed.
pub const LIVE_WINDOW_MS: i64 = 600_000;

/// Bounds of the time during which the panel goes on showing the recent speed after a call.
pub const ESTIMATE_MIN_MS: i64 = 20_000;

pub const ESTIMATE_MAX_MS: i64 = 240_000;

/// The same time where too few calls are known.
pub const ESTIMATE_DEFAULT_MS: i64 = 60_000;

/// Longer pauses between calls do not count as pauses.
pub const MAX_GAP_MS: i64 = 600_000;

/// Least duration of a generation.
pub const MIN_DUR_MS: i64 = 50;

/// The speed curve of the day: ninety slots of ten seconds.
pub const SPARK_BUCKETS: usize = 90;

pub const SPARK_BUCKET_MS: i64 = 10_000;

/// A call shorter than this sets no speed record.
pub const HIST_MAX_MIN_GEN_MS: i64 = 1_000;

/// A call with fewer tokens sets no speed record.
pub const HIST_MAX_MIN_EFF: u64 = 300;

/// A speed: so many tokens in so many milliseconds. No time at all is no speed.
#[derive(Clone, Copy, Debug, PartialEq, Eq, Structural)]
pub struct Rate {
    pub tokens: u64,
    pub ms: i64,
}

/// No tokens in no time.
pub open spec fn no_rate() -> Rate {
    Rate { tokens: 0, ms: 0 }
}

impl Rate {
    /// No tokens in no time.
    pub fn none() -> (r: Rate)
        ensures
            r == no_rate(),
    {
        Rate { tokens: 0, ms: 0 }
    }

    /// The speed is zero.
    pub open spec fn is_zero(self) -> bool {
        self.tokens == 0 || self.ms <= 0
    }

    /// `self` is faster than `other`.
    pub open spec fn faster(self, other: Rate) -> bool {
        if self.is_zero() {
            false
        } else if other.is_zero() {
            true
        } else {
            self.tokens * other.ms > other.tokens * self.ms
        }
    }

    /// Tests whether the speed is zero.
    pub fn zero(&self) -> (r: bool)
        ensures
            r == self.is_zero(),
    {
        self.tokens == 0 || self.ms <= 0
    }

    /// Compares two speeds without rounding.
    pub fn exceeds(&self, other: &Rate) -> (r: bool)
        ensures
            r == self.faster(*other),
    {
        if self.zero() {
            false
        } else if other.zero() {
            true
        } else {
            let (a, b, c, d) = (
                self.tokens as u128,
                other.ms as u128,
                other.tokens as u128,
                self.ms as u128,
            );
            assert(a * b <= 0xffff_ffff_ffff_ffff * 0x7fff_ffff_ffff_ffff) by (nonlinear_arith)
                requires
                    0 <= a <= 0xffff_ffff_ffff_ffff,
                    0 <= b <= 0x7fff_ffff_ffff_ffff,
            ;
            assert(c * d <= 0xffff_ffff_ffff_ffff * 0x7fff_ffff_ffff_ffff) by (nonlinear_arith)
                requires
                    0 <= c <= 0xffff_ffff_ffff_ffff,
                    0 <= d <= 0x7fff_ffff_ffff_ffff,
            ;
            a * b > c * d
        }
    }
}

/// A speed on display: counted from finished calls, or measured on the stream.
#[derive(Clone, Copy, Debug, PartialEq, Eq)]
pub enum Speed<T> {
    Rated(Rate),
    Measured(T),
}

/// Where the speed on display comes from.
#[derive(Clone, Copy, Debug, PartialEq, Eq, Structural)]
pub enum LiveSource {
    Io,
    Window,
    Idle,
}

impl LiveSource {
    /// The name of the source.
    pub open spec fn name(self) -> Seq<char> {
        match self {
            LiveSource::Io => "io"@,
            LiveSource::Window => "window"@,
            LiveSource::Idle => "idle"@,
        }
    }

    /// Names the source.
    pub fn as_str(self) -> (r: &'static str)
        ensures
            r@ == self.name(),
    {
        match self {
            LiveSource::Io => "io",
            LiveSource::Window => "window",
            LiveSource::Idle => "idle",
        }
    }
}

/// A finished model call.
#[derive(Debug, PartialEq)]
pub struct Call {
    pub id: String,
    pub started_ms: i64,
    pub first_token_ms: Option<i64>,
    pub completed_ms: i64,
    /// Time from the first token to the end.
    pub gen_ms: i64,
    pub output: u64,
    pub reasoning: u64,
    pub input: u64,
    pub cache_creation: u64,
    pub cache_read: u64,
    pub session: String,
}

impl Clone for Call {
    fn clone(&self) -> (r: Self)
        ensures
            r == *self,
    {
        Call {
            id: self.id.clone(),
            started_ms: self.started_ms,
            first_token_ms: self.first_token_ms,
            completed_ms: self.completed_ms,
            gen_ms: self.gen_ms,
            output: self.output,
            reasoning: self.reasoning,
            input: self.input,
            cache_creation: self.cache_creation,
            cache_read: self.cache_read,
            session: self.session.clone(),
        }
    }
}

impl Call {
    /// Tokens that were streamed out: answer and reasoning.
    pub open spec fn eff(self) -> int {
        self.output + self.reasoning
    }

    /// The generation time that counts.
    pub open spec fn dur(self) -> int {
        at_least(self.gen_ms as int, MIN_DUR_MS as int)
    }

    /// Tokens that were streamed out: answer and reasoning.
    pub fn effective_out(&self) -> (r: u64)
        requires
            self.eff() <= u64::MAX,
        ensures
            r == self.eff(),
    {
        self.output + self.reasoning
    }

    /// The generation time that counts.
    pub fn counted_ms(&self) -> (r: i64)
        ensures
            r == self.dur(),
    {
        if self.gen_ms < MIN_DUR_MS {
            MIN_DUR_MS
        } else {
            self.gen_ms
        }
    }
}

/// The larger of two numbers.
pub open spec fn at_least(x: int, low: int) -> int {
    if x < low {
        low
    } else {
        x
    }
}

/// The nearest number to `x` from `low` to `high`.
pub open spec fn clamped(x: int, low: int, high: int) -> int {
    if x < low {
        low
    } else if x > high {
        high
    } else {
        x
    }
}

/// The generation time of a call: from its first token where one is known, else its duration, and
/// never below the least one.
pub open spec fn generation_ms(ft: Option<i64>, completed: i64, dur: Option<i64>) -> int {
    let measured = match ft {
        Some(f) if completed > f => completed - f,
        _ => match dur {
            Some(d) if d > 0 => d as int,
            _ => MIN_DUR_MS as int,
        },
    };
    at_least(measured, MIN_DUR_MS as int)
}

/// Computes the generation time of a call.
pub fn gen_ms_from(ft: Option<i64>, completed: i64, dur: Option<i64>) -> (r: i64)
    requires
        generation_ms(ft, completed, dur) <= i64::MAX,
    ensures
        r == generation_ms(ft, completed, dur),
{
    let measured: i64 = match ft {
        Some(f) if completed > f => completed - f,
        _ => match dur {
            Some(d) if d > 0 => d,
            _ => MIN_DUR_MS,
        },
    };
    if measured < MIN_DUR_MS {
        MIN_DUR_MS
    } else {
        measured
    }
}

/// The quotient of `x` by `d`, rounded down.
pub fn floor_div(x: i64, d: i64) -> (r: i64)
    requires
        d > 0,
    ensures
        r == x as int / d as int,
{
    assert(i64::MIN <= x as int / d as int <= i64::MAX) by (nonlinear_arith)
        requires
            d > 0,
            i64::MIN <= x <= i64::MAX,
    ;
    x.checked_div_euclid(d).unwrap()
}

/// One task that is running: a process with the sessions it carries.
#[derive(Clone, Debug, PartialEq)]
pub struct TaskStat<T> {
    pub pid: u32,
    /// The session it belongs to; empty where none is known.
    pub session: String,
    pub n_sessions: u32,
    pub tps: T,
    pub streaming: bool,
}

/// An open connection and the process that holds it.
#[derive(Debug, PartialEq)]
pub struct ConnStat {
    pub remote: String,
    pub pid: u32,
    pub proc: String,
}

impl Clone for ConnStat {
    fn clone(&self) -> (r: Self)
        ensures
            r == *self,
    {
        ConnStat { remote: self.remote.clone(), pid: self.pid, proc: self.proc.clone() }
    }
}

/// The latest checkpoint of a workspace.
#[derive(Debug, PartialEq)]
pub struct CkptStat {
    pub workspace: String,
    pub bytes: u64,
    pub recorded_ms: i64,
    pub accepted: bool,
    pub uploading: bool,
    /// Name of its directory, where it is known.
    pub hash: Option<String>,
}

/// What a [`CkptStat`] holds.
pub ghost struct CkptStatView {
    pub workspace: Seq<char>,
    pub bytes: u64,
    pub recorded_ms: i64,
    pub accepted: bool,
    pub uploading: bool,
    pub hash: Option<Seq<char>>,
}

/// The characters of an optional string.
pub open spec fn optional_text(s: Option<String>) -> Option<Seq<char>> {
    match s {
        Some(t) => Some(t@),
        None => None,
    }
}

impl View for CkptStat {
    type V = CkptStatView;

    open spec fn view(&self) -> CkptStatView {
        CkptStatView {
            workspace: self.workspace@,
            bytes: self.bytes,
            recorded_ms: self.recorded_ms,
            accepted: self.accepted,
            uploading: self.uploading,
            hash: optional_text(self.hash),
        }
    }
}

impl Clone for CkptStat {
    fn clone(&self) -> (r: Self)
        ensures
            r == *self,
    {
        CkptStat {
            workspace: self.workspace.clone(),
            bytes: self.bytes,
            recorded_ms: self.recorded_ms,
            accepted: self.accepted,
            uploading: self.uploading,
            hash: match &self.hash {
                Some(h) => Some(h.clone()),
                None => None,
            },
        }
    }
}

/// What a list of checkpoint rows holds.
pub open spec fn row_views(rows: Seq<CkptStat>) -> Seq<CkptStatView> {
    rows.map_values(|r: CkptStat| r@)
}

/// Copies a list of checkpoint rows.
pub fn copy_rows(rows: &Vec<CkptStat>) -> (r: Vec<CkptStat>)
    ensures
        r@ == rows@,
{
    let mut r: Vec<CkptStat> = Vec::new();
    let mut i: usize = 0;
    while i < rows.len()
        invariant
            i <= rows.len(),
            r@ == rows@.take(i as int),
        decreases rows.len() - i,
    {
        r.push(rows[i].clone());
        i += 1;
    }
    r
}

/// Everything the panel shows at one moment.
#[derive(Clone, Debug, PartialEq)]
pub struct Snapshot<T> {
    pub current_tps: Speed<T>,
    pub avg_tps: Rate,
    pub total_tokens: u64,
    pub output_tokens: u64,
    pub reasoning_tokens: u64,
    pub input_tokens: u64,
    pub cache_creation_tokens: u64,
    pub cache_read_tokens: u64,
    pub calls_today: u64,
    pub sessions_today: u64,
    pub is_live: bool,
    /// The speed is that of recent calls, shown while the next one runs.
    pub is_estimating: bool,
    pub ramping: bool,
    /// A call has begun and sent nothing yet.
    pub is_starting: bool,
    pub window_tps: Rate,
    pub last_call_tps: Rate,
    pub hist_max_tps: Rate,
    pub hist_avg_tps: Rate,
    pub live_source: LiveSource,
    pub last_activity_ms: i64,
    pub now_ms: i64,
    pub rollout_dir: String,
    pub spark: Vec<Speed<T>>,
    pub tasks: Vec<TaskStat<T>>,
    pub net_available: bool,
    pub net_up_bps: Rate,
    pub net_down_bps: Rate,
    pub net_up_today: u64,
    pub net_down_today: u64,
    pub net_sess_up_today: u64,
    pub net_sess_down_today: u64,
    pub net_ckpt_today: u64,
    pub net_ckpt_today_count: u32,
    pub net_ckpt_today_list: Vec<CkptStat>,
    pub net_ckpt_uploading: bool,
    pub net_ckpt_status: String,
    pub net_ckpt_list: Vec<CkptStat>,
    pub net_conns_available: bool,
    pub net_cli_conns: u32,
    pub net_app_conns: u32,
    pub net_cli_conn_list: Vec<ConnStat>,
    pub net_app_conn_list: Vec<ConnStat>,
}

impl<T> Snapshot<T> {
    /// Nothing has been filled in about the network.
    pub open spec fn without_network(self) -> bool {
        &&& !self.net_available
        &&& self.net_up_bps == no_rate()
        &&& self.net_down_bps == no_rate()
        &&& self.net_up_today == 0
        &&& self.net_down_today == 0
        &&& self.net_sess_up_today == 0
        &&& self.net_sess_down_today == 0
        &&& self.net_ckpt_today == 0
        &&& self.net_ckpt_today_count == 0
        &&& self.net_ckpt_today_list@.len() == 0
        &&& !self.net_ckpt_uploading
        &&& self.net_ckpt_status@.len() == 0
        &&& self.net_ckpt_list@.len() == 0
        &&& !self.net_conns_available
        &&& self.net_cli_conns == 0
        &&& self.net_app_conns == 0
        &&& self.net_cli_conn_list@.len() == 0
        &&& self.net_app_conn_list@.len() == 0
    }
}

/// The time of generation runs from the first token to the end, whatever else the call took. Where
/// no token was seen before the end, it is the duration that was noted. It is never less than fifty
/// milliseconds, and it does not depend on when the call took place.
pub proof fn lemma_generation_runs_from_the_first_token(
    first: i64,
    end: i64,
    later: int,
    dur: Option<i64>,
    other: Option<i64>,
)
    requires
        i64::MIN <= first + later <= i64::MAX,
        i64::MIN <= end + later <= i64::MAX,
    ensures
        end - first >= 50 ==> generation_ms(Some(first), end, dur) == end - first,
        0 < end - first < 50 ==> generation_ms(Some(first), end, dur) == 50,
        end > first ==> generation_ms(Some(first), end, dur) == generation_ms(
            Some(first),
            end,
            other,
        ),
        end <= first ==> generation_ms(Some(first), end, dur) == generation_ms(None, end, dur),
        generation_ms(Some((first + later) as i64), (end + later) as i64, dur) == generation_ms(
            Some(first),
            end,
            dur,
        ),
        (dur matches Some(d) && d >= 50) ==> generation_ms(None, end, dur) == dur->0,
        !(dur matches Some(d) && d >= 50) ==> generation_ms(None, end, dur) == 50,
{
}

/// Of two speeds the one is higher that has more tokens in the same time, or the same tokens in
/// less time; and no speed is lower than none.
pub proof fn lemma_more_in_less_time_is_faster(tokens: u64, more: u64, ms: i64, less: i64)
    requires
        0 < tokens < more,
        0 < less < ms,
    ensures
        (Rate { tokens: more, ms }).faster(Rate { tokens, ms }),
        !(Rate { tokens, ms }).faster(Rate { tokens: more, ms }),
        (Rate { tokens, ms: less }).faster(Rate { tokens, ms }),
        !(Rate { tokens, ms }).faster(Rate { tokens, ms: less }),
        !(Rate { tokens, ms }).faster(Rate { tokens, ms }),
        (Rate { tokens, ms }).faster(Rate { tokens: 0, ms }),
        (Rate { tokens, ms }).faster(Rate { tokens, ms: 0 }),
        !(Rate { tokens: 0, ms }).faster(Rate { tokens, ms }),
        !(Rate { tokens, ms: 0 }).faster(Rate { tokens, ms }),
        !(Rate { tokens: 0, ms }).faster(Rate { tokens: 0, ms: 0 }),
{
    assert(more * ms > tokens * ms && tokens * ms > tokens * less) by (nonlinear_arith)
        requires
            0 < tokens < more,
            0 < less < ms,
    ;
}

/// Only the ratio of tokens and time matters: of two speeds that are the same, or of which the
/// first is higher, the first stays so when both its tokens and its time are multiplied.
pub proof fn lemma_only_the_ratio_matters(a: Rate, b: Rate, k: int)
    requires
        k > 0,
        a.tokens * k <= u64::MAX,
        0 < a.ms,
        a.ms * k <= i64::MAX,
    ensures
        a.faster(b) == (Rate { tokens: (a.tokens * k) as u64, ms: (a.ms * k) as i64 }).faster(b),
        b.faster(a) == b.faster(Rate { tokens: (a.tokens * k) as u64, ms: (a.ms * k) as i64 }),
{
    let (x, y, p, q) = (a.tokens as int, a.ms as int, b.tokens as int, b.ms as int);
    assert((x * k) * q == (x * q) * k) by (nonlinear_arith);
    assert(p * (y * k) == (p * y) * k) by (nonlinear_arith);
    assert((x * q) * k > (p * y) * k <==> x * q > p * y) by (nonlinear_arith)
        requires
            k > 0,
    ;
    assert((p * y) * k > (x * q) * k <==> p * y > x * q) by (nonlinear_arith)
        requires
            k > 0,
    ;
    assert(y * k > 0) by (nonlinear_arith)
        requires
            y > 0,
            k > 0,
    ;
    assert(x * k >= 0 && (x * k == 0 <==> x == 0)) by (nonlinear_arith)
        requires
            x >= 0,
            k > 0,
    ;
}

/// The sources of what is shown are told apart by their names.
pub proof fn lemma_sources_are_told_apart(a: LiveSource, b: LiveSource)
    ensures
        a.name() == b.name() ==> a == b,
        a.name() == "io"@ ==> a == LiveSource::Io,
        a.name() == "window"@ ==> a == LiveSource::Window,
        a.name() == "idle"@ ==> a == LiveSource::Idle,
{
    reveal_strlit("io");
    reveal_strlit("window");
    reveal_strlit("idle");
    assert("io"@.len() == 2 && "window"@.len() == 6 && "idle"@.len() == 4);
}

} // verus!
