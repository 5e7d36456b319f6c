//! What is measured live, laid over what finished calls tell.

use vstd::prelude::*;
use crate::json::{as_integer, integer_in, json_of, member, parse, Json, JsonView};
use crate::metrics::{no_rate, LiveSource, Rate, Snapshot, Speed, TaskStat};
use crate::monitor::NetNow;
use crate::shell::{FloatStyle, Mode};
use crate::snapshot_guard::SnapshotGuardStatus;
use crate::netio::{
    estimate, lemma_bytes_for_each_token, sess_bytes_est, SESS_DOWN_BPT, SESS_UP_BPT,
};
use crate::sums::{lemma_sum_push, sum_of};

verus! {

/// A process that streams, as it was measured.
#[derive(Debug, PartialEq)]
pub struct LiveTask<T> {
    pub pid: u32,
    pub session: Option<String>,
    pub n_sessions: u32,
    pub tps: T,
    pub streaming: bool,
}

/// What was measured live.
#[derive(Debug, PartialEq)]
pub struct LiveReading<T> {
    /// There is something to measure.
    pub available: bool,
    /// A call is streaming.
    pub streaming: bool,
    /// The measured time is still short.
    pub ramping: bool,
    /// A call has begun and sent nothing yet.
    pub awaiting: bool,
    pub tps: T,
    /// The measured speed is less than one token in a second.
    pub slow: bool,
    pub tasks: Vec<LiveTask<T>>,
}

/// The row of a process.
pub open spec fn is_task<T>(r: TaskStat<T>, t: LiveTask<T>) -> bool {
    &&& r.pid == t.pid
    &&& r.session@ == match t.session {
        Some(s) => s@,
        None => Seq::empty(),
    }
    &&& r.n_sessions == t.n_sessions
    &&& r.tps == t.tps
    &&& r.streaming == t.streaming
}

/// The rows of some processes.
pub open spec fn are_tasks<T>(rows: Seq<TaskStat<T>>, tasks: Seq<LiveTask<T>>) -> bool {
    &&& rows.len() == tasks.len()
    &&& forall|i: int| 0 <= i < rows.len() ==> is_task(#[trigger] rows[i], tasks[i])
}

/// What is shown of the speed.
pub ghost struct Shown<T> {
    pub current: Speed<T>,
    pub is_live: bool,
    pub is_estimating: bool,
    pub ramping: bool,
    pub is_starting: bool,
    pub source: LiveSource,
    /// The newest slot of the curve takes the speed that is shown.
    pub on_curve: bool,
    /// The processes that stream are listed: only where what is shown was measured.
    pub with_tasks: bool,
}

/// The speed is that of finished calls, and not zero.
pub open spec fn moving<T>(s: Speed<T>) -> bool {
    s matches Speed::Rated(r) && !r.is_zero()
}

/// What is shown where a call streams: what was measured; nothing before its first byte; and the
/// speed of recent calls where too little is measured.
pub open spec fn streaming_shown<T>(s: Snapshot<T>, live: LiveReading<T>) -> Shown<T> {
    let estimated = !live.awaiting && live.slow && !s.window_tps.is_zero();
    Shown {
        current: if live.awaiting {
            Speed::Rated(no_rate())
        } else if estimated {
            Speed::Rated(s.window_tps)
        } else {
            Speed::Measured(live.tps)
        },
        is_live: true,
        is_estimating: estimated,
        ramping: live.ramping,
        is_starting: live.awaiting,
        source: if estimated {
            LiveSource::Window
        } else {
            LiveSource::Io
        },
        on_curve: true,
        with_tasks: !live.awaiting && !estimated,
    }
}

/// What is shown while nothing is measured, though a call runs and no process was ever seen: the
/// speed of recent calls where it is known, else that a call has begun.
pub open spec fn unmeasured_shown<T>(s: Snapshot<T>) -> Shown<T> {
    if s.is_estimating && moving(s.current_tps) {
        Shown {
            current: s.current_tps,
            is_live: s.is_live,
            is_estimating: true,
            ramping: s.ramping,
            is_starting: s.is_starting,
            source: s.live_source,
            on_curve: false,
            with_tasks: false,
        }
    } else {
        Shown {
            current: Speed::Rated(no_rate()),
            is_live: s.is_live,
            is_estimating: false,
            ramping: s.ramping,
            is_starting: true,
            source: LiveSource::Window,
            on_curve: true,
            with_tasks: false,
        }
    }
}

/// What is shown where no call runs.
pub open spec fn idle_shown<T>(s: Snapshot<T>, is_live: bool) -> Shown<T> {
    Shown {
        current: Speed::Rated(no_rate()),
        is_live,
        is_estimating: false,
        ramping: false,
        is_starting: s.is_starting,
        source: LiveSource::Idle,
        on_curve: true,
        with_tasks: false,
    }
}

/// What is shown: what is measured comes first, and nothing is estimated while no call runs.
pub open spec fn shown<T>(
    s: Snapshot<T>,
    live: LiveReading<T>,
    any_inflight: bool,
    ever_saw: bool,
) -> Shown<T> {
    if live.available {
        if live.streaming {
            streaming_shown(s, live)
        } else {
            idle_shown(s, s.is_live)
        }
    } else if any_inflight && !ever_saw {
        unmeasured_shown(s)
    } else {
        idle_shown(s, false)
    }
}

/// A curve with its newest slot set.
pub open spec fn with_newest<T>(spark: Seq<Speed<T>>, v: Speed<T>) -> Seq<Speed<T>> {
    if spark.len() > 0 {
        spark.update(spark.len() - 1, v)
    } else {
        spark
    }
}

/// `r` is `s` with what is shown laid over it; all else is as it was.
pub open spec fn is_overlaid<T>(
    r: Snapshot<T>,
    s: Snapshot<T>,
    v: Shown<T>,
    tasks: Seq<LiveTask<T>>,
) -> bool {
    &&& r.current_tps == v.current
    &&& r.is_live == v.is_live
    &&& r.is_estimating == v.is_estimating
    &&& r.ramping == v.ramping
    &&& r.is_starting == v.is_starting
    &&& r.live_source == v.source
    &&& r.spark@ == if v.on_curve {
        with_newest(s.spark@, v.current)
    } else {
        s.spark@
    }
    &&& if v.with_tasks {
        are_tasks(r.tasks@, tasks)
    } else {
        r.tasks@.len() == 0
    }
    &&& r == (Snapshot {
        current_tps: r.current_tps,
        is_live: r.is_live,
        is_estimating: r.is_estimating,
        ramping: r.ramping,
        is_starting: r.is_starting,
        live_source: r.live_source,
        spark: r.spark,
        tasks: r.tasks,
        ..s
    })
}

fn task_rows<T: Copy>(tasks: &Vec<LiveTask<T>>) -> (r: Vec<TaskStat<T>>)
    ensures
        are_tasks(r@, tasks@),
{
    let mut r: Vec<TaskStat<T>> = Vec::new();
    let mut i: usize = 0;
    while i < tasks.len()
        invariant
            i <= tasks.len(),
            r@.len() == i,
            forall|k: int| 0 <= k < i ==> is_task(#[trigger] r@[k], tasks@[k]),
        decreases tasks.len() - i,
    {
        let t = &tasks[i];
        let session = match &t.session {
            Some(s) => s.clone(),
            None => String::new(),
        };
        assert(t.session is None ==> session@ =~= Seq::empty());
        r.push(
            TaskStat {
                pid: t.pid,
                session,
                n_sessions: t.n_sessions,
                tps: t.tps,
                streaming: t.streaming,
            },
        );
        i += 1;
    }
    r
}

fn set_newest<T: Copy>(spark: &mut Vec<Speed<T>>, v: Speed<T>)
    ensures
        final(spark)@ == with_newest(old(spark)@, v),
{
    let n: usize = spark.len();
    if n > 0 {
        spark.set(n - 1, v);
    }
}

/// Lays what was measured live over what finished calls tell. `any_inflight` says that a call is
/// running, `ever_saw` that a process was seen at any time.
pub fn overlay<T: Copy>(
    snapshot: Snapshot<T>,
    live: &LiveReading<T>,
    any_inflight: bool,
    ever_saw: bool,
) -> (r: Snapshot<T>)
    ensures
        is_overlaid(r, snapshot, shown(snapshot, *live, any_inflight, ever_saw), live.tasks@),
{
    let mut s = snapshot;
    s.tasks = Vec::new();
    if live.available {
        if live.streaming {
            s.is_live = true;
            s.is_estimating = false;
            s.ramping = live.ramping;
            s.is_starting = live.awaiting;
            s.live_source = LiveSource::Io;
            if live.awaiting {
                s.current_tps = Speed::Rated(Rate::none());
            } else if live.slow && !s.window_tps.zero() {
                s.current_tps = Speed::Rated(s.window_tps);
                s.is_estimating = true;
                s.live_source = LiveSource::Window;
            } else {
                s.current_tps = Speed::Measured(live.tps);
                s.tasks = task_rows(&live.tasks);
            }
            set_newest(&mut s.spark, s.current_tps);
        } else {
            s.is_estimating = false;
            s.ramping = false;
            s.current_tps = Speed::Rated(Rate::none());
            s.live_source = LiveSource::Idle;
            set_newest(&mut s.spark, Speed::Rated(Rate::none()));
        }
    } else if any_inflight && !ever_saw {
        let goes_on = s.is_estimating && match &s.current_tps {
            Speed::Rated(rate) => !rate.zero(),
            Speed::Measured(_) => false,
        };
        if !goes_on {
            s.is_estimating = false;
            s.is_starting = true;
            s.current_tps = Speed::Rated(Rate::none());
            s.live_source = LiveSource::Window;
            set_newest(&mut s.spark, Speed::Rated(Rate::none()));
        }
    } else {
        s.is_live = false;
        s.is_estimating = false;
        s.ramping = false;
        s.current_tps = Speed::Rated(Rate::none());
        s.live_source = LiveSource::Idle;
        set_newest(&mut s.spark, Speed::Rated(Rate::none()));
    }
    s
}

/// While no call runs, and where there is nothing to measure, the panel shows no speed.
pub proof fn lemma_nothing_shown_while_idle<T>(
    s: Snapshot<T>,
    live: LiveReading<T>,
    any_inflight: bool,
    ever_saw: bool,
)
    requires
        if live.available {
            !live.streaming
        } else {
            !any_inflight || ever_saw
        },
    ensures
        ({
            let v = shown(s, live, any_inflight, ever_saw);
            v.current == Speed::<T>::Rated(no_rate()) && !v.is_estimating && !v.ramping && v.source
                == LiveSource::Idle && !v.with_tasks
        }),
{
}

/// Processes are listed only beside a speed that was measured.
pub proof fn lemma_tasks_only_when_measured<T>(
    s: Snapshot<T>,
    live: LiveReading<T>,
    any_inflight: bool,
    ever_saw: bool,
)
    ensures
        ({
            let v = shown(s, live, any_inflight, ever_saw);
            v.with_tasks ==> v.current == Speed::<T>::Measured(live.tps) && v.source
                == LiveSource::Io && !v.is_starting
        }),
{
}

/// Prompt tokens that were not in the cache.
pub open spec fn uncached(input: u64, cache_creation: u64, cache_read: u64) -> u64 {
    let sent = if input + cache_creation > u64::MAX {
        u64::MAX as int
    } else {
        input + cache_creation
    };
    if sent >= cache_read {
        (sent - cache_read) as u64
    } else {
        0
    }
}

/// A snapshot with what the monitor shows, and with the estimates for the sessions; all else is as
/// it was.
pub open spec fn filled<T>(s: Snapshot<T>, net: NetNow) -> Snapshot<T> {
    Snapshot {
        net_available: net.available,
        net_up_bps: net.up_bps,
        net_down_bps: net.down_bps,
        net_up_today: net.up_today,
        net_down_today: net.down_today,
        net_sess_up_today: estimate(
            uncached(s.input_tokens, s.cache_creation_tokens, s.cache_read_tokens),
            SESS_UP_BPT as nat,
        ),
        net_sess_down_today: estimate(
            (s.output_tokens + s.reasoning_tokens) as u64,
            SESS_DOWN_BPT as nat,
        ),
        net_ckpt_today: net.ckpt_today_bytes,
        net_ckpt_today_count: net.ckpt_today_count,
        net_ckpt_today_list: net.ckpt_today_list,
        net_ckpt_uploading: net.ckpt_uploading,
        net_ckpt_status: net.ckpt_status,
        net_ckpt_list: net.ckpt_list,
        net_conns_available: net.conns_available,
        net_cli_conns: net.cli_conns,
        net_app_conns: net.app_conns,
        net_cli_conn_list: net.cli_conn_list,
        net_app_conn_list: net.app_conn_list,
        ..s
    }
}

/// Fills in what the monitor shows, and the estimates for the sessions.
pub fn fill_net<T>(snapshot: Snapshot<T>, net: NetNow) -> (r: Snapshot<T>)
    requires
        snapshot.output_tokens + snapshot.reasoning_tokens <= u64::MAX,
    ensures
        r == filled(snapshot, net),
{
    let prompt: u64 = snapshot.input_tokens.saturating_add(
        snapshot.cache_creation_tokens,
    ).saturating_sub(snapshot.cache_read_tokens);
    let (sess_up, sess_down) = sess_bytes_est(
        prompt,
        snapshot.output_tokens + snapshot.reasoning_tokens,
    );
    let mut s = snapshot;
    s.net_available = net.available;
    s.net_up_bps = net.up_bps;
    s.net_down_bps = net.down_bps;
    s.net_up_today = net.up_today;
    s.net_down_today = net.down_today;
    s.net_sess_up_today = sess_up;
    s.net_sess_down_today = sess_down;
    s.net_ckpt_today = net.ckpt_today_bytes;
    s.net_ckpt_today_count = net.ckpt_today_count;
    s.net_ckpt_today_list = net.ckpt_today_list;
    s.net_ckpt_uploading = net.ckpt_uploading;
    s.net_ckpt_status = net.ckpt_status;
    s.net_ckpt_list = net.ckpt_list;
    s.net_conns_available = net.conns_available;
    s.net_cli_conns = net.cli_conns;
    s.net_app_conns = net.app_conns;
    s.net_cli_conn_list = net.cli_conn_list;
    s.net_app_conn_list = net.app_conn_list;
    s
}

/// What the panel is sent at every tick.
#[derive(Debug, PartialEq)]
pub struct SnapshotPayload<T> {
    pub snapshot: Snapshot<T>,
    /// Where the usage database lies.
    pub rollout_dir: String,
    pub mode: String,
    pub float_style: String,
    pub guard: SnapshotGuardStatus,
}

/// Puts together what the panel is sent: what finished calls tell, with what the monitor shows and
/// what was measured live laid over it.
pub fn build_payload<T: Copy>(
    snapshot: Snapshot<T>,
    rollout_dir: String,
    net: NetNow,
    live: &LiveReading<T>,
    any_inflight: bool,
    ever_saw: bool,
    mode: Mode,
    style: FloatStyle,
    guard: SnapshotGuardStatus,
) -> (r: SnapshotPayload<T>)
    requires
        snapshot.output_tokens + snapshot.reasoning_tokens <= u64::MAX,
    ensures
        ({
            let s = filled(snapshot, net);
            is_overlaid(r.snapshot, s, shown(s, *live, any_inflight, ever_saw), live.tasks@)
        }),
        r.rollout_dir == rollout_dir,
        r.mode@ == mode.name(),
        r.float_style@ == style.name(),
        r.guard == guard,
{
    let s = fill_net(snapshot, net);
    SnapshotPayload {
        snapshot: overlay(s, live, any_inflight, ever_saw),
        rollout_dir,
        mode: mode.as_str().to_owned(),
        float_style: style.as_str().to_owned(),
        guard,
    }
}

/// Tests whether the speed that is shown counts for the round: a call streams, and the speed is
/// not zero. `measured_moves` says so of a speed that was measured.
pub fn speed_counts<T>(s: &Snapshot<T>, measured_moves: bool) -> (r: bool)
    ensures
        r == (s.is_live && match s.current_tps {
            Speed::Rated(rate) => !rate.is_zero(),
            Speed::Measured(_) => measured_moves,
        }),
{
    s.is_live && match &s.current_tps {
        Speed::Rated(rate) => !rate.zero(),
        Speed::Measured(_) => measured_moves,
    }
}

/// A round: the time during which calls run without a break.
#[derive(Clone, Copy, Debug, PartialEq, Eq, Structural)]
pub struct RoundTracker {
    /// Measured speeds in the round.
    pub n: u32,
    /// More than one process was measured in the round.
    pub saw_multi: bool,
    pub was_inflight: bool,
}

/// What a tick means for the round.
#[derive(Clone, Copy, Debug, PartialEq, Eq, Structural)]
pub struct RoundStep {
    /// The speed of the tick counts for the round.
    pub counts: bool,
    /// The round is over.
    pub ended: bool,
    /// So many speeds make up the average of the round, where it says something about the
    /// measurement: speeds were measured, none of them on more than one process.
    pub settled: Option<u32>,
}

/// The round after a tick, and what the tick means for it.
pub open spec fn round_after(
    t: RoundTracker,
    now_inflight: bool,
    measured: bool,
    n_pids: usize,
) -> (RoundTracker, RoundStep) {
    let n = if measured {
        (t.n + 1) as u32
    } else {
        t.n
    };
    let multi = t.saw_multi || measured && n_pids > 1;
    let ended = t.was_inflight && !now_inflight;
    (
        RoundTracker {
            n: if ended {
                0
            } else {
                n
            },
            saw_multi: !ended && multi,
            was_inflight: now_inflight,
        },
        RoundStep {
            counts: measured,
            ended,
            settled: if ended && n > 0 && !multi {
                Some(n)
            } else {
                None
            },
        },
    )
}

impl RoundTracker {
    /// No round yet.
    pub fn new() -> (r: Self)
        ensures
            r == (RoundTracker { n: 0, saw_multi: false, was_inflight: false }),
    {
        RoundTracker { n: 0, saw_multi: false, was_inflight: false }
    }

    /// Takes in a tick: whether calls run, whether a speed was measured, and on how many
    /// processes.
    pub fn step(&mut self, now_inflight: bool, measured: bool, n_pids: usize) -> (r: RoundStep)
        requires
            old(self).n < u32::MAX,
        ensures
            (*final(self), r) == round_after(*old(self), now_inflight, measured, n_pids),
    {
        let was = self.was_inflight;
        self.was_inflight = now_inflight;
        if measured {
            self.n = self.n + 1;
            if n_pids > 1 {
                self.saw_multi = true;
            }
        }
        let ended = was && !now_inflight;
        let mut settled: Option<u32> = None;
        if ended {
            if self.n > 0 && !self.saw_multi {
                settled = Some(self.n);
            }
            self.n = 0;
            self.saw_multi = false;
        }
        RoundStep { counts: measured, ended, settled }
    }
}

/// The log is written every half minute even when nothing happens.
pub const HEARTBEAT_NS: u64 = 30_000_000_000;

/// Tests whether a tick is to be logged: something is shown, or it is time.
pub fn tick_logged(active: bool, last_ns: u64, mono_ns: u64) -> (r: bool)
    ensures
        r == (active || mono_ns - last_ns > HEARTBEAT_NS),
{
    active || mono_ns > last_ns && mono_ns - last_ns > HEARTBEAT_NS
}

/// Tests whether the panel shows a call.
pub fn is_active<T>(s: &Snapshot<T>) -> (r: bool)
    ensures
        r == (s.is_live || s.is_estimating || s.is_starting),
{
    s.is_live || s.is_estimating || s.is_starting
}

/// What was learned is forgotten after two weeks.
pub const CAL_STALE_MS: i64 = 1_209_600_000;

/// What can be done with the file that keeps what was learned.
#[derive(Clone, Copy, Debug, PartialEq, Eq, Structural)]
pub enum CalFile {
    /// It is no JSON document.
    Broken,
    /// It is too old.
    Stale,
    Usable,
}

/// What can be done with a document that keeps what was learned; one that bears no time is as old
/// as can be.
pub open spec fn cal_state_of(doc: Option<JsonView>, now_ms: i64) -> CalFile {
    match doc {
        Some(v) => if now_ms - match as_integer(member(v, "updated_ms"@)) {
            Some(t) => t as int,
            None => 0,
        } > CAL_STALE_MS {
            CalFile::Stale
        } else {
            CalFile::Usable
        },
        None => CalFile::Broken,
    }
}

/// Decides what can be done with a document that keeps what was learned.
pub fn cal_state_from(doc: &Option<Json>, now_ms: i64) -> (r: CalFile)
    ensures
        r == cal_state_of(
            match doc {
                Some(j) => Some(j@),
                None => None,
            },
            now_ms,
        ),
{
    match doc {
        Some(j) => {
            let updated: i64 = match integer_in(j.get("updated_ms")) {
                Some(t) => t,
                None => 0,
            };
            if now_ms as i128 - updated as i128 > CAL_STALE_MS as i128 {
                CalFile::Stale
            } else {
                CalFile::Usable
            }
        },
        None => CalFile::Broken,
    }
}

/// Decides what can be done with the text of the file that keeps what was learned.
pub fn cal_file_state(text: &str, now_ms: i64) -> (r: CalFile)
    ensures
        r == cal_state_of(json_of(text@), now_ms),
{
    let doc = parse(text);
    cal_state_from(&doc, now_ms)
}

/// While a call streams, the panel shows the speed that was measured and the processes that stream,
/// beside all that finished calls tell. Only where less than a token in a second was measured, and
/// recent calls tell a speed, is their speed shown instead.
pub proof fn lemma_measured_speed_is_shown<T>(
    r: Snapshot<T>,
    s: Snapshot<T>,
    live: LiveReading<T>,
    any_inflight: bool,
    ever_saw: bool,
)
    requires
        is_overlaid(r, s, shown(s, live, any_inflight, ever_saw), live.tasks@),
        live.available,
        live.streaming,
        !live.awaiting,
    ensures
        r.is_live,
        !r.is_starting,
        r.ramping == live.ramping,
        !live.slow || s.window_tps.tokens == 0 || s.window_tps.ms <= 0 ==> {
            &&& r.current_tps == Speed::<T>::Measured(live.tps)
            &&& !r.is_estimating
            &&& r.live_source == LiveSource::Io
            &&& r.tasks@.len() == live.tasks@.len()
            &&& forall|i: int|
                0 <= i < r.tasks@.len() ==> {
                    let (a, b) = (#[trigger] r.tasks@[i], live.tasks@[i]);
                    &&& a.pid == b.pid
                    &&& a.tps == b.tps
                    &&& a.streaming == b.streaming
                    &&& a.n_sessions == b.n_sessions
                    &&& b.session matches Some(name) ==> a.session@ == name@
                    &&& b.session is None ==> a.session@.len() == 0
                }
        },
        live.slow && s.window_tps.tokens > 0 && s.window_tps.ms > 0 ==> {
            &&& r.current_tps == Speed::<T>::Rated(s.window_tps)
            &&& r.is_estimating
            &&& r.live_source == LiveSource::Window
            &&& r.tasks@.len() == 0
        },
{
    if !live.slow || s.window_tps.tokens == 0 || s.window_tps.ms <= 0 {
        assert forall|i: int| 0 <= i < r.tasks@.len() implies {
            let (a, b) = (#[trigger] r.tasks@[i], live.tasks@[i]);
            &&& a.pid == b.pid
            &&& a.tps == b.tps
            &&& a.streaming == b.streaming
            &&& a.n_sessions == b.n_sessions
            &&& b.session matches Some(name) ==> a.session@ == name@
            &&& b.session is None ==> a.session@.len() == 0
        } by {
            assert(is_task(r.tasks@[i], live.tasks@[i]));
        }
    }
}

/// From the beginning of a call to its first token the panel shows that a call has begun, and no
/// speed.
pub proof fn lemma_beginning_is_shown<T>(
    r: Snapshot<T>,
    s: Snapshot<T>,
    live: LiveReading<T>,
    any_inflight: bool,
    ever_saw: bool,
)
    requires
        is_overlaid(r, s, shown(s, live, any_inflight, ever_saw), live.tasks@),
        live.available,
        live.streaming,
        live.awaiting,
    ensures
        r.is_starting,
        r.is_live,
        !r.is_estimating,
        r.current_tps == Speed::<T>::Rated(Rate { tokens: 0, ms: 0 }),
        r.live_source == LiveSource::Io,
        r.tasks@.len() == 0,
{
}

/// Where a call runs and nothing was ever there to be measured, the speed of recent calls goes on
/// being shown; without one the panel shows that a call has begun.
pub proof fn lemma_recent_speed_stands_in<T>(
    r: Snapshot<T>,
    s: Snapshot<T>,
    live: LiveReading<T>,
    any_inflight: bool,
    ever_saw: bool,
)
    requires
        is_overlaid(r, s, shown(s, live, any_inflight, ever_saw), live.tasks@),
        !live.available,
        any_inflight,
        !ever_saw,
    ensures
        ({
            let goes_on = s.is_estimating && (s.current_tps matches Speed::Rated(rate) && rate.tokens
                > 0 && rate.ms > 0);
            &&& goes_on ==> r.current_tps == s.current_tps && r.is_estimating && r.spark@ == s.spark@
                && r.is_starting == s.is_starting
            &&& !goes_on ==> r.current_tps == Speed::<T>::Rated(Rate { tokens: 0, ms: 0 })
                && r.is_starting && !r.is_estimating
        }),
        r.tasks@.len() == 0,
{
}

/// Where no call runs, nothing is shown: no speed, no estimate and no task, and the curve ends at
/// zero.
pub proof fn lemma_idle_panel_shows_nothing<T>(
    r: Snapshot<T>,
    s: Snapshot<T>,
    live: LiveReading<T>,
    any_inflight: bool,
    ever_saw: bool,
)
    requires
        is_overlaid(r, s, shown(s, live, any_inflight, ever_saw), live.tasks@),
        live.available ==> !live.streaming,
        !live.available ==> !any_inflight || ever_saw,
    ensures
        r.current_tps == Speed::<T>::Rated(Rate { tokens: 0, ms: 0 }),
        !r.is_estimating,
        !r.ramping,
        r.live_source == LiveSource::Idle,
        r.tasks@.len() == 0,
        !live.available ==> !r.is_live,
        s.spark@.len() > 0 ==> r.spark@.last() == Speed::<T>::Rated(Rate { tokens: 0, ms: 0 }),
{
}

/// What is measured changes what is shown of the speed, and the newest slot of the curve at most:
/// all sums and averages, the rest of the curve, and what is shown of the network stay as they are.
pub proof fn lemma_measuring_changes_no_sum<T>(
    r: Snapshot<T>,
    s: Snapshot<T>,
    live: LiveReading<T>,
    any_inflight: bool,
    ever_saw: bool,
)
    requires
        is_overlaid(r, s, shown(s, live, any_inflight, ever_saw), live.tasks@),
    ensures
        r.total_tokens == s.total_tokens,
        r.output_tokens == s.output_tokens,
        r.reasoning_tokens == s.reasoning_tokens,
        r.input_tokens == s.input_tokens,
        r.cache_creation_tokens == s.cache_creation_tokens,
        r.cache_read_tokens == s.cache_read_tokens,
        r.calls_today == s.calls_today,
        r.sessions_today == s.sessions_today,
        r.avg_tps == s.avg_tps,
        r.window_tps == s.window_tps,
        r.last_call_tps == s.last_call_tps,
        r.hist_max_tps == s.hist_max_tps,
        r.hist_avg_tps == s.hist_avg_tps,
        r.last_activity_ms == s.last_activity_ms,
        r.net_up_bps == s.net_up_bps,
        r.net_down_bps == s.net_down_bps,
        r.net_up_today == s.net_up_today,
        r.net_down_today == s.net_down_today,
        r.net_ckpt_uploading == s.net_ckpt_uploading,
        r.spark@.len() == s.spark@.len(),
        forall|k: int| 0 <= k < s.spark@.len() - 1 ==> #[trigger] r.spark@[k] == s.spark@[k],
        live.available && s.spark@.len() > 0 ==> r.spark@.last() == r.current_tps,
{
}

/// The panel shows what the monitor shows, each number for what it is, and no number of the calls
/// changes by it.
pub proof fn lemma_monitor_is_filled_in<T>(s: Snapshot<T>, net: NetNow)
    ensures
        ({
            let r = filled(s, net);
            &&& r.net_available == net.available
            &&& r.net_up_bps == net.up_bps
            &&& r.net_down_bps == net.down_bps
            &&& r.net_up_today == net.up_today
            &&& r.net_down_today == net.down_today
            &&& r.net_ckpt_today == net.ckpt_today_bytes
            &&& r.net_ckpt_today_count == net.ckpt_today_count
            &&& r.net_ckpt_today_list == net.ckpt_today_list
            &&& r.net_ckpt_uploading == net.ckpt_uploading
            &&& r.net_ckpt_status == net.ckpt_status
            &&& r.net_ckpt_list == net.ckpt_list
            &&& r.net_conns_available == net.conns_available
            &&& r.net_cli_conns == net.cli_conns
            &&& r.net_app_conns == net.app_conns
            &&& r.net_cli_conn_list == net.cli_conn_list
            &&& r.net_app_conn_list == net.app_conn_list
            &&& r.current_tps == s.current_tps
            &&& r.window_tps == s.window_tps
            &&& r.total_tokens == s.total_tokens
            &&& r.spark == s.spark
        }),
{
}

/// The traffic of the sessions is estimated by their tokens: five bytes sent for each that was asked
/// or put into the cache but not read from it, and four hundred received for each that was answered
/// or reasoned.
pub proof fn lemma_sessions_are_estimated<T>(s: Snapshot<T>, net: NetNow)
    requires
        s.input_tokens + s.cache_creation_tokens < 0x100_0000_0000,
        s.output_tokens + s.reasoning_tokens < 0x100_0000_0000,
    ensures
        s.input_tokens + s.cache_creation_tokens >= s.cache_read_tokens ==> filled(
            s,
            net,
        ).net_sess_up_today == 5 * (s.input_tokens + s.cache_creation_tokens - s.cache_read_tokens),
        s.input_tokens + s.cache_creation_tokens < s.cache_read_tokens ==> filled(
            s,
            net,
        ).net_sess_up_today == 0,
        filled(s, net).net_sess_down_today == 400 * (s.output_tokens + s.reasoning_tokens),
{
    lemma_bytes_for_each_token(
        uncached(s.input_tokens, s.cache_creation_tokens, s.cache_read_tokens),
    );
    lemma_bytes_for_each_token((s.output_tokens + s.reasoning_tokens) as u64);
}

/// A tick of a round: whether calls run, whether a speed was measured, and on how many processes.
pub type RoundTick = (bool, bool, usize);

/// The round after some ticks.
pub open spec fn round_over(ticks: Seq<RoundTick>) -> RoundTracker
    decreases ticks.len(),
{
    if ticks.len() == 0 {
        RoundTracker { n: 0, saw_multi: false, was_inflight: false }
    } else {
        let (now_inflight, measured, n_pids) = ticks.last();
        round_after(round_over(ticks.drop_last()), now_inflight, measured, n_pids).0
    }
}

/// The ticks at which a speed was measured.
pub open spec fn by_measured() -> spec_fn(RoundTick) -> int {
    |t: RoundTick|
        if t.1 {
            1
        } else {
            0
        }
}

proof fn lemma_round_goes_on(ticks: Seq<RoundTick>)
    requires
        0 < ticks.len() < u32::MAX,
        forall|i: int| 0 <= i < ticks.len() ==> (#[trigger] ticks[i]).0,
    ensures
        ({
            let t = round_over(ticks);
            &&& t.n == sum_of(ticks, by_measured())
            &&& t.n <= ticks.len()
            &&& t.saw_multi == exists|i: int|
                0 <= i < ticks.len() && (#[trigger] ticks[i]).1 && ticks[i].2 > 1
            &&& t.was_inflight
        }),
    decreases ticks.len(),
{
    let before = ticks.drop_last();
    let last = ticks[ticks.len() - 1];
    assert(last.0);
    if before.len() > 0 {
        assert forall|i: int| 0 <= i < before.len() implies (#[trigger] before[i]).0 by {
            assert(before[i] == ticks[i]);
        }
        lemma_round_goes_on(before);
        if exists|i: int| 0 <= i < before.len() && (#[trigger] before[i]).1 && before[i].2 > 1 {
            let i = choose|i: int|
                0 <= i < before.len() && (#[trigger] before[i]).1 && before[i].2 > 1;
            assert(ticks[i] == before[i]);
        }
    } else {
        assert(round_over(before) == (RoundTracker { n: 0, saw_multi: false, was_inflight: false }));
        assert(sum_of(before, by_measured()) == 0);
    }
    if exists|i: int| 0 <= i < ticks.len() && (#[trigger] ticks[i]).1 && ticks[i].2 > 1 {
        let i = choose|i: int| 0 <= i < ticks.len() && (#[trigger] ticks[i]).1 && ticks[i].2 > 1;
        if i < before.len() {
            assert(before[i] == ticks[i]);
        }
    }
}

/// A round lasts as long as calls run. When none runs any more it is over, and says something about
/// the measurement where a speed was measured in it, and never on more than one process: then it
/// tells how many speeds that were. The next round begins with nothing.
pub proof fn lemma_round_ends_with_the_calls(ticks: Seq<RoundTick>, last: RoundTick)
    requires
        0 < ticks.len() < u32::MAX - 1,
        forall|i: int| 0 <= i < ticks.len() ==> (#[trigger] ticks[i]).0,
    ensures
        ({
            let (after, step) = round_after(round_over(ticks), last.0, last.1, last.2);
            let all = ticks.push(last);
            let several = exists|i: int|
                0 <= i < all.len() && (#[trigger] all[i]).1 && all[i].2 > 1;
            let n = sum_of(all, by_measured());
            &&& step.ended == !last.0
            &&& step.counts == last.1
            &&& last.0 ==> step.settled is None
            &&& !last.0 && n > 0 && !several ==> step.settled == Some(n as u32)
            &&& !last.0 && (n == 0 || several) ==> step.settled is None
            &&& !last.0 ==> after == (RoundTracker { n: 0, saw_multi: false, was_inflight: false })
        }),
{
    lemma_round_goes_on(ticks);
    lemma_sum_push(ticks, last, by_measured());
    let all = ticks.push(last);
    if round_over(ticks).saw_multi {
        let i = choose|i: int| 0 <= i < ticks.len() && (#[trigger] ticks[i]).1 && ticks[i].2 > 1;
        assert(all[i] == ticks[i]);
    }
    assert(all[ticks.len() as int] == last);
    if exists|i: int| 0 <= i < all.len() && (#[trigger] all[i]).1 && all[i].2 > 1 {
        let i = choose|i: int| 0 <= i < all.len() && (#[trigger] all[i]).1 && all[i].2 > 1;
        if i < ticks.len() {
            assert(ticks[i] == all[i]);
        }
    }
}

/// What was learned can be used for fourteen days, and is forgotten after that; what bears no time
/// is too old, and what is no document cannot be used at all.
pub proof fn lemma_learned_is_kept_for_two_weeks(v: JsonView, now_ms: i64)
    ensures
        cal_state_of(None, now_ms) == CalFile::Broken,
        as_integer(member(v, "updated_ms"@)) matches Some(t) ==> {
            &&& now_ms - t <= 14 * 24 * 3_600_000 ==> cal_state_of(Some(v), now_ms)
                == CalFile::Usable
            &&& now_ms - t > 14 * 24 * 3_600_000 ==> cal_state_of(Some(v), now_ms) == CalFile::Stale
        },
        as_integer(member(v, "updated_ms"@)) is None && now_ms > 14 * 24 * 3_600_000
            ==> cal_state_of(Some(v), now_ms) == CalFile::Stale,
{
}

/// What was sent to sessions is what they asked and put into the cache, without what was read from
/// it; a sum that is too large counts as the largest that can be held.
pub proof fn lemma_cached_is_not_sent(input: u64, cache_creation: u64, cache_read: u64)
    ensures
        cache_read <= input + cache_creation <= u64::MAX ==> uncached(
            input,
            cache_creation,
            cache_read,
        ) + cache_read == input + cache_creation,
        input + cache_creation <= cache_read ==> uncached(input, cache_creation, cache_read) == 0,
        input + cache_creation > u64::MAX ==> uncached(input, cache_creation, cache_read) + cache_read
            == u64::MAX,
{
}

/// What a look at the processes cannot tell stays as it was: whether calls are live and whether one
/// begins, where nothing streams; and what the calls said, where nothing can be measured yet.
pub proof fn lemma_rest_stays_as_it_was<T>(
    r: Snapshot<T>,
    s: Snapshot<T>,
    live: LiveReading<T>,
    any_inflight: bool,
    ever_saw: bool,
)
    requires
        is_overlaid(r, s, shown(s, live, any_inflight, ever_saw), live.tasks@),
    ensures
        live.available && !live.streaming ==> r.is_live == s.is_live && r.is_starting
            == s.is_starting,
        !live.available && (!any_inflight || ever_saw) ==> r.is_starting == s.is_starting,
        !live.available && any_inflight && !ever_saw ==> r.is_live == s.is_live && r.ramping
            == s.ramping,
        !live.available && any_inflight && !ever_saw && r.is_estimating ==> r.live_source
            == s.live_source,
        !live.available && any_inflight && !ever_saw && !r.is_estimating ==> r.live_source
            == LiveSource::Window && (s.spark@.len() > 0 ==> r.spark@.last() == Speed::<T>::Rated(
            Rate { tokens: 0, ms: 0 },
        )),
        live.available && live.streaming ==> r.ramping == live.ramping,
{
}

/// What was learned without a time is as old as time itself.
pub proof fn lemma_learned_without_a_time(v: JsonView, now_ms: i64)
    requires
        as_integer(member(v, "updated_ms"@)) is None,
    ensures
        now_ms <= 14 * 24 * 3_600_000 ==> cal_state_of(Some(v), now_ms) == CalFile::Usable,
        now_ms > 14 * 24 * 3_600_000 ==> cal_state_of(Some(v), now_ms) == CalFile::Stale,
{
}

/// A round ends only where calls ran until then: without any there is nothing to end, and nothing to
/// learn from.
pub proof fn lemma_no_round_ends_without_calls(
    t: RoundTracker,
    now_inflight: bool,
    measured: bool,
    n_pids: usize,
)
    requires
        t.n < u32::MAX,
    ensures
        ({
            let (after, step) = round_after(t, now_inflight, measured, n_pids);
            &&& !t.was_inflight ==> !step.ended && step.settled is None
            &&& now_inflight ==> !step.ended && step.settled is None
            &&& t.was_inflight && !now_inflight ==> step.ended
            &&& after.was_inflight == now_inflight
            &&& step.counts == measured
            &&& !step.ended && measured ==> after.n == t.n + 1
            &&& !step.ended && !measured ==> after.n == t.n
            &&& !step.ended && t.saw_multi ==> after.saw_multi
            &&& !step.ended && measured && n_pids > 1 ==> after.saw_multi
            &&& !t.saw_multi && !(measured && n_pids > 1) ==> !after.saw_multi
        }),
{
}

} // verus!
