//! The network monitor: what it holds from tick to tick, and what it shows.

use vstd::prelude::*;
use vstd::std_specs::hash::group_hash_axioms;
use std::collections::HashMap;
use crate::ckpt::{
    all_changes, any_uploading, apply_ckpt_obs, are_rows, changes, ckpt_rows, each_once,
    event_views, lemma_look_leaves_what_was_observed, lookup, observed, scan_ckpt_states, CkptEvent,
    CkptEventView, CkptListing, CkptStateView, CkptTable,
};
use crate::json::{
    as_integer, as_list, as_natural, as_text, depth_limit, integer_in, items_of, json_of,
    lemma_items, lemma_push_item, member, names_differ, natural_in, parse, put_member, text_in,
    to_text, value_of, writable, Json, JsonView,
};
use crate::metrics::{copy_rows, no_rate, row_views, CkptStat, CkptStatView, ConnStat, Rate};
use crate::netio::{
    comparable, day_text, delta, lemma_counter_is_followed, lemma_days_are_told_apart, signed,
    wrap_delta, ymd_str, MAX_DELTA,
};
use crate::platform::{
    are_conns, belongs, by_pid, complete_tables, conn_views, group_of, iface_views,
    ifaces_in_addresses, ifaces_in_table, ifaces_of, labels,
    lemma_established_connections_are_listed, lemma_processes_are_parted, net_ifaces, pid_table,
    port_of, short_address, zcode_conns, zcode_pid_groups, COUNTER_WRAP_32, Conn, Counters,
    IfaceRow, ProcRow, TcpTables,
};
use crate::sums::sum_of;
use crate::text::decimal;

verus! {

/// The speed on display is that of the last second.
pub const NET_WINDOW_MS: i64 = 1_000;

/// So many samples are kept.
pub const NET_RING_CAP: usize = 400;

/// So many accepted checkpoints of the day are kept by name.
pub const UPLOADS_CAP: usize = 100;

/// Processes are looked for every five seconds.
pub const PROC_REFRESH_NS: u64 = 5_000_000_000;

/// Checkpoints are looked for every two seconds.
pub const CKPT_SCAN_NS: u64 = 2_000_000_000;

/// The sums of the day are saved every half minute.
pub const NET_SAVE_NS: u64 = 30_000_000_000;

/// Something to note in the log.
#[derive(Debug, PartialEq)]
pub enum NetEvent {
    Accepted { ws: String, bytes: u64, backfill: bool },
    UploadStart { ws: String, bytes: u64 },
    UploadEnd { ws: String },
}

/// What a [`NetEvent`] holds.
pub ghost enum NetEventView {
    Accepted { ws: Seq<char>, bytes: u64, backfill: bool },
    UploadStart { ws: Seq<char>, bytes: u64 },
    UploadEnd { ws: Seq<char> },
}

impl View for NetEvent {
    type V = NetEventView;

    open spec fn view(&self) -> NetEventView {
        match self {
            NetEvent::Accepted { ws, bytes, backfill } => NetEventView::Accepted {
                ws: ws@,
                bytes: *bytes,
                backfill: *backfill,
            },
            NetEvent::UploadStart { ws, bytes } => NetEventView::UploadStart {
                ws: ws@,
                bytes: *bytes,
            },
            NetEvent::UploadEnd { ws } => NetEventView::UploadEnd { ws: ws@ },
        }
    }
}

/// What a list of notes holds.
pub open spec fn note_views(events: Seq<NetEvent>) -> Seq<NetEventView> {
    events.map_values(|e: NetEvent| e@)
}

/// What the system told since the last tick.
#[derive(Debug)]
pub struct TickInput {
    pub today: (i32, u32, u32),
    pub day_start_ms: i64,
    pub now_ms: i64,
    /// A clock that never goes back.
    pub mono_ns: u64,
    pub counters: Counters,
    /// The processes; they matter only when they are due.
    pub procs: Vec<ProcRow>,
    /// The connections, where the system gives them.
    pub tables: Option<TcpTables>,
    /// The checkpoints; they matter only when they are due.
    pub listing: CkptListing,
}

/// What the monitor shows.
#[derive(Debug, PartialEq)]
pub struct NetNow {
    pub available: bool,
    pub up_bps: Rate,
    pub down_bps: Rate,
    pub up_today: u64,
    pub down_today: u64,
    pub conns_available: bool,
    pub cli_conns: u32,
    pub app_conns: u32,
    pub cli_conn_list: Vec<ConnStat>,
    pub app_conn_list: Vec<ConnStat>,
    pub ckpt_status: String,
    pub ckpt_uploading: bool,
    pub ckpt_today_bytes: u64,
    pub ckpt_today_count: u32,
    pub ckpt_today_list: Vec<CkptStat>,
    pub ckpt_list: Vec<CkptStat>,
}

/// It is time again: more than `every` has passed, or it is the first time.
pub open spec fn due(last: Option<u64>, now: u64, every: u64) -> bool {
    match last {
        Some(t) => now - t > every,
        None => true,
    }
}

/// Where the counters start over.
pub open spec fn wrap_of(c: Counters) -> u64 {
    match c {
        Counters::Table(_) => COUNTER_WRAP_32,
        _ => 0,
    }
}

/// What an interface had sent and received at the last look.
pub open spec fn last_counts(ifaces: Seq<(Seq<char>, u64, u64)>, name: Seq<char>) -> Option<
    (u64, u64),
>
    decreases ifaces.len(),
{
    if ifaces.len() == 0 {
        None
    } else if ifaces.last().0 == name {
        Some((ifaces.last().1, ifaces.last().2))
    } else {
        last_counts(ifaces.drop_last(), name)
    }
}

/// What an interface sent and received since the last look; nothing where it is new.
pub open spec fn traffic_of(
    ifaces: Seq<(Seq<char>, u64, u64)>,
    row: (Seq<char>, u64, u64),
    wrap: u64,
) -> (int, int) {
    match last_counts(ifaces, row.0) {
        Some((up, down)) => (delta(row.1, up, wrap), delta(row.2, down, wrap)),
        None => (0, 0),
    }
}

/// What all interfaces sent and received since the last look.
pub open spec fn traffic(
    ifaces: Seq<(Seq<char>, u64, u64)>,
    rows: Seq<(Seq<char>, u64, u64)>,
    wrap: u64,
) -> (int, int)
    decreases rows.len(),
{
    if rows.len() == 0 {
        (0, 0)
    } else {
        let before = traffic(ifaces, rows.drop_last(), wrap);
        let last = traffic_of(ifaces, rows.last(), wrap);
        (before.0 + last.0, before.1 + last.1)
    }
}

/// All counters can be compared with those of the last look.
pub open spec fn all_comparable(
    ifaces: Seq<(Seq<char>, u64, u64)>,
    rows: Seq<(Seq<char>, u64, u64)>,
    wrap: u64,
) -> bool {
    forall|i: int|
        0 <= i < rows.len() ==> (last_counts(ifaces, (#[trigger] rows[i]).0) matches Some(c)
            ==> comparable(rows[i].1, c.0, wrap) && comparable(rows[i].2, c.1, wrap))
}

/// The last `n`, or all where there are fewer.
pub open spec fn last_n<A>(s: Seq<A>, n: int) -> Seq<A> {
    if s.len() > n {
        s.skip(s.len() - n)
    } else {
        s
    }
}

/// The first sample from `i` on that is no older than `from`.
pub open spec fn first_since(ring: Seq<(i64, u64, u64)>, from: int, i: int) -> Option<
    (i64, u64, u64),
>
    decreases ring.len() - i,
{
    if i < 0 || i >= ring.len() {
        None
    } else if ring[i].0 >= from {
        Some(ring[i])
    } else {
        first_since(ring, from, i + 1)
    }
}

/// The difference, or zero.
pub open spec fn less(a: u64, b: u64) -> u64 {
    if a >= b {
        (a - b) as u64
    } else {
        0
    }
}

/// Bytes sent and received in the last second, by the milliseconds between the samples.
pub open spec fn speeds(ring: Seq<(i64, u64, u64)>, now: i64) -> (Rate, Rate) {
    if ring.len() > 0 && ring.last().0 > ring[0].0 {
        let (t1, u1, d1) = ring.last();
        let (bt, bu, bd) = match first_since(ring, now - NET_WINDOW_MS, 0) {
            Some(s) => s,
            None => (ring[0].0, u1, d1),
        };
        let ms = if t1 - bt < 1 {
            1
        } else {
            t1 - bt
        };
        (
            Rate { tokens: less(u1, bu), ms: ms as i64 },
            Rate { tokens: less(d1, bd), ms: ms as i64 },
        )
    } else {
        (no_rate(), no_rate())
    }
}

/// A name, or a question mark where there is none.
pub open spec fn or_question(ws: Seq<char>) -> Seq<char> {
    if ws.len() == 0 {
        "?"@
    } else {
        ws
    }
}

/// The row of an accepted checkpoint.
pub open spec fn upload_row(e: CkptEventView) -> CkptStatView {
    CkptStatView {
        workspace: e.workspace,
        bytes: e.bytes,
        recorded_ms: e.recorded_ms,
        accepted: true,
        uploading: false,
        hash: None,
    }
}

/// What a [`NetIo`] holds.
#[verifier::ext_equal]
pub ghost struct NetView {
    pub ring: Seq<(i64, u64, u64)>,
    pub ifaces: Seq<(Seq<char>, u64, u64)>,
    pub acc_up: int,
    pub acc_down: int,
    pub today: (i32, u32, u32),
    pub up_today: int,
    pub down_today: int,
    pub ckpt_bytes: int,
    pub ckpt_count: int,
    pub uploads: Seq<CkptStatView>,
    pub cli: Map<u32, Seq<char>>,
    pub app: Map<u32, Seq<char>>,
    pub proc_refresh: Option<u64>,
    pub ckpt_scan: Option<u64>,
    pub states: Map<Seq<char>, CkptStateView>,
    pub status: Seq<char>,
    pub uploading: bool,
    pub last_save: Option<u64>,
    pub dirty: bool,
    pub pending: Seq<NetEventView>,
}

impl NetView {
    /// All sums can be held in their fields.
    pub open spec fn fits(self) -> bool {
        &&& self.acc_up <= u64::MAX
        &&& self.acc_down <= u64::MAX
        &&& self.up_today <= u64::MAX
        &&& self.down_today <= u64::MAX
        &&& self.ckpt_bytes <= u64::MAX
        &&& self.ckpt_count <= u32::MAX
    }

    /// On another day the sums of the day start over.
    pub open spec fn on(self, today: (i32, u32, u32)) -> NetView {
        if today == self.today {
            self
        } else {
            NetView {
                today,
                up_today: 0,
                down_today: 0,
                ckpt_bytes: 0,
                ckpt_count: 0,
                uploads: Seq::empty(),
                dirty: true,
                ..self
            }
        }
    }

    /// The counters are read.
    pub open spec fn counted(self, counters: Counters, now: i64) -> NetView {
        match ifaces_of(counters) {
            None => self,
            Some(rows) => {
                let (du, dd) = traffic(self.ifaces, rows, wrap_of(counters));
                let (up, down) = (self.acc_up + du, self.acc_down + dd);
                NetView {
                    ring: last_n(
                        self.ring.push((now, up as u64, down as u64)),
                        NET_RING_CAP as int,
                    ),
                    ifaces: rows,
                    acc_up: up,
                    acc_down: down,
                    up_today: self.up_today + du,
                    down_today: self.down_today + dd,
                    dirty: self.dirty || du > 0 || dd > 0,
                    ..self
                }
            },
        }
    }

    /// The processes are looked for, when they are due.
    pub open spec fn refreshed(self, procs: Seq<ProcRow>, mono: u64) -> NetView {
        if due(self.proc_refresh, mono, PROC_REFRESH_NS) {
            NetView {
                cli: by_pid(group_of(procs, true)),
                app: by_pid(group_of(procs, false)),
                proc_refresh: Some(mono),
                ..self
            }
        } else {
            self
        }
    }

    /// One change is taken in: an accepted checkpoint counts for the day, and everything is noted.
    pub open spec fn noted(self, e: CkptEventView, backfill: bool) -> NetView {
        let ws = or_question(e.workspace);
        if e.kind == "accepted"@ {
            NetView {
                ckpt_bytes: self.ckpt_bytes + e.bytes,
                ckpt_count: self.ckpt_count + 1,
                uploads: last_n(self.uploads.push(upload_row(e)), UPLOADS_CAP as int),
                dirty: true,
                pending: self.pending.push(
                    NetEventView::Accepted { ws, bytes: e.bytes, backfill },
                ),
                ..self
            }
        } else if e.kind == "upload_start"@ {
            NetView {
                pending: self.pending.push(NetEventView::UploadStart { ws, bytes: e.bytes }),
                ..self
            }
        } else {
            NetView { pending: self.pending.push(NetEventView::UploadEnd { ws }), ..self }
        }
    }

    /// Some changes are taken in.
    pub open spec fn all_noted(self, events: Seq<CkptEventView>, backfill: bool) -> NetView
        decreases events.len(),
    {
        if events.len() == 0 {
            self
        } else {
            self.all_noted(events.drop_last(), backfill).noted(events.last(), backfill)
        }
    }

    /// The checkpoints are looked for, when they are due.
    pub open spec fn scanned(self, listing: CkptListing, day_start: i64, mono: u64) -> NetView {
        if due(self.ckpt_scan, mono, CKPT_SCAN_NS) {
            let states = observed(self.states, listing.obs());
            NetView {
                ckpt_scan: Some(mono),
                status: listing.status(),
                states,
                uploading: exists|k: Seq<char>| #[trigger]
                    states.dom().contains(k) && states[k].uploading,
                ..self
            }.all_noted(all_changes(self.states, listing.obs(), day_start, false), false)
        } else {
            self
        }
    }

    /// There is something to save, and it is time.
    pub open spec fn save_due(self, force: bool, mono: u64) -> bool {
        (force || due(self.last_save, mono, NET_SAVE_NS)) && self.dirty
    }

    /// The sums of the day are saved, when that is due.
    pub open spec fn saved(self, force: bool, mono: u64) -> NetView {
        if self.save_due(force, mono) {
            NetView { last_save: Some(mono), dirty: false, ..self }
        } else {
            self
        }
    }

    /// A tick up to where the sums of the day are saved.
    pub open spec fn told(self, input: TickInput) -> NetView {
        self.on(input.today).counted(input.counters, input.now_ms).refreshed(
            input.procs@,
            input.mono_ns,
        ).scanned(input.listing, input.day_start_ms, input.mono_ns)
    }

    /// A tick.
    pub open spec fn ticked(self, input: TickInput) -> NetView {
        self.told(input).saved(false, input.mono_ns)
    }
}

/// The connections of a list.
pub open spec fn stat_conns(list: Seq<ConnStat>) -> Seq<(Seq<char>, u32)> {
    list.map_values(|c: ConnStat| (c.remote@, c.pid))
}

/// What a process is, or nothing where that is not known.
pub open spec fn label_in(m: Map<u32, Seq<char>>, pid: u32) -> Seq<char> {
    if m.dom().contains(pid) {
        m[pid]
    } else {
        Seq::empty()
    }
}

/// The list shows the established connections of some processes, with what each process is.
pub open spec fn shows_conns(
    list: Seq<ConnStat>,
    tables: Option<TcpTables>,
    pids: Set<u32>,
    m: Map<u32, Seq<char>>,
) -> bool {
    match tables {
        None => list.len() == 0,
        Some(t) => {
            &&& are_conns(stat_conns(list), t, pids)
            &&& forall|i: int|
                0 <= i < list.len() ==> (#[trigger] list[i]).proc@ == label_in(m, list[i].pid)
        },
    }
}

/// What is shown after a tick.
pub open spec fn shows_net(now: NetNow, n: NetView, input: TickInput) -> bool {
    &&& now.available == ifaces_of(input.counters) is Some
    &&& (now.up_bps, now.down_bps) == speeds(n.ring, input.now_ms)
    &&& now.up_today == n.up_today
    &&& now.down_today == n.down_today
    &&& now.conns_available == input.tables is Some
    &&& shows_conns(now.cli_conn_list@, input.tables, n.cli.dom(), n.cli)
    &&& shows_conns(now.app_conn_list@, input.tables, n.app.dom().difference(n.cli.dom()), n.app)
    &&& now.cli_conns == now.cli_conn_list@.len() as u32
    &&& now.app_conns == now.app_conn_list@.len() as u32
    &&& now.ckpt_status@ == n.status
    &&& now.ckpt_uploading == n.uploading
    &&& now.ckpt_today_bytes == n.ckpt_bytes
    &&& now.ckpt_today_count == n.ckpt_count
    &&& row_views(now.ckpt_today_list@) == n.uploads
    &&& are_rows(now.ckpt_list@, n.states)
}

/// The network monitor.
pub struct NetIo {
    pub ring: Vec<(i64, u64, u64)>,
    pub ifaces: Vec<IfaceRow>,
    pub acc_up: u64,
    pub acc_down: u64,
    pub today_ymd: (i32, u32, u32),
    pub up_today: u64,
    pub down_today: u64,
    pub ckpt_today_bytes: u64,
    pub ckpt_today_count: u32,
    pub today_uploads: Vec<CkptStat>,
    pub cli_pids: HashMap<u32, String>,
    pub app_pids: HashMap<u32, String>,
    pub proc_refresh: Option<u64>,
    pub ckpt_scan: Option<u64>,
    pub ckpt_states: CkptTable,
    pub ckpt_status: String,
    pub ckpt_uploading: bool,
    pub last_save: Option<u64>,
    pub dirty: bool,
    pub pending_events: Vec<NetEvent>,
}

impl View for NetIo {
    type V = NetView;

    open spec fn view(&self) -> NetView {
        NetView {
            ring: self.ring@,
            ifaces: iface_views(self.ifaces@),
            acc_up: self.acc_up as int,
            acc_down: self.acc_down as int,
            today: self.today_ymd,
            up_today: self.up_today as int,
            down_today: self.down_today as int,
            ckpt_bytes: self.ckpt_today_bytes as int,
            ckpt_count: self.ckpt_today_count as int,
            uploads: row_views(self.today_uploads@),
            cli: labels(self.cli_pids@),
            app: labels(self.app_pids@),
            proc_refresh: self.proc_refresh,
            ckpt_scan: self.ckpt_scan,
            states: self.ckpt_states@,
            status: self.ckpt_status@,
            uploading: self.ckpt_uploading,
            last_save: self.last_save,
            dirty: self.dirty,
            pending: note_views(self.pending_events@),
        }
    }
}

/// The time from each sample until then can be held.
pub open spec fn times_fit(ring: Seq<(i64, u64, u64)>, at: i64) -> bool {
    forall|i: int|
        0 <= i < ring.len() ==> i64::MIN <= at - (#[trigger] ring[i]).0 <= i64::MAX
}

impl NetIo {
    /// Lists are not too long, the time from each sample to the last can be held, no workspace is
    /// there twice, and the uploads of the day are ones that were accepted.
    pub open spec fn wf(self) -> bool {
        &&& self.ring@.len() <= NET_RING_CAP
        &&& self.ring@.len() > 0 ==> times_fit(self.ring@, self.ring@.last().0)
        &&& self.ckpt_states.wf()
        &&& self.today_uploads@.len() <= UPLOADS_CAP
        &&& forall|i: int|
            0 <= i < self.today_uploads@.len() ==> {
                let u = #[trigger] self.today_uploads@[i];
                u.accepted && !u.uploading && u.hash is None
            }
    }
}

fn is_due(last: Option<u64>, now: u64, every: u64) -> (r: bool)
    ensures
        r == due(last, now, every),
{
    match last {
        Some(t) => now > t && now - t > every,
        None => true,
    }
}

fn find_counts(ifaces: &Vec<IfaceRow>, name: &String) -> (r: Option<(u64, u64)>)
    ensures
        r == last_counts(iface_views(ifaces@), name@),
{
    let ghost v = iface_views(ifaces@);
    let mut i: usize = ifaces.len();
    assert(v.take(i as int) =~= v);
    while i > 0
        invariant
            i <= ifaces.len(),
            v == iface_views(ifaces@),
            last_counts(v, name@) == last_counts(v.take(i as int), name@),
        decreases i,
    {
        assert(v.take(i as int).drop_last() =~= v.take(i - 1));
        assert(v.take(i as int).last() == v[i - 1]);
        let row = &ifaces[i - 1];
        if row.0 == *name {
            return Some((row.1, row.2));
        }
        i -= 1;
    }
    None
}

fn is_comparable(new: u64, old_count: u64, wrap: u64) -> (r: bool)
    ensures
        r == comparable(new, old_count, wrap),
{
    if wrap == 0 {
        return true;
    }
    let a: i128 = if new <= i64::MAX as u64 {
        new as i128
    } else {
        new as i128 - 0x1_0000_0000_0000_0000
    };
    let b: i128 = if old_count <= i64::MAX as u64 {
        old_count as i128
    } else {
        old_count as i128 - 0x1_0000_0000_0000_0000
    };
    let d: i128 = a - b;
    i64::MIN as i128 <= d && d <= i64::MAX as i128 && !(d == i64::MIN as i128 && wrap == u64::MAX)
}

proof fn lemma_delta(new: u64, old_count: u64, wrap: u64)
    ensures
        0 <= delta(new, old_count, wrap) < MAX_DELTA,
{
    if wrap > 0 {
        let (d, w) = (signed(new) - signed(old_count), signed(wrap));
        assert(0 <= d % w) by (nonlinear_arith)
            requires
                w != 0,
        ;
    }
}

proof fn lemma_traffic_grows(
    ifaces: Seq<(Seq<char>, u64, u64)>,
    rows: Seq<(Seq<char>, u64, u64)>,
    wrap: u64,
    n: int,
)
    requires
        0 <= n <= rows.len(),
    ensures
        0 <= traffic(ifaces, rows.take(n), wrap).0 <= traffic(ifaces, rows, wrap).0,
        0 <= traffic(ifaces, rows.take(n), wrap).1 <= traffic(ifaces, rows, wrap).1,
    decreases rows.len(),
{
    if rows.len() > 0 {
        let before = rows.drop_last();
        let last = rows.last();
        if let Some(c) = last_counts(ifaces, last.0) {
            lemma_delta(last.1, c.0, wrap);
            lemma_delta(last.2, c.1, wrap);
        }
        if n < rows.len() {
            lemma_traffic_grows(ifaces, before, wrap, n);
            assert(before.take(n) =~= rows.take(n));
        } else {
            lemma_traffic_grows(ifaces, before, wrap, n - 1);
            assert(rows.take(n) =~= rows);
        }
    } else {
        assert(rows.take(n) =~= rows);
    }
}

fn sum_traffic(ifaces: &Vec<IfaceRow>, rows: &Vec<IfaceRow>, wrap: u64) -> (r: Option<(u64, u64)>)
    ensures
        ({
            let t = traffic(iface_views(ifaces@), iface_views(rows@), wrap);
            match r {
                Some((up, down)) => {
                    &&& all_comparable(iface_views(ifaces@), iface_views(rows@), wrap)
                    &&& up == t.0
                    &&& down == t.1
                },
                None => {
                    ||| !all_comparable(iface_views(ifaces@), iface_views(rows@), wrap)
                    ||| t.0 > u64::MAX
                    ||| t.1 > u64::MAX
                },
            }
        }),
{
    let ghost (a, b) = (iface_views(ifaces@), iface_views(rows@));
    let mut up: u64 = 0;
    let mut down: u64 = 0;
    let mut i: usize = 0;
    while i < rows.len()
        invariant
            i <= rows.len(),
            a == iface_views(ifaces@),
            b == iface_views(rows@),
            up == traffic(a, b.take(i as int), wrap).0,
            down == traffic(a, b.take(i as int), wrap).1,
            forall|j: int|
                0 <= j < i ==> (last_counts(a, (#[trigger] b[j]).0) matches Some(c) ==> comparable(
                    b[j].1,
                    c.0,
                    wrap,
                ) && comparable(b[j].2, c.1, wrap)),
        decreases rows.len() - i,
    {
        let row = &rows[i];
        proof {
            assert(b.take(i + 1).drop_last() =~= b.take(i as int));
            assert(b[i as int] == (row.0@, row.1, row.2));
            lemma_traffic_grows(a, b, wrap, i + 1);
        }
        if let Some((u, d)) = find_counts(ifaces, &row.0) {
            if !is_comparable(row.1, u, wrap) || !is_comparable(row.2, d, wrap) {
                assert(last_counts(a, b[i as int].0) == Some((u, d)));
                return None;
            }
            let du: u64 = wrap_delta(row.1, u, wrap);
            let dd: u64 = wrap_delta(row.2, d, wrap);
            if du > u64::MAX - up || dd > u64::MAX - down {
                return None;
            }
            up = up + du;
            down = down + dd;
        }
        i += 1;
    }
    assert(b.take(i as int) =~= b);
    Some((up, down))
}

impl NetIo {
    fn roll(&mut self, today: (i32, u32, u32))
        requires
            old(self).wf(),
        ensures
            final(self).wf(),
            final(self)@ == old(self)@.on(today),
    {
        if today.0 != self.today_ymd.0 || today.1 != self.today_ymd.1 || today.2
            != self.today_ymd.2 {
            self.today_ymd = today;
            self.up_today = 0;
            self.down_today = 0;
            self.ckpt_today_bytes = 0;
            self.ckpt_today_count = 0;
            self.today_uploads.clear();
            self.dirty = true;
            assert(row_views(self.today_uploads@) =~= Seq::empty());
        }
    }

    fn count(&mut self, counters: &Counters, now_ms: i64) -> (r: bool)
        requires
            old(self).wf(),
            ifaces_of(*counters) is Some ==> times_fit(old(self)@.ring, now_ms),
            old(self)@.counted(*counters, now_ms).fits(),
            ifaces_of(*counters) matches Some(rows) ==> all_comparable(
                old(self)@.ifaces,
                rows,
                wrap_of(*counters),
            ),
        ensures
            final(self).wf(),
            final(self)@ == old(self)@.counted(*counters, now_ms),
            r == ifaces_of(*counters) is Some,
    {
        let ghost start = self@;
        let rows = match net_ifaces(counters) {
            Some(rows) => rows,
            None => return false,
        };
        let wrap: u64 = match counters {
            Counters::Table(_) => COUNTER_WRAP_32,
            _ => 0,
        };
        let ghost t = traffic(start.ifaces, iface_views(rows@), wrap);
        proof {
            lemma_traffic_grows(start.ifaces, iface_views(rows@), wrap, 0);
        }
        let (du, dd) = match sum_traffic(&self.ifaces, &rows, wrap) {
            Some(t) => t,
            None => (0, 0),
        };
        assert(du == t.0 && dd == t.1);
        self.ifaces = rows;
        self.acc_up = self.acc_up + du;
        self.acc_down = self.acc_down + dd;
        if du > 0 || dd > 0 {
            self.up_today = self.up_today + du;
            self.down_today = self.down_today + dd;
            self.dirty = true;
        }
        self.ring.push((now_ms, self.acc_up, self.acc_down));
        let ghost full = self.ring@;
        assert(times_fit(full, now_ms)) by {
            assert forall|i: int| 0 <= i < full.len() implies i64::MIN <= now_ms - (
            #[trigger] full[i]).0 <= i64::MAX by {
                if i < full.len() - 1 {
                    assert(full[i] == start.ring[i]);
                }
            }
        }
        if self.ring.len() > NET_RING_CAP {
            self.ring.remove(0);
            assert(self.ring@ =~= last_n(full, NET_RING_CAP as int));
        }
        assert(self.ring@ == last_n(full, NET_RING_CAP as int));
        assert(self@ =~= start.counted(*counters, now_ms));
        true
    }

    fn refresh(&mut self, procs: &Vec<ProcRow>, mono: u64)
        requires
            old(self).wf(),
        ensures
            final(self).wf(),
            final(self)@ == old(self)@.refreshed(procs@, mono),
    {
        if is_due(self.proc_refresh, mono, PROC_REFRESH_NS) {
            self.proc_refresh = Some(mono);
            let (cli, app) = zcode_pid_groups(procs);
            self.cli_pids = pid_table(cli);
            self.app_pids = pid_table(app);
        }
    }
}

fn find_since(ring: &Vec<(i64, u64, u64)>, from: i64) -> (r: Option<(i64, u64, u64)>)
    ensures
        r == first_since(ring@, from as int, 0),
        r matches Some(s) ==> exists|i: int| 0 <= i < ring@.len() && #[trigger] ring@[i] == s,
{
    let mut i: usize = 0;
    while i < ring.len()
        invariant
            i <= ring.len(),
            first_since(ring@, from as int, 0) == first_since(ring@, from as int, i as int),
        decreases ring.len() - i,
    {
        if ring[i].0 >= from {
            assert(ring@[i as int] == ring@[i as int]);
            return Some(ring[i]);
        }
        i += 1;
    }
    None
}

fn in_reach(ring: &Vec<(i64, u64, u64)>, at: i64) -> (r: bool)
    ensures
        r == times_fit(ring@, at),
{
    let mut i: usize = 0;
    while i < ring.len()
        invariant
            i <= ring.len(),
            forall|k: int|
                0 <= k < i ==> i64::MIN <= at - (#[trigger] ring@[k]).0 <= i64::MAX,
        decreases ring.len() - i,
    {
        if at.checked_sub(ring[i].0).is_none() {
            assert(!(i64::MIN <= at - ring@[i as int].0 <= i64::MAX));
            return false;
        }
        i += 1;
    }
    true
}

fn less_of(a: u64, b: u64) -> (r: u64)
    ensures
        r == less(a, b),
{
    if a >= b {
        a - b
    } else {
        0
    }
}

fn conn_list(conns: Vec<Conn>, pids: &HashMap<u32, String>) -> (r: Vec<ConnStat>)
    ensures
        stat_conns(r@) == conn_views(conns@),
        forall|i: int|
            0 <= i < r@.len() ==> (#[trigger] r@[i]).proc@ == label_in(labels(pids@), r@[i].pid),
{
    broadcast use group_hash_axioms;

    let ghost all = conn_views(conns@);
    let mut r: Vec<ConnStat> = Vec::new();
    assert(stat_conns(r@) =~= all.take(0));
    for c in it: conns
        invariant
            it.seq() == conns@,
            all == conn_views(conns@),
            stat_conns(r@) == all.take(it.index() as int),
            forall|i: int|
                0 <= i < r@.len() ==> (#[trigger] r@[i]).proc@ == label_in(
                    labels(pids@),
                    r@[i].pid,
                ),
    {
        broadcast use group_hash_axioms;

        let ghost n = it.index() as int;
        let ghost before = r@;
        let proc = match pids.get(&c.1) {
            Some(label) => label.clone(),
            None => String::new(),
        };
        assert(proc@ =~= label_in(labels(pids@), c.1));
        let ghost shown = (c.0@, c.1);
        r.push(ConnStat { remote: c.0, pid: c.1, proc });
        proof {
            assert(stat_conns(r@) =~= stat_conns(before).push(shown));
            assert(all[n] == shown);
            assert(all.take(n + 1) =~= all.take(n).push(shown));
        }
    }
    assert(all.take(all.len() as int) =~= all);
    r
}

fn shown_ws(ws: &String) -> (r: String)
    ensures
        r@ == or_question(ws@),
{
    if ws.as_str().is_empty() {
        "?".to_owned()
    } else {
        ws.clone()
    }
}

proof fn lemma_noted_grows(n: NetView, events: Seq<CkptEventView>, backfill: bool, k: int)
    requires
        0 <= k <= events.len(),
    ensures
        n.ckpt_bytes <= n.all_noted(events.take(k), backfill).ckpt_bytes <= n.all_noted(
            events,
            backfill,
        ).ckpt_bytes,
        n.ckpt_count <= n.all_noted(events.take(k), backfill).ckpt_count <= n.all_noted(
            events,
            backfill,
        ).ckpt_count,
        n.all_noted(events, backfill).acc_up == n.acc_up,
        n.all_noted(events, backfill).acc_down == n.acc_down,
        n.all_noted(events, backfill).up_today == n.up_today,
        n.all_noted(events, backfill).down_today == n.down_today,
    decreases events.len(),
{
    if events.len() > 0 {
        let before = events.drop_last();
        if k < events.len() {
            lemma_noted_grows(n, before, backfill, k);
            assert(before.take(k) =~= events.take(k));
        } else {
            lemma_noted_grows(n, before, backfill, k - 1);
            assert(events.take(k) =~= events);
        }
    } else {
        assert(events.take(k) =~= events);
    }
}

impl NetIo {
    fn speed(&self, now_ms: i64) -> (r: (Rate, Rate))
        requires
            self.wf(),
        ensures
            r == speeds(self@.ring, now_ms),
    {
        let ring = &self.ring;
        if ring.len() == 0 {
            return (Rate::none(), Rate::none());
        }
        let first = ring[0];
        let last = ring[ring.len() - 1];
        if last.0 <= first.0 {
            return (Rate::none(), Rate::none());
        }
        let since: i64 = match now_ms.checked_sub(NET_WINDOW_MS) {
            Some(t) => t,
            None => i64::MIN,
        };
        let (bt, bu, bd) = match find_since(ring, since) {
            Some(s) => s,
            None => (first.0, last.1, last.2),
        };
        assert(times_fit(ring@, last.0));
        let span: i64 = last.0 - bt;
        let ms: i64 = if span < 1 {
            1
        } else {
            span
        };
        (
            Rate { tokens: less_of(last.1, bu), ms },
            Rate { tokens: less_of(last.2, bd), ms },
        )
    }

    fn handle_ckpt_events(&mut self, events: &Vec<CkptEvent>, backfill: bool)
        requires
            old(self).wf(),
            old(self)@.all_noted(event_views(events@), backfill).fits(),
        ensures
            final(self).wf(),
            final(self)@ == old(self)@.all_noted(event_views(events@), backfill),
    {
        let ghost start = self@;
        let ghost all = event_views(events@);
        let accepted = "accepted".to_owned();
        let begun = "upload_start".to_owned();
        let mut i: usize = 0;
        assert(all.take(0) =~= Seq::empty());
        while i < events.len()
            invariant
                i <= events.len(),
                all == event_views(events@),
                accepted@ == "accepted"@,
                begun@ == "upload_start"@,
                start.all_noted(all, backfill).fits(),
                self.wf(),
                self@ == start.all_noted(all.take(i as int), backfill),
            decreases events.len() - i,
        {
            let ev = &events[i];
            let ghost before = self@;
            proof {
                lemma_noted_grows(start, all, backfill, i + 1);
                assert(all.take(i + 1).drop_last() =~= all.take(i as int));
                assert(all[i as int] == ev@);
            }
            let ws = shown_ws(&ev.workspace);
            let kind = ev.kind.to_owned();
            if kind == accepted {
                self.ckpt_today_bytes = self.ckpt_today_bytes + ev.bytes;
                self.ckpt_today_count = self.ckpt_today_count + 1;
                self.today_uploads.push(
                    CkptStat {
                        workspace: ev.workspace.clone(),
                        bytes: ev.bytes,
                        recorded_ms: ev.recorded_ms,
                        accepted: true,
                        uploading: false,
                        hash: None,
                    },
                );
                assert(row_views(self.today_uploads@) =~= before.uploads.push(upload_row(ev@)));
                if self.today_uploads.len() > UPLOADS_CAP {
                    let ghost full = row_views(self.today_uploads@);
                    self.today_uploads.remove(0);
                    assert(row_views(self.today_uploads@) =~= last_n(full, UPLOADS_CAP as int));
                }
                self.dirty = true;
                self.pending_events.push(NetEvent::Accepted { ws, bytes: ev.bytes, backfill });
            } else if kind == begun {
                self.pending_events.push(NetEvent::UploadStart { ws, bytes: ev.bytes });
            } else {
                self.pending_events.push(NetEvent::UploadEnd { ws });
            }
            proof {
                let note = note_views(self.pending_events@).last();
                assert(note_views(self.pending_events@) =~= before.pending.push(note));
                assert(self@ =~= before.noted(ev@, backfill));
            }
            i += 1;
        }
        assert(all.take(i as int) =~= all);
    }

    fn scan(&mut self, listing: &CkptListing, day_start_ms: i64, mono: u64)
        requires
            old(self).wf(),
            old(self)@.scanned(*listing, day_start_ms, mono).fits(),
        ensures
            final(self).wf(),
            final(self)@ == old(self)@.scanned(*listing, day_start_ms, mono),
    {
        let ghost start = self@;
        if is_due(self.ckpt_scan, mono, CKPT_SCAN_NS) {
            self.ckpt_scan = Some(mono);
            let (status, obs) = scan_ckpt_states(listing);
            self.ckpt_status = status;
            let events = apply_ckpt_obs(&mut self.ckpt_states, obs, day_start_ms, false);
            self.ckpt_uploading = any_uploading(&self.ckpt_states);
            self.handle_ckpt_events(&events, false);
        }
    }

    /// Tests whether the processes are to be looked for.
    pub fn procs_due(&self, mono: u64) -> (r: bool)
        ensures
            r == due(self@.proc_refresh, mono, PROC_REFRESH_NS),
    {
        is_due(self.proc_refresh, mono, PROC_REFRESH_NS)
    }

    /// Tests whether the checkpoints are to be looked for.
    pub fn scan_due(&self, mono: u64) -> (r: bool)
        ensures
            r == due(self@.ckpt_scan, mono, CKPT_SCAN_NS),
    {
        is_due(self.ckpt_scan, mono, CKPT_SCAN_NS)
    }
}

/// How an accepted checkpoint is saved.
pub open spec fn upload_doc(u: CkptStatView) -> JsonView {
    JsonView::Object(
        Map::empty().insert("ws"@, JsonView::Text(u.workspace)).insert(
            "bytes"@,
            JsonView::Integer(u.bytes as int),
        ).insert("at"@, JsonView::Integer(u.recorded_ms as int)),
    )
}

/// How the sums of the day are saved.
pub open spec fn day_doc(n: NetView) -> JsonView {
    JsonView::Object(
        Map::empty().insert("day"@, JsonView::Text(day_text(n.today))).insert(
            "up"@,
            JsonView::Integer(n.up_today),
        ).insert("down"@, JsonView::Integer(n.down_today)).insert(
            "ckpt"@,
            JsonView::Integer(n.ckpt_bytes),
        ).insert("ckpt_count"@, JsonView::Integer(n.ckpt_count)).insert(
            "uploads"@,
            JsonView::List(n.uploads.map_values(|u: CkptStatView| upload_doc(u))),
        ),
    )
}

/// The number, or zero.
pub open spec fn nat_or_zero(n: Option<u64>) -> u64 {
    match n {
        Some(n) => n,
        None => 0,
    }
}

/// An accepted checkpoint as it was saved.
pub open spec fn upload_in(v: JsonView) -> CkptStatView {
    CkptStatView {
        workspace: match as_text(member(v, "ws"@)) {
            Some(s) => s,
            None => "?"@,
        },
        bytes: nat_or_zero(as_natural(member(v, "bytes"@))),
        recorded_ms: match as_integer(member(v, "at"@)) {
            Some(t) => t,
            None => 0,
        },
        accepted: true,
        uploading: false,
        hash: None,
    }
}

/// The first `n`, or all where there are fewer.
pub open spec fn first_n<A>(s: Seq<A>, n: int) -> Seq<A> {
    if s.len() > n {
        s.take(n)
    } else {
        s
    }
}

/// The accepted checkpoints as they were saved.
pub open spec fn uploads_in(v: JsonView) -> Seq<CkptStatView> {
    match as_list(member(v, "uploads"@)) {
        Some(items) => first_n(items, UPLOADS_CAP as int).map_values(
            |u: JsonView| upload_in(u),
        ),
        None => Seq::empty(),
    }
}

/// What was saved is of the given day.
pub open spec fn is_of_day(v: JsonView, today: (i32, u32, u32)) -> bool {
    match as_text(member(v, "day"@)) {
        Some(s) => s == day_text(today),
        None => day_text(today).len() == 0,
    }
}

impl NetView {
    /// The sums of the day are read back, where they are those of the day.
    pub open spec fn loaded(self, v: JsonView) -> NetView {
        if is_of_day(v, self.today) {
            NetView {
                up_today: nat_or_zero(as_natural(member(v, "up"@))) as int,
                down_today: nat_or_zero(as_natural(member(v, "down"@))) as int,
                ckpt_bytes: nat_or_zero(as_natural(member(v, "ckpt"@))) as int,
                ckpt_count: nat_or_zero(as_natural(member(v, "ckpt_count"@))) as int
                    % 0x1_0000_0000,
                uploads: uploads_in(v),
                ..self
            }
        } else {
            self
        }
    }
}

fn upload_json(u: &CkptStat) -> (r: Json)
    ensures
        r@ == upload_doc(u@),
        forall|n: nat| n > 0 ==> #[trigger] writable(r, n),
{
    let mut m: Vec<(String, Json)> = Vec::new();
    put_member(&mut m, "ws", Json::Text(u.workspace.clone()));
    put_member(&mut m, "bytes", Json::Integer(u.bytes as i128));
    put_member(&mut m, "at", Json::Integer(u.recorded_ms as i128));
    proof {
        reveal_strlit("ws");
        reveal_strlit("bytes");
        reveal_strlit("at");
        assert("ws"@[0] != "at"@[0]);
        assert(names_differ(m@));
        assert forall|n: nat| n > 0 implies #[trigger] writable(Json::Object(m), n) by {
            assert forall|i: int| 0 <= i < m@.len() implies writable(
                (#[trigger] m@[i]).1,
                (n - 1) as nat,
            ) by {}
        }
    }
    Json::Object(m)
}

fn read_upload(v: &Json) -> (r: CkptStat)
    ensures
        r@ == upload_in(v@),
        r.accepted,
        !r.uploading,
        r.hash is None,
{
    CkptStat {
        workspace: match text_in(v.get("ws")) {
            Some(s) => s,
            None => "?".to_owned(),
        },
        bytes: match natural_in(v.get("bytes")) {
            Some(n) => n,
            None => 0,
        },
        recorded_ms: match integer_in(v.get("at")) {
            Some(t) => t,
            None => 0,
        },
        accepted: true,
        uploading: false,
        hash: None,
    }
}

fn read_uploads(v: &Json) -> (r: Vec<CkptStat>)
    ensures
        row_views(r@) == uploads_in(v@),
        r@.len() <= UPLOADS_CAP,
        forall|i: int|
            0 <= i < r@.len() ==> {
                let u = #[trigger] r@[i];
                u.accepted && !u.uploading && u.hash is None
            },
{
    let mut r: Vec<CkptStat> = Vec::new();
    let list = match v.get("uploads") {
        Some(u) => match u.as_array() {
            Some(list) => list,
            None => {
                assert(row_views(r@) =~= uploads_in(v@));
                return r;
            },
        },
        None => {
            assert(row_views(r@) =~= uploads_in(v@));
            return r;
        },
    };
    let ghost items = items_of(list@);
    proof {
        lemma_items(list@);
    }
    let mut i: usize = 0;
    while i < list.len() && i < UPLOADS_CAP
        invariant
            i <= list.len(),
            i <= UPLOADS_CAP,
            items == items_of(list@),
            items.len() == list@.len(),
            forall|j: int| 0 <= j < list@.len() ==> #[trigger] items[j] == value_of(list@[j]),
            r@.len() == i,
            forall|j: int| 0 <= j < i ==> (#[trigger] r@[j])@ == upload_in(items[j]),
            forall|j: int|
                0 <= j < r@.len() ==> {
                    let u = #[trigger] r@[j];
                    u.accepted && !u.uploading && u.hash is None
                },
        decreases list.len() - i,
    {
        r.push(read_upload(&list[i]));
        i += 1;
    }
    assert(row_views(r@) =~= uploads_in(v@));
    r
}

impl NetIo {
    /// The sums of the day as a document.
    fn document(&self) -> (r: Json)
        ensures
            r@ == day_doc(self@),
            writable(r, depth_limit()),
    {
        let mut uploads: Vec<Json> = Vec::new();
        let mut i: usize = 0;
        let ghost docs = self@.uploads.map_values(|u: CkptStatView| upload_doc(u));
        assert(items_of(uploads@) =~= docs.take(0));
        while i < self.today_uploads.len()
            invariant
                i <= self.today_uploads.len(),
                docs == self@.uploads.map_values(|u: CkptStatView| upload_doc(u)),
                items_of(uploads@) == docs.take(i as int),
                forall|k: int|
                    0 <= k < uploads@.len() ==> writable(
                        #[trigger] uploads@[k],
                        (depth_limit() - 2) as nat,
                    ),
            decreases self.today_uploads.len() - i,
        {
            let j = upload_json(&self.today_uploads[i]);
            proof {
                lemma_push_item(uploads@, j);
                assert(docs[i as int] == j@);
                assert(docs.take(i + 1) =~= docs.take(i as int).push(j@));
            }
            uploads.push(j);
            i += 1;
        }
        assert(docs.take(i as int) =~= docs);
        let mut m: Vec<(String, Json)> = Vec::new();
        put_member(&mut m, "day", Json::Text(ymd_str(self.today_ymd)));
        put_member(&mut m, "up", Json::Integer(self.up_today as i128));
        put_member(&mut m, "down", Json::Integer(self.down_today as i128));
        put_member(&mut m, "ckpt", Json::Integer(self.ckpt_today_bytes as i128));
        put_member(&mut m, "ckpt_count", Json::Integer(self.ckpt_today_count as i128));
        put_member(&mut m, "uploads", Json::List(uploads));
        proof {
            reveal_strlit("day");
            reveal_strlit("up");
            reveal_strlit("down");
            reveal_strlit("ckpt");
            reveal_strlit("ckpt_count");
            reveal_strlit("uploads");
            assert("down"@[0] != "ckpt"@[0]);
            assert(m@[0].0@ == "day"@ && m@[1].0@ == "up"@ && m@[2].0@ == "down"@);
            assert(m@[3].0@ == "ckpt"@ && m@[4].0@ == "ckpt_count"@ && m@[5].0@ == "uploads"@);
            assert(names_differ(m@));
            assert forall|i: int| 0 <= i < m@.len() implies writable(
                (#[trigger] m@[i]).1,
                (depth_limit() - 1) as nat,
            ) by {}
        }
        Json::Object(m)
    }

    /// Reads back the sums of the day from a document, and tells whether the day is a new one.
    pub fn load_from(&mut self, v: &Json) -> (r: bool)
        requires
            old(self).wf(),
        ensures
            final(self).wf(),
            final(self)@ == old(self)@.loaded(v@),
            r == !is_of_day(v@, old(self)@.today),
    {
        let ghost start = self@;
        let day = match text_in(v.get("day")) {
            Some(s) => s,
            None => String::new(),
        };
        let today = ymd_str(self.today_ymd);
        if day != today {
            assert(as_text(member(v@, "day"@)) is None ==> day@ =~= Seq::empty());
            assert(day_text(start.today).len() == 0 ==> day_text(start.today) =~= Seq::empty());
            return true;
        }
        assert(is_of_day(v@, start.today));
        self.up_today = match natural_in(v.get("up")) {
            Some(n) => n,
            None => 0,
        };
        self.down_today = match natural_in(v.get("down")) {
            Some(n) => n,
            None => 0,
        };
        self.ckpt_today_bytes = match natural_in(v.get("ckpt")) {
            Some(n) => n,
            None => 0,
        };
        let count: u64 = match natural_in(v.get("ckpt_count")) {
            Some(n) => n,
            None => 0,
        };
        self.ckpt_today_count = (count % 0x1_0000_0000) as u32;
        self.today_uploads = read_uploads(v);
        assert(self@ =~= start.loaded(v@));
        false
    }

    /// Reads back the sums of the day from what was saved, and tells whether the day is a new one:
    /// nothing was saved, or it is damaged, or it is of another day.
    pub fn load_persisted(&mut self, text: &Option<String>) -> (r: bool)
        requires
            old(self).wf(),
        ensures
            final(self).wf(),
            match *text {
                None => r && final(self)@ == old(self)@,
                Some(t) => match json_of(t@) {
                    None => r && final(self)@ == old(self)@,
                    Some(v) => final(self)@ == old(self)@.loaded(v) && r == !is_of_day(
                        v,
                        old(self)@.today,
                    ),
                },
            },
    {
        match text {
            None => true,
            Some(t) => match parse(t.as_str()) {
                None => true,
                Some(v) => self.load_from(&v),
            },
        }
    }
}

/// What is saved on a day and read back on the same day gives the sums of the day again.
pub proof fn lemma_restart_keeps_the_day(n: NetView, start: NetView)
    requires
        start.today == n.today,
        n.fits(),
        n.up_today >= 0,
        n.down_today >= 0,
        n.ckpt_bytes >= 0,
        n.ckpt_count >= 0,
        n.uploads.len() <= UPLOADS_CAP,
        forall|i: int|
            0 <= i < n.uploads.len() ==> {
                let u = #[trigger] n.uploads[i];
                u.accepted && !u.uploading && u.hash is None
            },
    ensures
        is_of_day(day_doc(n), start.today),
        start.loaded(day_doc(n)) == (NetView {
            up_today: n.up_today,
            down_today: n.down_today,
            ckpt_bytes: n.ckpt_bytes,
            ckpt_count: n.ckpt_count,
            uploads: n.uploads,
            ..start
        }),
{
    reveal_strlit("day");
    reveal_strlit("up");
    reveal_strlit("down");
    reveal_strlit("ckpt");
    reveal_strlit("ckpt_count");
    reveal_strlit("uploads");
    reveal_strlit("ws");
    reveal_strlit("bytes");
    reveal_strlit("at");
    let v = day_doc(n);
    assert("down"@[0] != "ckpt"@[0]);
    assert("day"@.len() == 3 && "up"@.len() == 2 && "down"@.len() == 4 && "ckpt"@.len() == 4
        && "ckpt_count"@.len() == 10 && "uploads"@.len() == 7);
    assert(member(v, "day"@) == Some(JsonView::Text(day_text(n.today))));
    assert(member(v, "up"@) == Some(JsonView::Integer(n.up_today)));
    assert(member(v, "down"@) == Some(JsonView::Integer(n.down_today)));
    assert(member(v, "ckpt"@) == Some(JsonView::Integer(n.ckpt_bytes)));
    assert(member(v, "ckpt_count"@) == Some(JsonView::Integer(n.ckpt_count)));
    let list = n.uploads.map_values(|u: CkptStatView| upload_doc(u));
    assert(member(v, "uploads"@) == Some(JsonView::List(list)));
    assert(uploads_in(v) =~= n.uploads) by {
        assert forall|i: int| 0 <= i < n.uploads.len() implies #[trigger] uploads_in(v)[i]
            == n.uploads[i] by {
            let u = n.uploads[i];
            let d = upload_doc(u);
            assert(list[i] == d);
            assert("ws"@[0] != "at"@[0]);
            assert("ws"@.len() == 2 && "at"@.len() == 2 && "bytes"@.len() == 5);
            assert(member(d, "ws"@) == Some(JsonView::Text(u.workspace)));
            assert(member(d, "bytes"@) == Some(JsonView::Integer(u.bytes as int)));
            assert(member(d, "at"@) == Some(JsonView::Integer(u.recorded_ms as int)));
        }
    }
    assert(start.loaded(v) =~= NetView {
        up_today: n.up_today,
        down_today: n.down_today,
        ckpt_bytes: n.ckpt_bytes,
        ckpt_count: n.ckpt_count,
        uploads: n.uploads,
        ..start
    });
}

/// What a tick brings can be taken in: counters can be compared, and sums and the time since each
/// sample can be held.
pub open spec fn tellable(n: NetView, input: TickInput) -> bool {
    &&& ifaces_of(input.counters) matches Some(rows) ==> times_fit(n.ring, input.now_ms)
        && all_comparable(n.ifaces, rows, wrap_of(input.counters))
    &&& n.told(input).fits()
    &&& input.tables matches Some(t) ==> complete_tables(t)
}

proof fn lemma_fits_on_the_way(n: NetView, input: TickInput)
    requires
        tellable(n, input),
    ensures
        n.on(input.today).counted(input.counters, input.now_ms).fits(),
{
    let a = n.on(input.today).counted(input.counters, input.now_ms);
    let b = a.refreshed(input.procs@, input.mono_ns);
    let states = observed(b.states, input.listing.obs());
    let c = NetView {
        ckpt_scan: Some(input.mono_ns),
        status: input.listing.status(),
        states,
        uploading: exists|k: Seq<char>| #[trigger]
            states.dom().contains(k) && states[k].uploading,
        ..b
    };
    let events = all_changes(b.states, input.listing.obs(), input.day_start_ms, false);
    lemma_noted_grows(c, events, false, 0);
    assert(events.take(0) =~= Seq::empty());
}

impl NetIo {
    /// Hands out what is to be saved, when that is due.
    fn save(&mut self, force: bool, mono: u64) -> (r: Option<String>)
        requires
            old(self).wf(),
        ensures
            final(self).wf(),
            final(self)@ == old(self)@.saved(force, mono),
            r is Some == old(self)@.save_due(force, mono),
            r matches Some(t) ==> json_of(t@) == Some(day_doc(old(self)@)),
    {
        let now = force || is_due(self.last_save, mono, NET_SAVE_NS);
        if !now || !self.dirty {
            return None;
        }
        let doc = self.document();
        let text = to_text(&doc);
        self.last_save = Some(mono);
        self.dirty = false;
        Some(text)
    }

    /// Hands out what is to be saved before the end.
    pub fn save_forced(&mut self, mono: u64) -> (r: String)
        requires
            old(self).wf(),
        ensures
            final(self).wf(),
            final(self)@ == (NetView { last_save: Some(mono), dirty: false, ..old(self)@ }),
            json_of(r@) == Some(day_doc(old(self)@)),
    {
        let ghost start = self@;
        self.dirty = true;
        let ghost mid = self@;
        assert(day_doc(mid) == day_doc(start));
        let r = self.save(true, mono);
        r.unwrap()
    }

    /// Hands out what is to be noted in the log.
    pub fn take_events(&mut self) -> (r: Vec<NetEvent>)
        requires
            old(self).wf(),
        ensures
            final(self).wf(),
            note_views(r@) == old(self)@.pending,
            final(self)@ == (NetView { pending: Seq::empty(), ..old(self)@ }),
    {
        let ghost start = self@;
        let mut r: Vec<NetEvent> = Vec::new();
        std::mem::swap(&mut r, &mut self.pending_events);
        assert(self@ =~= NetView { pending: Seq::empty(), ..start });
        r
    }

    /// Takes in what the system told. Returns what is shown, and what is to be saved when that is
    /// due.
    pub fn tick(&mut self, input: &TickInput) -> (r: (NetNow, Option<String>))
        requires
            old(self).wf(),
            tellable(old(self)@, *input),
        ensures
            final(self).wf(),
            final(self)@ == old(self)@.ticked(*input),
            shows_net(r.0, old(self)@.told(*input), *input),
            r.1 is Some == old(self)@.told(*input).save_due(false, input.mono_ns),
            r.1 matches Some(t) ==> json_of(t@) == Some(day_doc(old(self)@.told(*input))),
    {
        let ghost start = self@;
        proof {
            lemma_fits_on_the_way(start, *input);
        }
        self.roll(input.today);
        let available = self.count(&input.counters, input.now_ms);
        let (up_bps, down_bps) = self.speed(input.now_ms);
        let ghost ring = self@.ring;
        self.refresh(&input.procs, input.mono_ns);
        let conns = zcode_conns(&self.cli_pids, &self.app_pids, &input.tables);
        let conns_available = conns.is_some();
        let (cli_conn_list, app_conn_list) = match conns {
            Some((cli, app)) => (
                conn_list(cli, &self.cli_pids),
                conn_list(app, &self.app_pids),
            ),
            None => (Vec::new(), Vec::new()),
        };
        let ghost (cli, app) = (self@.cli, self@.app);
        proof {
            assert(cli.dom() =~= self.cli_pids@.dom());
            assert(app.dom() =~= self.app_pids@.dom());
        }
        self.scan(&input.listing, input.day_start_ms, input.mono_ns);
        let ghost told = start.told(*input);
        proof {
            lemma_noting_keeps(start, *input);
        }
        let saved = self.save(false, input.mono_ns);
        let now = NetNow {
            available,
            up_bps,
            down_bps,
            up_today: self.up_today,
            down_today: self.down_today,
            conns_available,
            cli_conns: cli_conn_list.len() as u32,
            app_conns: app_conn_list.len() as u32,
            cli_conn_list,
            app_conn_list,
            ckpt_status: self.ckpt_status.clone(),
            ckpt_uploading: self.ckpt_uploading,
            ckpt_today_bytes: self.ckpt_today_bytes,
            ckpt_today_count: self.ckpt_today_count,
            ckpt_today_list: copy_rows(&self.today_uploads),
            ckpt_list: ckpt_rows(&self.ckpt_states),
        };
        (now, saved)
    }
}

proof fn lemma_noted_keeps(n: NetView, events: Seq<CkptEventView>, backfill: bool)
    ensures
        n.all_noted(events, backfill).ring == n.ring,
        n.all_noted(events, backfill).cli == n.cli,
        n.all_noted(events, backfill).app == n.app,
        n.all_noted(events, backfill).states == n.states,
        n.all_noted(events, backfill).status == n.status,
        n.all_noted(events, backfill).uploading == n.uploading,
        n.all_noted(events, backfill).today == n.today,
        n.all_noted(events, backfill).ifaces == n.ifaces,
    decreases events.len(),
{
    if events.len() > 0 {
        lemma_noted_keeps(n, events.drop_last(), backfill);
    }
}

proof fn lemma_noting_keeps(n: NetView, input: TickInput)
    ensures
        ({
            let b = n.on(input.today).counted(input.counters, input.now_ms).refreshed(
                input.procs@,
                input.mono_ns,
            );
            &&& n.told(input).ring == b.ring
            &&& n.told(input).cli == b.cli
            &&& n.told(input).app == b.app
        }),
{
    let b = n.on(input.today).counted(input.counters, input.now_ms).refreshed(
        input.procs@,
        input.mono_ns,
    );
    let states = observed(b.states, input.listing.obs());
    let c = NetView {
        ckpt_scan: Some(input.mono_ns),
        status: input.listing.status(),
        states,
        uploading: exists|k: Seq<char>| #[trigger]
            states.dom().contains(k) && states[k].uploading,
        ..b
    };
    lemma_noted_keeps(
        c,
        all_changes(b.states, input.listing.obs(), input.day_start_ms, false),
        false,
    );
}

fn room_for(bytes: u64, count: u32, events: &Vec<CkptEvent>, backfill: bool, Ghost(n): Ghost<
    NetView,
>) -> (r: bool)
    requires
        n.ckpt_bytes == bytes,
        n.ckpt_count == count,
    ensures
        r == (n.all_noted(event_views(events@), backfill).ckpt_bytes <= u64::MAX && n.all_noted(
            event_views(events@),
            backfill,
        ).ckpt_count <= u32::MAX),
{
    let ghost all = event_views(events@);
    let accepted = "accepted".to_owned();
    let mut b: u64 = bytes;
    let mut c: u32 = count;
    let mut i: usize = 0;
    assert(all.take(0) =~= Seq::empty());
    while i < events.len()
        invariant
            i <= events.len(),
            all == event_views(events@),
            accepted@ == "accepted"@,
            b == n.all_noted(all.take(i as int), backfill).ckpt_bytes,
            c == n.all_noted(all.take(i as int), backfill).ckpt_count,
        decreases events.len() - i,
    {
        let ev = &events[i];
        proof {
            lemma_noted_grows(n, all, backfill, i + 1);
            assert(all.take(i + 1).drop_last() =~= all.take(i as int));
            assert(all[i as int] == ev@);
        }
        if ev.kind.to_owned() == accepted {
            if ev.bytes > u64::MAX - b || c == u32::MAX {
                return false;
            }
            b = b + ev.bytes;
            c = c + 1;
        }
        i += 1;
    }
    assert(all.take(i as int) =~= all);
    true
}

fn tables_complete(tables: &Option<TcpTables>) -> (r: bool)
    ensures
        r == (*tables matches Some(t) ==> complete_tables(t)),
{
    match tables {
        None => true,
        Some(t) => {
            let mut i: usize = 0;
            while i < t.long.len()
                invariant
                    i <= t.long.len(),
                    *tables == Some(*t),
                    forall|j: int|
                        0 <= j < i ==> (#[trigger] t.long@[j]).remote_addr@.len() == 16,
                decreases t.long.len() - i,
            {
                if t.long[i].remote_addr.len() != 16 {
                    assert(t.long@[i as int].remote_addr@.len() != 16);
                    return false;
                }
                i += 1;
            }
            true
        },
    }
}

/// What the monitor holds when it starts.
pub open spec fn blank(today: (i32, u32, u32)) -> NetView {
    NetView {
        ring: Seq::empty(),
        ifaces: Seq::empty(),
        acc_up: 0,
        acc_down: 0,
        today,
        up_today: 0,
        down_today: 0,
        ckpt_bytes: 0,
        ckpt_count: 0,
        uploads: Seq::empty(),
        cli: Map::empty(),
        app: Map::empty(),
        proc_refresh: None,
        ckpt_scan: None,
        states: Map::empty(),
        status: Seq::empty(),
        uploading: false,
        last_save: None,
        dirty: false,
        pending: Seq::empty(),
    }
}

/// The sums of the day are read back, where they were saved.
pub open spec fn restored(today: (i32, u32, u32), saved: Option<String>) -> NetView {
    match saved {
        Some(t) => match json_of(t@) {
            Some(v) => blank(today).loaded(v),
            None => blank(today),
        },
        None => blank(today),
    }
}

/// Nothing of the day was saved.
pub open spec fn is_new_day(today: (i32, u32, u32), saved: Option<String>) -> bool {
    match saved {
        Some(t) => match json_of(t@) {
            Some(v) => !is_of_day(v, today),
            None => true,
        },
        None => true,
    }
}

/// How the monitor starts: with what was saved of the day, and with the checkpoints as they are.
/// On a new day what was accepted earlier in the day counts.
pub open spec fn started(
    today: (i32, u32, u32),
    saved: Option<String>,
    listing: CkptListing,
    day_start: i64,
) -> NetView {
    let fresh = is_new_day(today, saved);
    NetView {
        status: listing.status(),
        states: observed(Map::empty(), listing.obs()),
        ..restored(today, saved)
    }.all_noted(all_changes(Map::empty(), listing.obs(), day_start, fresh), fresh)
}

impl NetIo {
    fn empty(today: (i32, u32, u32)) -> (r: Self)
        ensures
            r.wf(),
            r@ == blank(today),
    {
        broadcast use group_hash_axioms;

        let r = NetIo {
            ring: Vec::new(),
            ifaces: Vec::new(),
            acc_up: 0,
            acc_down: 0,
            today_ymd: today,
            up_today: 0,
            down_today: 0,
            ckpt_today_bytes: 0,
            ckpt_today_count: 0,
            today_uploads: Vec::new(),
            cli_pids: HashMap::new(),
            app_pids: HashMap::new(),
            proc_refresh: None,
            ckpt_scan: None,
            ckpt_states: CkptTable::new(),
            ckpt_status: String::new(),
            ckpt_uploading: false,
            last_save: None,
            dirty: false,
            pending_events: Vec::new(),
        };
        assert(r@ =~= blank(today));
        r
    }

    /// Starts the monitor with what was saved and with the checkpoints as they are, unless a sum
    /// is too large to hold.
    pub fn checked_new(
        today: (i32, u32, u32),
        saved: &Option<String>,
        listing: &CkptListing,
        day_start_ms: i64,
    ) -> (r: Option<Self>)
        ensures
            r is Some == started(today, *saved, *listing, day_start_ms).fits(),
            r matches Some(io) ==> io.wf() && io@ == started(today, *saved, *listing, day_start_ms),
    {
        let mut io = NetIo::empty(today);
        let fresh = io.load_persisted(saved);
        let (status, obs) = scan_ckpt_states(listing);
        io.ckpt_status = status;
        let events = apply_ckpt_obs(&mut io.ckpt_states, obs, day_start_ms, fresh);
        let ghost n = io@;
        proof {
            assert(n =~= NetView {
                status: listing.status(),
                states: observed(Map::empty(), listing.obs()),
                ..restored(today, *saved)
            });
            lemma_noted_grows(n, event_views(events@), fresh, 0);
        }
        if !room_for(io.ckpt_today_bytes, io.ckpt_today_count, &events, fresh, Ghost(n)) {
            return None;
        }
        io.handle_ckpt_events(&events, fresh);
        Some(io)
    }

    /// Starts the monitor with what was saved and with the checkpoints as they are.
    pub fn new(
        today: (i32, u32, u32),
        saved: &Option<String>,
        listing: &CkptListing,
        day_start_ms: i64,
    ) -> (r: Self)
        requires
            started(today, *saved, *listing, day_start_ms).fits(),
        ensures
            r.wf(),
            r@ == started(today, *saved, *listing, day_start_ms),
    {
        NetIo::checked_new(today, saved, listing, day_start_ms).unwrap()
    }

    /// Tests whether what the system told can be taken in.
    pub fn accepts(&self, input: &TickInput) -> (r: bool)
        requires
            self.wf(),
        ensures
            r == tellable(self@, *input),
    {
        let ghost n = self@;
        let ghost a = n.on(input.today);
        let ghost b = a.counted(input.counters, input.now_ms);
        let ghost c = b.refreshed(input.procs@, input.mono_ns);
        if !tables_complete(&input.tables) {
            return false;
        }
        let same_day = input.today.0 == self.today_ymd.0 && input.today.1 == self.today_ymd.1
            && input.today.2 == self.today_ymd.2;
        let (up, down, bytes, count) = if same_day {
            (self.up_today, self.down_today, self.ckpt_today_bytes, self.ckpt_today_count)
        } else {
            (0, 0, 0, 0)
        };
        proof {
            lemma_told_fits(n, *input);
        }
        if let Some(rows) = net_ifaces(&input.counters) {
            if !in_reach(&self.ring, input.now_ms) {
                return false;
            }
            let wrap: u64 = match input.counters {
                Counters::Table(_) => COUNTER_WRAP_32,
                _ => 0,
            };
            proof {
                lemma_traffic_grows(n.ifaces, iface_views(rows@), wrap, 0);
            }
            match sum_traffic(&self.ifaces, &rows, wrap) {
                None => return false,
                Some((du, dd)) => {
                    if du > u64::MAX - self.acc_up || dd > u64::MAX - self.acc_down || du > u64::MAX
                        - up || dd > u64::MAX - down {
                        return false;
                    }
                },
            }
        }
        if is_due(self.ckpt_scan, input.mono_ns, CKPT_SCAN_NS) {
            let mut states = self.ckpt_states.copy();
            let (_, obs) = scan_ckpt_states(&input.listing);
            let events = apply_ckpt_obs(&mut states, obs, input.day_start_ms, false);
            room_for(bytes, count, &events, false, Ghost(scan_base(c, *input)))
        } else {
            true
        }
    }

    /// Takes in what the system told, where that can be done; else nothing changes.
    pub fn checked_tick(&mut self, input: &TickInput) -> (r: Option<(NetNow, Option<String>)>)
        requires
            old(self).wf(),
        ensures
            final(self).wf(),
            match r {
                Some((now, saved)) => {
                    &&& tellable(old(self)@, *input)
                    &&& final(self)@ == old(self)@.ticked(*input)
                    &&& shows_net(now, old(self)@.told(*input), *input)
                    &&& saved is Some == old(self)@.told(*input).save_due(false, input.mono_ns)
                    &&& saved matches Some(t) ==> json_of(t@) == Some(
                        day_doc(old(self)@.told(*input)),
                    )
                },
                None => !tellable(old(self)@, *input) && final(self)@ == old(self)@,
            },
    {
        if self.accepts(input) {
            Some(self.tick(input))
        } else {
            None
        }
    }
}

/// The monitor before the changes of a scan are noted.
pub open spec fn scan_base(n: NetView, input: TickInput) -> NetView {
    let states = observed(n.states, input.listing.obs());
    NetView {
        ckpt_scan: Some(input.mono_ns),
        status: input.listing.status(),
        states,
        uploading: exists|k: Seq<char>| #[trigger]
            states.dom().contains(k) && states[k].uploading,
        ..n
    }
}

proof fn lemma_told_fits(n: NetView, input: TickInput)
    ensures
        ({
            let b = n.on(input.today).counted(input.counters, input.now_ms);
            let c = b.refreshed(input.procs@, input.mono_ns);
            let events = all_changes(c.states, input.listing.obs(), input.day_start_ms, false);
            let d = scan_base(c, input).all_noted(events, false);
            &&& c.ckpt_scan == n.ckpt_scan
            &&& c.states == n.states
            &&& scan_base(c, input).ckpt_bytes == n.on(input.today).ckpt_bytes
            &&& scan_base(c, input).ckpt_count == n.on(input.today).ckpt_count
            &&& due(n.ckpt_scan, input.mono_ns, CKPT_SCAN_NS) ==> n.told(input).fits() == (
            b.acc_up <= u64::MAX && b.acc_down <= u64::MAX && b.up_today <= u64::MAX && b.down_today
                <= u64::MAX && d.ckpt_bytes <= u64::MAX && d.ckpt_count <= u32::MAX)
            &&& !due(n.ckpt_scan, input.mono_ns, CKPT_SCAN_NS) ==> n.told(input).fits() == (
            b.acc_up <= u64::MAX && b.acc_down <= u64::MAX && b.up_today <= u64::MAX && b.down_today
                <= u64::MAX && b.ckpt_bytes <= u64::MAX && b.ckpt_count <= u32::MAX)
        }),
{
    let b = n.on(input.today).counted(input.counters, input.now_ms);
    let c = b.refreshed(input.procs@, input.mono_ns);
    let events = all_changes(c.states, input.listing.obs(), input.day_start_ms, false);
    lemma_noted_grows(scan_base(c, input), events, false, 0);
    assert(events.take(0) =~= Seq::empty());
}

/// The counts of all time never fall; nor do the sums of the day while the day lasts.
pub proof fn lemma_sums_never_fall(n: NetView, input: TickInput)
    ensures
        n.ticked(input).acc_up >= n.acc_up,
        n.ticked(input).acc_down >= n.acc_down,
        input.today == n.today ==> {
            &&& n.ticked(input).up_today >= n.up_today
            &&& n.ticked(input).down_today >= n.down_today
            &&& n.ticked(input).ckpt_bytes >= n.ckpt_bytes
            &&& n.ticked(input).ckpt_count >= n.ckpt_count
        },
{
    if let Some(rows) = ifaces_of(input.counters) {
        lemma_traffic_grows(n.ifaces, rows, wrap_of(input.counters), 0);
    }
    let b = n.on(input.today).counted(input.counters, input.now_ms);
    let c = b.refreshed(input.procs@, input.mono_ns);
    let events = all_changes(c.states, input.listing.obs(), input.day_start_ms, false);
    lemma_noted_grows(scan_base(c, input), events, false, 0);
}

proof fn lemma_known(obs: Seq<(Seq<char>, CkptStateView)>, key: Seq<char>)
    requires
        forall|i: int| 0 <= i < obs.len() ==> (#[trigger] obs[i]).0 != key,
    ensures
        !observed(Map::empty(), obs).dom().contains(key),
    decreases obs.len(),
{
    if obs.len() > 0 {
        let before = obs.drop_last();
        assert forall|i: int| 0 <= i < before.len() implies (#[trigger] before[i]).0 != key by {
            assert(before[i] == obs[i]);
        }
        lemma_known(before, key);
        assert(obs[obs.len() - 1].0 != key);
    }
}

proof fn lemma_first_look_is_quiet(obs: Seq<(Seq<char>, CkptStateView)>, day_start: i64)
    requires
        each_once(obs),
    ensures
        all_changes(Map::empty(), obs, day_start, false).len() == 0,
    decreases obs.len(),
{
    if obs.len() > 0 {
        let before = obs.drop_last();
        let last = obs[obs.len() - 1];
        assert forall|i: int, j: int|
            #![trigger before[i], before[j]]
            0 <= i < before.len() && 0 <= j < before.len() && i != j implies before[i].0
            != before[j].0 by {
            assert(before[i] == obs[i] && before[j] == obs[j]);
        }
        lemma_first_look_is_quiet(before, day_start);
        assert forall|i: int| 0 <= i < before.len() implies (#[trigger] before[i]).0 != last.0 by {
            assert(before[i] == obs[i]);
            assert(obs[i].0 != obs[obs.len() - 1].0);
        }
        lemma_known(before, last.0);
    }
}

/// Nothing counts twice after a restart: where the sums of the day were saved, the checkpoints
/// that are found at the start add nothing to them.
pub proof fn lemma_restart_counts_nothing_twice(
    today: (i32, u32, u32),
    saved: Option<String>,
    listing: CkptListing,
    day_start: i64,
)
    requires
        !is_new_day(today, saved),
        each_once(listing.obs()),
    ensures
        ({
            let (a, b) = (started(today, saved, listing, day_start), restored(today, saved));
            &&& a.ckpt_bytes == b.ckpt_bytes
            &&& a.ckpt_count == b.ckpt_count
            &&& a.uploads == b.uploads
            &&& a.pending == b.pending
        }),
{
    lemma_first_look_is_quiet(listing.obs(), day_start);
}

proof fn lemma_first_since_is_at(ring: Seq<(i64, u64, u64)>, from: int, i: int, k: int)
    requires
        0 <= i <= k < ring.len(),
        ring[k].0 >= from,
        forall|j: int| i <= j < k ==> (#[trigger] ring[j]).0 < from,
    ensures
        first_since(ring, from, i) == Some(ring[k]),
    decreases k - i,
{
    if i < k {
        assert(ring[i].0 < from);
        lemma_first_since_is_at(ring, from, i + 1, k);
    }
}

proof fn lemma_none_since(ring: Seq<(i64, u64, u64)>, from: int, i: int)
    requires
        0 <= i <= ring.len(),
        forall|j: int| i <= j < ring.len() ==> (#[trigger] ring[j]).0 < from,
    ensures
        first_since(ring, from, i) is None,
    decreases ring.len() - i,
{
    if i < ring.len() {
        assert(ring[i].0 < from);
        lemma_none_since(ring, from, i + 1);
    }
}

proof fn lemma_some_since(ring: Seq<(i64, u64, u64)>, from: int, i: int) -> (k: int)
    requires
        0 <= i < ring.len(),
        ring.last().0 >= from,
    ensures
        i <= k < ring.len(),
        ring[k].0 >= from,
        forall|j: int| i <= j < k ==> (#[trigger] ring[j]).0 < from,
        first_since(ring, from, i) == Some(ring[k]),
    decreases ring.len() - i,
{
    if ring[i].0 >= from {
        i
    } else {
        assert(i < ring.len() - 1);
        lemma_some_since(ring, from, i + 1)
    }
}

/// The live speed is that of the last second: what was sent and received from the first sample in
/// it to the newest one, by the time between these two.
pub proof fn lemma_live_speed_is_of_the_last_second(now: NetNow, n: NetView, input: TickInput, k: int)
    requires
        shows_net(now, n, input),
        times_fit(n.ring, n.ring.last().0),
        0 <= k < n.ring.len(),
        n.ring[0].0 < n.ring.last().0,
        input.now_ms - n.ring[k].0 <= 1_000,
        forall|j: int| 0 <= j < k ==> input.now_ms - (#[trigger] n.ring[j]).0 > 1_000,
    ensures
        ({
            let (first, last) = (n.ring[k], n.ring[n.ring.len() - 1]);
            &&& first.1 <= last.1 ==> now.up_bps.tokens == last.1 - first.1
            &&& first.2 <= last.2 ==> now.down_bps.tokens == last.2 - first.2
            &&& first.0 < last.0 ==> now.up_bps.ms == last.0 - first.0 && now.down_bps.ms == last.0
                - first.0
        }),
{
    lemma_first_since_is_at(n.ring, input.now_ms - 1_000, 0, k);
}

/// Where nothing was sent and nothing received in the last second, the live speed is zero, whatever
/// was sent and received before.
pub proof fn lemma_quiet_second_is_no_speed(now: NetNow, n: NetView, input: TickInput)
    requires
        shows_net(now, n, input),
        n.ring.len() > 0,
        input.now_ms - n.ring.last().0 <= 1_000,
        forall|i: int|
            0 <= i < n.ring.len() && input.now_ms - (#[trigger] n.ring[i]).0 <= 1_000 ==> n.ring[i].1
                == n.ring.last().1 && n.ring[i].2 == n.ring.last().2,
    ensures
        now.up_bps.tokens == 0,
        now.down_bps.tokens == 0,
{
    let k = lemma_some_since(n.ring, input.now_ms - 1_000, 0);
    assert(input.now_ms - n.ring[k].0 <= 1_000);
}

/// Samples that are older than a second do not change the live speed, as long as there are two in
/// the last second.
pub proof fn lemma_old_samples_do_not_matter(
    a: NetNow,
    b: NetNow,
    n: NetView,
    m: NetView,
    input: TickInput,
    older: Seq<(i64, u64, u64)>,
)
    requires
        shows_net(a, n, input),
        shows_net(b, m, input),
        n.ring == older + m.ring,
        m.ring.len() > 0,
        m.ring[0].0 < m.ring.last().0,
        input.now_ms - m.ring.last().0 <= 1_000,
        forall|i: int| 0 <= i < older.len() ==> input.now_ms - (#[trigger] older[i]).0 > 1_000,
    ensures
        a.up_bps == b.up_bps,
        a.down_bps == b.down_bps,
{
    let from = input.now_ms - 1_000;
    let k = lemma_some_since(m.ring, from, 0);
    let l = older.len() + k;
    assert(n.ring[l] == m.ring[k]);
    assert forall|j: int| 0 <= j < l implies (#[trigger] n.ring[j]).0 < from by {
        if j < older.len() {
            assert(n.ring[j] == older[j]);
        } else {
            assert(n.ring[j] == m.ring[j - older.len()]);
        }
    }
    lemma_first_since_is_at(n.ring, from, 0, l);
    assert(n.ring.last() == m.ring.last());
    if older.len() > 0 {
        assert(n.ring[0] == older[0]);
    } else {
        assert(n.ring =~= m.ring);
    }
}

/// Without a sample in the last second there is no live speed.
pub proof fn lemma_no_speed_without_samples(now: NetNow, n: NetView, input: TickInput)
    requires
        shows_net(now, n, input),
        forall|i: int| 0 <= i < n.ring.len() ==> input.now_ms - (#[trigger] n.ring[i]).0 > 1_000,
    ensures
        now.up_bps.tokens == 0,
        now.down_bps.tokens == 0,
{
    lemma_none_since(n.ring, input.now_ms - 1_000, 0);
}

/// A look at the counters makes a sample of now, and the last four hundred samples are kept.
pub proof fn lemma_look_makes_a_sample(n: NetView, input: TickInput)
    requires
        ifaces_of(input.counters) is Some,
        n.acc_up >= 0,
        n.acc_down >= 0,
        n.told(input).fits(),
    ensures
        ({
            let (a, b) = (n.ring, n.told(input).ring);
            let t = n.told(input);
            &&& b.len() > 0
            &&& b.last() == (input.now_ms, t.acc_up as u64, t.acc_down as u64)
            &&& a.len() < 400 ==> b.drop_last() == a
            &&& a.len() == 400 ==> b.drop_last() == a.skip(1)
        }),
{
    lemma_noting_keeps(n, input);
    let b = n.on(input.today).counted(input.counters, input.now_ms);
    let c = b.refreshed(input.procs@, input.mono_ns);
    lemma_noted_grows(
        scan_base(c, input),
        all_changes(c.states, input.listing.obs(), input.day_start_ms, false),
        false,
        0,
    );
    let full = n.ring.push((input.now_ms, b.acc_up as u64, b.acc_down as u64));
    assert(full.drop_last() =~= n.ring);
    if n.ring.len() == 400 {
        assert(full.skip(1).drop_last() =~= n.ring.skip(1));
    }
}

proof fn lemma_last_counts(ifaces: Seq<(Seq<char>, u64, u64)>, j: int)
    requires
        0 <= j < ifaces.len(),
        forall|i: int| j < i < ifaces.len() ==> (#[trigger] ifaces[i]).0 != ifaces[j].0,
    ensures
        last_counts(ifaces, ifaces[j].0) == Some((ifaces[j].1, ifaces[j].2)),
    decreases ifaces.len(),
{
    let before = ifaces.drop_last();
    if j < before.len() {
        assert(ifaces[ifaces.len() - 1].0 != ifaces[j].0);
        assert forall|i: int| j < i < before.len() implies (#[trigger] before[i]).0
            != before[j].0 by {
            assert(before[i] == ifaces[i]);
        }
        lemma_last_counts(before, j);
    }
}

proof fn lemma_no_counts(ifaces: Seq<(Seq<char>, u64, u64)>, name: Seq<char>)
    requires
        forall|i: int| 0 <= i < ifaces.len() ==> (#[trigger] ifaces[i]).0 != name,
    ensures
        last_counts(ifaces, name) is None,
    decreases ifaces.len(),
{
    if ifaces.len() > 0 {
        let before = ifaces.drop_last();
        assert forall|i: int| 0 <= i < before.len() implies (#[trigger] before[i]).0 != name by {
            assert(before[i] == ifaces[i]);
        }
        assert(ifaces[ifaces.len() - 1].0 != name);
        lemma_no_counts(before, name);
    }
}

/// An interface adds to the traffic what it sent and received since the last look. One that was not
/// there then adds nothing; nor does one that counts from the start again, or that claims two
/// gibibytes or more at once.
pub proof fn lemma_interface_adds_what_it_counted(
    ifaces: Seq<(Seq<char>, u64, u64)>,
    rows: Seq<(Seq<char>, u64, u64)>,
    row: (Seq<char>, u64, u64),
    j: int,
)
    requires
        0 <= j < ifaces.len() ==> ifaces[j].0 == row.0 && forall|i: int|
            j < i < ifaces.len() ==> (#[trigger] ifaces[i]).0 != row.0,
        !(0 <= j < ifaces.len()) ==> forall|i: int|
            0 <= i < ifaces.len() ==> (#[trigger] ifaces[i]).0 != row.0,
    ensures
        ({
            let (a, b) = (traffic(ifaces, rows, 0), traffic(ifaces, rows.push(row), 0));
            if 0 <= j < ifaces.len() {
                let (up, down) = (row.1 - ifaces[j].1, row.2 - ifaces[j].2);
                &&& b.0 == a.0 + if 0 <= up < 0x8000_0000 {
                    up
                } else {
                    0
                }
                &&& b.1 == a.1 + if 0 <= down < 0x8000_0000 {
                    down
                } else {
                    0
                }
            } else {
                a == b
            }
        }),
        traffic(ifaces, Seq::empty(), 0) == (0int, 0int),
{
    assert(rows.push(row).drop_last() =~= rows);
    if 0 <= j < ifaces.len() {
        lemma_last_counts(ifaces, j);
    } else {
        lemma_no_counts(ifaces, row.0);
    }
}

/// A counter of 32 bits that started over is followed around.
pub proof fn lemma_interface_is_followed_around(
    ifaces: Seq<(Seq<char>, u64, u64)>,
    rows: Seq<(Seq<char>, u64, u64)>,
    row: (Seq<char>, u64, u64),
    j: int,
    c: Counters,
)
    requires
        c is Table,
        0 <= j < ifaces.len(),
        ifaces[j].0 == row.0,
        forall|i: int| j < i < ifaces.len() ==> (#[trigger] ifaces[i]).0 != row.0,
        row.1 < 0x1_0000_0000,
        row.2 < 0x1_0000_0000,
        ifaces[j].1 < 0x1_0000_0000,
        ifaces[j].2 < 0x1_0000_0000,
    ensures
        ({
            let wrap = wrap_of(c);
            let (a, b) = (traffic(ifaces, rows, wrap), traffic(ifaces, rows.push(row), wrap));
            let (up, down) = (row.1 - ifaces[j].1, row.2 - ifaces[j].2);
            &&& 0 <= up < 0x8000_0000 ==> b.0 == a.0 + up
            &&& -0x1_0000_0000 <= up < -0x8000_0000 ==> b.0 == a.0 + up + 0x1_0000_0000
            &&& 0 <= down < 0x8000_0000 ==> b.1 == a.1 + down
            &&& -0x1_0000_0000 <= down < -0x8000_0000 ==> b.1 == a.1 + down + 0x1_0000_0000
        }),
{
    assert(rows.push(row).drop_last() =~= rows);
    lemma_last_counts(ifaces, j);
    lemma_counter_is_followed(row.1, ifaces[j].1, 0x1_0000_0000);
    lemma_counter_is_followed(row.2, ifaces[j].2, 0x1_0000_0000);
}

/// What the interfaces sent and received since the last look counts for the day: what was sent as
/// sent, and what was received as received. On another day the sums start over. The next look is
/// compared with this one, and where there are no counters nothing changes.
pub proof fn lemma_traffic_counts_for_the_day(now: NetNow, n: NetView, input: TickInput)
    requires
        shows_net(now, n.told(input), input),
        n.told(input).fits(),
    ensures
        now.available == !(input.counters is Unavailable),
        ({
            let t = match input.counters {
                Counters::Table(rows) => traffic(
                    n.ifaces,
                    ifaces_in_table(rows@),
                    0x1_0000_0000,
                ),
                Counters::Addresses(rows) => traffic(n.ifaces, ifaces_in_addresses(rows@), 0),
                Counters::Unavailable => (0int, 0int),
            };
            if input.today == n.today {
                now.up_today == n.up_today + t.0 && now.down_today == n.down_today + t.1
            } else {
                now.up_today == t.0 && now.down_today == t.1
            }
        }),
        ({
            match input.counters {
                Counters::Table(rows) => n.told(input).ifaces == ifaces_in_table(rows@),
                Counters::Addresses(rows) => n.told(input).ifaces == ifaces_in_addresses(rows@),
                Counters::Unavailable => n.told(input).ifaces == n.ifaces,
            }
        }),
{
    let b = n.on(input.today).counted(input.counters, input.now_ms);
    let c = b.refreshed(input.procs@, input.mono_ns);
    let events = all_changes(c.states, input.listing.obs(), input.day_start_ms, false);
    lemma_noted_grows(scan_base(c, input), events, false, 0);
    lemma_noted_keeps(scan_base(c, input), events, false);
}

/// Processes are looked for every five seconds, checkpoints every two, and what changed is saved
/// every half minute; each at once the first time.
pub proof fn lemma_when_things_are_due(n: NetView, mono: u64)
    ensures
        due(n.proc_refresh, mono, PROC_REFRESH_NS) == (n.proc_refresh matches Some(t) ==> mono
            > t + 5_000_000_000),
        due(n.ckpt_scan, mono, CKPT_SCAN_NS) == (n.ckpt_scan matches Some(t) ==> mono
            > t + 2_000_000_000),
        n.save_due(false, mono) == (n.dirty && (n.last_save matches Some(t) ==> mono
            > t + 30_000_000_000)),
        n.save_due(true, mono) == n.dirty,
{
}

/// An accepted checkpoint counts for the day with its size, is listed with its workspace, its size
/// and its time, and is to be saved; the last hundred are listed. The beginning and the end of an
/// upload are only noted.
pub proof fn lemma_accepted_checkpoint_counts(n: NetView, e: CkptEventView, backfill: bool)
    requires
        n.uploads.len() <= 100,
    ensures
        e.kind == "accepted"@ ==> {
            let m = n.noted(e, backfill);
            &&& m.ckpt_bytes == n.ckpt_bytes + e.bytes
            &&& m.ckpt_count == n.ckpt_count + 1
            &&& m.dirty
            &&& 0 < m.uploads.len() <= 100
            &&& m.uploads.last().workspace == e.workspace
            &&& m.uploads.last().bytes == e.bytes
            &&& m.uploads.last().recorded_ms == e.recorded_ms
            &&& m.uploads.last().accepted
            &&& n.uploads.len() < 100 ==> m.uploads.drop_last() == n.uploads
            &&& n.uploads.len() == 100 ==> m.uploads.drop_last() == n.uploads.skip(1)
        },
        e.kind != "accepted"@ ==> n.noted(e, backfill) == (NetView {
            pending: n.noted(e, backfill).pending,
            ..n
        }),
        n.noted(e, backfill).pending.drop_last() == n.pending,
        n.noted(e, backfill).pending.last() == {
            let ws = if e.workspace.len() > 0 {
                e.workspace
            } else {
                "?"@
            };
            if e.kind == "accepted"@ {
                NetEventView::Accepted { ws, bytes: e.bytes, backfill }
            } else if e.kind == "upload_start"@ {
                NetEventView::UploadStart { ws, bytes: e.bytes }
            } else {
                NetEventView::UploadEnd { ws }
            }
        },
        n.noted(e, backfill).pending.len() == n.pending.len() + 1,
{
    let m = n.noted(e, backfill);
    assert(m.pending.drop_last() =~= n.pending);
    let full = n.uploads.push(upload_row(e));
    assert(full.drop_last() =~= n.uploads);
    if n.uploads.len() == 100 {
        assert(full.skip(1).drop_last() =~= n.uploads.skip(1));
    }
}

/// The sizes of the artifacts that were accepted and not recorded before the day began.
pub open spec fn by_accepted_bytes(day_start: i64) -> spec_fn((Seq<char>, CkptStateView)) -> int {
    |o: (Seq<char>, CkptStateView)|
        if o.1.accepted_hash is Some && (o.1.recorded_at is None || o.1.recorded_at->0
            >= day_start) {
            o.1.artifact_bytes as int
        } else {
            0
        }
}

/// How many artifacts were accepted and not recorded before the day began.
pub open spec fn by_accepted(day_start: i64) -> spec_fn((Seq<char>, CkptStateView)) -> int {
    |o: (Seq<char>, CkptStateView)|
        if o.1.accepted_hash is Some && (o.1.recorded_at is None || o.1.recorded_at->0
            >= day_start) {
            1
        } else {
            0
        }
}

proof fn lemma_first_look_counts(
    n: NetView,
    obs: Seq<(Seq<char>, CkptStateView)>,
    day_start: i64,
)
    requires
        each_once(obs),
    ensures
        ({
            let m = n.all_noted(all_changes(Map::empty(), obs, day_start, true), true);
            &&& m.ckpt_bytes == n.ckpt_bytes + sum_of(obs, by_accepted_bytes(day_start))
            &&& m.ckpt_count == n.ckpt_count + sum_of(obs, by_accepted(day_start))
        }),
    decreases obs.len(),
{
    if obs.len() > 0 {
        let before = obs.drop_last();
        let last = obs[obs.len() - 1];
        assert forall|i: int, j: int|
            #![trigger before[i], before[j]]
            0 <= i < before.len() && 0 <= j < before.len() && i != j implies before[i].0
            != before[j].0 by {
            assert(before[i] == obs[i] && before[j] == obs[j]);
        }
        lemma_first_look_counts(n, before, day_start);
        assert forall|i: int| 0 <= i < before.len() implies (#[trigger] before[i]).0 != last.0 by {
            assert(before[i] == obs[i]);
            assert(obs[i].0 != obs[obs.len() - 1].0);
        }
        lemma_known(before, last.0);
        let events = all_changes(Map::empty(), before, day_start, true);
        let more = changes(None, last.1, day_start, true);
        let all = all_changes(Map::empty(), obs, day_start, true);
        assert(all =~= events + more);
        if more.len() > 0 {
            assert(all.drop_last() =~= events);
            assert(all.last() == more[0]);
        } else {
            assert(all =~= events);
        }
    }
}

/// Where nothing of the day was saved, the monitor makes up for it when it starts: every artifact
/// that was accepted and not recorded before the day began counts once.
pub proof fn lemma_start_makes_up_for_the_day(
    today: (i32, u32, u32),
    saved: Option<String>,
    listing: CkptListing,
    day_start: i64,
)
    requires
        is_new_day(today, saved),
        each_once(listing.obs()),
    ensures
        ({
            let n = started(today, saved, listing, day_start);
            &&& n.ckpt_bytes == sum_of(listing.obs(), by_accepted_bytes(day_start))
            &&& n.ckpt_count == sum_of(listing.obs(), by_accepted(day_start))
            &&& n.up_today == 0
            &&& n.down_today == 0
            &&& n.today == today
        }),
{
    let base = NetView {
        status: listing.status(),
        states: observed(Map::empty(), listing.obs()),
        ..restored(today, saved)
    };
    let events = all_changes(Map::empty(), listing.obs(), day_start, true);
    lemma_first_look_counts(base, listing.obs(), day_start);
    lemma_noted_grows(base, events, true, 0);
    lemma_noted_keeps(base, events, true);
}

/// After a look at the checkpoints an upload is shown where, and only where, a workspace is
/// uploading.
pub proof fn lemma_upload_is_shown(now: NetNow, n: NetView, input: TickInput)
    requires
        shows_net(now, n.told(input), input),
        n.ckpt_scan matches Some(t) ==> input.mono_ns > t + 2_000_000_000,
    ensures
        now.ckpt_uploading == exists|k: Seq<char>| #[trigger]
            n.told(input).states.dom().contains(k) && n.told(input).states[k].uploading,
        n.told(input).states == observed(n.states, input.listing.obs()),
        now.ckpt_status@ == match input.listing {
            CkptListing::Missing => "missing"@,
            CkptListing::Blocked => "blocked"@,
            CkptListing::Entries(_) => "ok"@,
        },
{
    let b = n.on(input.today).counted(input.counters, input.now_ms);
    let c = b.refreshed(input.procs@, input.mono_ns);
    let events = all_changes(c.states, input.listing.obs(), input.day_start_ms, false);
    lemma_noted_keeps(scan_base(c, input), events, false);
}

/// What was saved on one day is not read back on another.
pub proof fn lemma_saved_day_is_not_another(n: NetView, start: NetView)
    requires
        start.today != n.today,
    ensures
        start.loaded(day_doc(n)) == start,
        !is_of_day(day_doc(n), start.today),
{
    lemma_days_are_told_apart(start.today, n.today);
    reveal_strlit("day");
    reveal_strlit("up");
    reveal_strlit("down");
    reveal_strlit("ckpt");
    reveal_strlit("ckpt_count");
    reveal_strlit("uploads");
    assert("day"@.len() == 3 && "up"@.len() == 2 && "down"@.len() == 4 && "ckpt"@.len() == 4
        && "ckpt_count"@.len() == 10 && "uploads"@.len() == 7);
    assert(member(day_doc(n), "day"@) == Some(JsonView::Text(day_text(n.today))));
}

/// When processes were looked for, the monitor knows those of ZCode, parted by whether they carry
/// sessions.
pub proof fn lemma_processes_are_known(n: NetView, input: TickInput, pid: u32)
    requires
        n.proc_refresh matches Some(t) ==> input.mono_ns > t + 5_000_000_000,
    ensures
        n.told(input).cli.dom().contains(pid) == exists|i: int|
            0 <= i < input.procs@.len() && (#[trigger] input.procs@[i]).pid == pid && belongs(
                input.procs@[i],
                true,
            ),
        n.told(input).app.dom().contains(pid) == exists|i: int|
            0 <= i < input.procs@.len() && (#[trigger] input.procs@[i]).pid == pid && belongs(
                input.procs@[i],
                false,
            ),
{
    lemma_noting_keeps(n, input);
    lemma_processes_are_parted(input.procs@, true, pid);
    lemma_processes_are_parted(input.procs@, false, pid);
}

/// Every established connection of a process that carries sessions is shown with those, and one of
/// another process of ZCode with the others; and they are counted.
pub proof fn lemma_connections_are_shown(now: NetNow, n: NetView, input: TickInput, i: int)
    requires
        shows_net(now, n, input),
        input.tables is Some,
        0 <= i < (input.tables->0).short@.len(),
        (input.tables->0).short@[i].state == 5,
    ensures
        ({
            let row = (input.tables->0).short@[i];
            &&& n.cli.dom().contains(row.pid) ==> exists|k: int|
                0 <= k < now.cli_conn_list@.len() && (#[trigger] now.cli_conn_list@[k]).pid
                    == row.pid && now.cli_conn_list@[k].proc@ == n.cli[row.pid]
            &&& n.app.dom().contains(row.pid) && !n.cli.dom().contains(row.pid) ==> exists|k: int|
                0 <= k < now.app_conn_list@.len() && (#[trigger] now.app_conn_list@[k]).pid
                    == row.pid && now.app_conn_list@[k].proc@ == n.app[row.pid]
        }),
        now.conns_available,
        now.cli_conn_list@.len() <= u32::MAX ==> now.cli_conns == now.cli_conn_list@.len(),
        now.app_conn_list@.len() <= u32::MAX ==> now.app_conns == now.app_conn_list@.len(),
        forall|k: int|
            0 <= k < now.cli_conn_list@.len() ==> n.cli.dom().contains(
                (#[trigger] now.cli_conn_list@[k]).pid,
            ),
        forall|k: int|
            0 <= k < now.app_conn_list@.len() ==> n.app.dom().contains(
                (#[trigger] now.app_conn_list@[k]).pid,
            ) && !n.cli.dom().contains(now.app_conn_list@[k].pid),
{
    let t = input.tables->0;
    let row = t.short@[i];
    let (cli, app) = (now.cli_conn_list@, now.app_conn_list@);
    let (c, a) = (stat_conns(cli), stat_conns(app));
    let others = n.app.dom().difference(n.cli.dom());
    lemma_established_connections_are_listed(c, t, n.cli.dom(), i);
    lemma_established_connections_are_listed(a, t, others, i);
    let shown = (
        short_address(row.remote_addr) + seq![':'] + decimal(port_of(row.remote_port)),
        row.pid,
    );
    if n.cli.dom().contains(row.pid) {
        let k = choose|k: int| 0 <= k < c.len() && c[k] == shown;
        assert(cli[k].pid == row.pid);
    }
    if others.contains(row.pid) {
        let k = choose|k: int| 0 <= k < a.len() && a[k] == shown;
        assert(app[k].pid == row.pid);
    }
    assert forall|k: int| 0 <= k < cli.len() implies n.cli.dom().contains(
        (#[trigger] cli[k]).pid,
    ) by {
        assert(c[k].1 == cli[k].pid);
    }
    assert forall|k: int| 0 <= k < app.len() implies n.app.dom().contains((#[trigger] app[k]).pid)
        && !n.cli.dom().contains(app[k].pid) by {
        assert(a[k].1 == app[k].pid);
    }
}

/// A speed is never less than nothing, and never of less than a millisecond; where the newest sample
/// is not younger than the oldest, as after the clock was set back, there is none.
pub proof fn lemma_speed_is_never_negative(now: NetNow, n: NetView, input: TickInput, k: int)
    requires
        shows_net(now, n, input),
        times_fit(n.ring, n.ring.last().0),
        0 <= k < n.ring.len(),
        input.now_ms - n.ring[k].0 <= 1_000,
        forall|j: int| 0 <= j < k ==> input.now_ms - (#[trigger] n.ring[j]).0 > 1_000,
    ensures
        ({
            let (first, last) = (n.ring[k], n.ring[n.ring.len() - 1]);
            &&& n.ring[0].0 >= last.0 ==> now.up_bps == (Rate { tokens: 0, ms: 0 })
                && now.down_bps == (Rate { tokens: 0, ms: 0 })
            &&& first.1 > last.1 ==> now.up_bps.tokens == 0
            &&& first.2 > last.2 ==> now.down_bps.tokens == 0
            &&& n.ring[0].0 < last.0 <= first.0 ==> now.up_bps.ms == 1 && now.down_bps.ms == 1
        }),
{
    lemma_first_since_is_at(n.ring, input.now_ms - 1_000, 0, k);
}

/// A new day starts with nothing, and that is to be saved; what does not belong to a day goes on.
pub proof fn lemma_new_day_starts_with_nothing(n: NetView, today: (i32, u32, u32))
    ensures
        today == n.today ==> n.on(today) == n,
        today != n.today ==> {
            let m = n.on(today);
            &&& m.today == today
            &&& m.up_today == 0 && m.down_today == 0
            &&& m.ckpt_bytes == 0 && m.ckpt_count == 0
            &&& m.uploads.len() == 0
            &&& m.dirty
            &&& m.ring == n.ring
            &&& m.ifaces == n.ifaces
            &&& m.acc_up == n.acc_up && m.acc_down == n.acc_down
            &&& m.cli == n.cli && m.app == n.app
            &&& m.states == n.states && m.status == n.status && m.uploading == n.uploading
            &&& m.pending == n.pending
            &&& m.proc_refresh == n.proc_refresh && m.ckpt_scan == n.ckpt_scan && m.last_save
                == n.last_save
        },
{
}

/// Traffic of the day is to be saved, and so is an accepted checkpoint; a tick that saves leaves
/// nothing to be saved, and one that does not forgets nothing that is.
pub proof fn lemma_what_changed_is_saved(n: NetView, input: TickInput)
    ensures
        n.told(input).up_today > n.up_today && input.today == n.today ==> n.told(input).dirty,
        n.told(input).down_today > n.down_today && input.today == n.today ==> n.told(input).dirty,
        n.told(input).ckpt_count > n.ckpt_count && input.today == n.today ==> n.told(input).dirty,
        input.today != n.today ==> n.told(input).dirty,
        n.dirty ==> n.told(input).dirty,
        !n.told(input).dirty ==> n.ticked(input) == n.told(input),
        n.told(input).dirty && (n.last_save matches Some(t) ==> input.mono_ns > t
            + 30_000_000_000) ==> !n.ticked(input).dirty && n.ticked(input).last_save == Some(
            input.mono_ns,
        ),
        !(n.last_save matches Some(t) ==> input.mono_ns > t + 30_000_000_000) ==> n.ticked(input)
            == n.told(input),
{
    let b = n.on(input.today).counted(input.counters, input.now_ms);
    if let Some(rows) = ifaces_of(input.counters) {
        lemma_traffic_grows(n.ifaces, rows, wrap_of(input.counters), 0);
    }
    let c = b.refreshed(input.procs@, input.mono_ns);
    let base = scan_base(c, input);
    let events = all_changes(c.states, input.listing.obs(), input.day_start_ms, false);
    lemma_noted_is_dirty(base, events, false);
    lemma_noted_grows(base, events, false, 0);
}

proof fn lemma_noted_is_dirty(n: NetView, events: Seq<CkptEventView>, backfill: bool)
    ensures
        n.dirty ==> n.all_noted(events, backfill).dirty,
        n.all_noted(events, backfill).ckpt_count > n.ckpt_count ==> n.all_noted(
            events,
            backfill,
        ).dirty,
        n.all_noted(events, backfill).last_save == n.last_save,
    decreases events.len(),
{
    if events.len() > 0 {
        lemma_noted_is_dirty(n, events.drop_last(), backfill);
    }
}

proof fn lemma_noted_join(
    n: NetView,
    a: Seq<CkptEventView>,
    b: Seq<CkptEventView>,
    backfill: bool,
)
    ensures
        n.all_noted(a + b, backfill) == n.all_noted(a, backfill).all_noted(b, backfill),
    decreases b.len(),
{
    if b.len() == 0 {
        assert(a + b =~= a);
    } else {
        lemma_noted_join(n, a, b.drop_last(), backfill);
        assert((a + b).drop_last() =~= a + b.drop_last());
        assert((a + b).last() == b.last());
    }
}

/// The artifact is one that was accepted since the workspace was last looked at, and not recorded
/// before the day began.
pub open spec fn newly_accepted(
    states: Map<Seq<char>, CkptStateView>,
    o: (Seq<char>, CkptStateView),
    day_start: i64,
) -> bool {
    &&& states.dom().contains(o.0)
    &&& o.1.accepted_hash is Some
    &&& states[o.0].accepted_hash != o.1.accepted_hash
    &&& o.1.recorded_at is None || o.1.recorded_at->0 >= day_start
}

/// The sizes of the artifacts that were newly accepted.
pub open spec fn by_news_bytes(states: Map<Seq<char>, CkptStateView>, day_start: i64) -> spec_fn(
    (Seq<char>, CkptStateView),
) -> int {
    |o: (Seq<char>, CkptStateView)|
        if newly_accepted(states, o, day_start) {
            o.1.artifact_bytes as int
        } else {
            0
        }
}

/// How many artifacts were newly accepted.
pub open spec fn by_news(states: Map<Seq<char>, CkptStateView>, day_start: i64) -> spec_fn(
    (Seq<char>, CkptStateView),
) -> int {
    |o: (Seq<char>, CkptStateView)|
        if newly_accepted(states, o, day_start) {
            1
        } else {
            0
        }
}

proof fn lemma_changes_count(
    n: NetView,
    states: Map<Seq<char>, CkptStateView>,
    o: (Seq<char>, CkptStateView),
    day_start: i64,
)
    ensures
        ({
            let m = n.all_noted(changes(lookup(states, o.0), o.1, day_start, false), false);
            &&& m.ckpt_bytes == n.ckpt_bytes + by_news_bytes(states, day_start)(o)
            &&& m.ckpt_count == n.ckpt_count + by_news(states, day_start)(o)
        }),
{
    reveal_strlit("accepted");
    reveal_strlit("upload_start");
    reveal_strlit("upload_end");
    assert("accepted"@[0] != "upload_start"@[0] && "accepted"@[0] != "upload_end"@[0]);
    let c = changes(lookup(states, o.0), o.1, day_start, false);
    if c.len() > 0 {
        let d = c.drop_last();
        assert(n.all_noted(c, false) == n.all_noted(d, false).noted(c.last(), false));
        if d.len() > 0 {
            assert(d.drop_last() =~= Seq::empty());
            assert(n.all_noted(d, false) == n.all_noted(Seq::empty(), false).noted(d.last(), false));
            assert(d.last() == c[0]);
        } else {
            assert(d =~= Seq::empty());
        }
        assert(n.all_noted(Seq::empty(), false) == n);
    }
}

proof fn lemma_look_counts(
    n: NetView,
    states: Map<Seq<char>, CkptStateView>,
    obs: Seq<(Seq<char>, CkptStateView)>,
    day_start: i64,
)
    requires
        each_once(obs),
    ensures
        ({
            let m = n.all_noted(all_changes(states, obs, day_start, false), false);
            &&& m.ckpt_bytes == n.ckpt_bytes + sum_of(obs, by_news_bytes(states, day_start))
            &&& m.ckpt_count == n.ckpt_count + sum_of(obs, by_news(states, day_start))
        }),
    decreases obs.len(),
{
    if obs.len() > 0 {
        let before = obs.drop_last();
        let last = obs[obs.len() - 1];
        assert forall|i: int, j: int|
            #![trigger before[i], before[j]]
            0 <= i < before.len() && 0 <= j < before.len() && i != j implies before[i].0
            != before[j].0 by {
            assert(before[i] == obs[i] && before[j] == obs[j]);
        }
        lemma_look_counts(n, states, before, day_start);
        assert forall|i: int| 0 <= i < before.len() implies (#[trigger] before[i]).0 != last.0 by {
            assert(before[i] == obs[i]);
            assert(obs[i].0 != obs[obs.len() - 1].0);
        }
        lemma_look_leaves_what_was_observed(states, before, last.0);
        let events = all_changes(states, before, day_start, false);
        let more = changes(lookup(states, last.0), last.1, day_start, false);
        lemma_noted_join(n, events, more, false);
        lemma_changes_count(n.all_noted(events, false), states, last, day_start);
    }
}

/// A look at the checkpoints counts each artifact that was accepted since the last one, of the
/// workspaces that were known then, and no other. Between two looks nothing changes.
pub proof fn lemma_look_counts_what_was_accepted(now: NetNow, n: NetView, input: TickInput)
    requires
        shows_net(now, n.told(input), input),
        input.today == n.today,
        each_once(input.listing.obs()),
    ensures
        ({
            let due = n.ckpt_scan matches Some(t) ==> input.mono_ns > t + 2_000_000_000;
            let obs = input.listing.obs();
            &&& due ==> {
                &&& now.ckpt_today_bytes == n.ckpt_bytes + sum_of(
                    obs,
                    by_news_bytes(n.states, input.day_start_ms),
                )
                &&& now.ckpt_today_count == n.ckpt_count + sum_of(
                    obs,
                    by_news(n.states, input.day_start_ms),
                )
            }
            &&& !due ==> {
                &&& now.ckpt_today_bytes == n.ckpt_bytes
                &&& now.ckpt_today_count == n.ckpt_count
                &&& now.ckpt_uploading == n.uploading
                &&& now.ckpt_status@ == n.status
                &&& n.told(input).states == n.states
                &&& n.told(input).pending == n.pending
                &&& row_views(now.ckpt_today_list@) == n.uploads
            }
        }),
{
    let b = n.on(input.today).counted(input.counters, input.now_ms);
    let c = b.refreshed(input.procs@, input.mono_ns);
    lemma_look_counts(scan_base(c, input), n.states, input.listing.obs(), input.day_start_ms);
}

/// Every change makes one note, in the order in which they came; and an acceptance is noted as made
/// up for where it is.
pub proof fn lemma_every_change_is_noted(
    n: NetView,
    events: Seq<CkptEventView>,
    backfill: bool,
    i: int,
)
    requires
        0 <= i < events.len(),
    ensures
        ({
            let m = n.all_noted(events, backfill);
            let note = m.pending[n.pending.len() + i];
            &&& m.pending.len() == n.pending.len() + events.len()
            &&& m.pending.take(n.pending.len() as int) == n.pending
            &&& events[i].kind == "accepted"@ ==> (note matches NetEventView::Accepted {
                ws,
                bytes,
                backfill: b,
            } && bytes == events[i].bytes && b == backfill && (events[i].workspace.len() > 0 ==> ws
                == events[i].workspace))
            &&& events[i].kind == "upload_start"@ ==> note is UploadStart
            &&& events[i].kind != "accepted"@ && events[i].kind != "upload_start"@ ==> note
                is UploadEnd
        }),
    decreases events.len(),
{
    reveal_strlit("accepted");
    reveal_strlit("upload_start");
    assert("accepted"@[0] != "upload_start"@[0]);
    let before = events.drop_last();
    let m = n.all_noted(events, backfill);
    if before.len() > 0 {
        let k = if i < before.len() {
            i
        } else {
            0
        };
        lemma_every_change_is_noted(n, before, backfill, k);
        assert(m.pending.take(n.pending.len() as int) =~= n.all_noted(
            before,
            backfill,
        ).pending.take(n.pending.len() as int));
    } else {
        assert(n.all_noted(before, backfill) == n);
        assert(m.pending.take(n.pending.len() as int) =~= n.pending);
    }
}

/// While the monitor runs no acceptance is made up for, and when it starts all are.
pub proof fn lemma_made_up_for_at_the_start_only(
    n: NetView,
    input: TickInput,
    saved: Option<String>,
    i: int,
)
    ensures
        n.pending.len() <= i < n.told(input).pending.len() && n.told(input).pending[i] is Accepted
            ==> !(n.told(input).pending[i]->backfill),
        ({
            let s = started(input.today, saved, input.listing, input.day_start_ms);
            &&& 0 <= i < s.pending.len() && s.pending[i] is Accepted && is_new_day(
                input.today,
                saved,
            ) ==> s.pending[i]->backfill
            &&& s.states == observed(Map::empty(), input.listing.obs())
            &&& s.status == input.listing.status()
        }),
{
    let b = n.on(input.today).counted(input.counters, input.now_ms);
    let c = b.refreshed(input.procs@, input.mono_ns);
    let events = all_changes(c.states, input.listing.obs(), input.day_start_ms, false);
    let base = scan_base(c, input);
    if events.len() > 0 {
        lemma_every_change_is_noted(base, events, false, 0);
        let k = i - n.pending.len();
        if 0 <= k < events.len() {
            lemma_every_change_is_noted(base, events, false, k);
        }
    }
    let fresh = is_new_day(input.today, saved);
    let first = NetView {
        status: input.listing.status(),
        states: observed(Map::empty(), input.listing.obs()),
        ..restored(input.today, saved)
    };
    let all = all_changes(Map::empty(), input.listing.obs(), input.day_start_ms, fresh);
    lemma_noted_keeps(first, all, fresh);
    if all.len() > 0 {
        lemma_every_change_is_noted(first, all, fresh, 0);
        if 0 <= i < all.len() {
            lemma_every_change_is_noted(first, all, fresh, i);
        }
    }
}

/// A monitor that starts without anything saved has counted nothing, knows nothing and has looked
/// at nothing.
pub proof fn lemma_first_start_knows_nothing(today: (i32, u32, u32))
    ensures
        ({
            let n = restored(today, None);
            &&& n.today == today
            &&& n.up_today == 0 && n.down_today == 0 && n.acc_up == 0 && n.acc_down == 0
            &&& n.ckpt_bytes == 0 && n.ckpt_count == 0 && n.uploads.len() == 0
            &&& n.ring.len() == 0 && n.ifaces.len() == 0 && n.pending.len() == 0
            &&& n.proc_refresh is None && n.ckpt_scan is None && n.last_save is None
            &&& !n.dirty && !n.uploading
        }),
        is_new_day(today, None),
{
}

/// What a saved day does not say counts as nothing; and no more than a hundred uploads are read
/// back.
pub proof fn lemma_missing_sums_are_nothing(n: NetView, v: JsonView)
    requires
        is_of_day(v, n.today),
    ensures
        as_natural(member(v, "up"@)) is None ==> n.loaded(v).up_today == 0,
        as_natural(member(v, "down"@)) is None ==> n.loaded(v).down_today == 0,
        as_natural(member(v, "ckpt"@)) is None ==> n.loaded(v).ckpt_bytes == 0,
        as_natural(member(v, "ckpt_count"@)) is None ==> n.loaded(v).ckpt_count == 0,
        as_list(member(v, "uploads"@)) is None ==> n.loaded(v).uploads.len() == 0,
        n.loaded(v).uploads.len() <= 100,
        as_list(member(v, "uploads"@)) matches Some(items) ==> {
            &&& items.len() <= 100 ==> n.loaded(v).uploads.len() == items.len()
            &&& forall|i: int|
                0 <= i < n.loaded(v).uploads.len() ==> {
                    let u = #[trigger] n.loaded(v).uploads[i];
                    &&& as_natural(member(items[i], "bytes"@)) matches Some(b) ==> u.bytes == b
                    &&& as_integer(member(items[i], "at"@)) matches Some(t) ==> u.recorded_ms == t
                    &&& as_text(member(items[i], "ws"@)) matches Some(w) ==> u.workspace == w
                    &&& u.accepted && !u.uploading && u.hash is None
                }
        },
{
}

/// What a saved upload does not say is not known: its workspace is shown by a question mark, and it
/// has no size and no time.
pub proof fn lemma_unknown_upload_is_read_as_such(n: NetView, v: JsonView, i: int)
    requires
        is_of_day(v, n.today),
        as_list(member(v, "uploads"@)) is Some,
        0 <= i < n.loaded(v).uploads.len(),
    ensures
        ({
            let item = (as_list(member(v, "uploads"@))->0)[i];
            let u = n.loaded(v).uploads[i];
            &&& as_integer(member(item, "at"@)) is None ==> u.recorded_ms == 0
            &&& as_natural(member(item, "bytes"@)) is None ==> u.bytes == 0
            &&& as_text(member(item, "ws"@)) is None ==> u.workspace == "?"@
        }),
{
}

/// Processes are looked for at once, and then every five seconds; in between those that were found
/// are the known ones.
pub proof fn lemma_processes_are_kept_for_five_seconds(n: NetView, input: TickInput)
    ensures
        (n.proc_refresh matches Some(t) && input.mono_ns <= t + 5_000_000_000) ==> n.told(input).cli
            == n.cli && n.told(input).app == n.app && n.told(input).proc_refresh == n.proc_refresh,
        !(n.proc_refresh matches Some(t) && input.mono_ns <= t + 5_000_000_000) ==> n.told(
            input,
        ).proc_refresh == Some(input.mono_ns) && n.told(input).cli == by_pid(
            group_of(input.procs@, true),
        ) && n.told(input).app == by_pid(group_of(input.procs@, false)),
{
    let b = n.on(input.today).counted(input.counters, input.now_ms);
    let c = b.refreshed(input.procs@, input.mono_ns);
    let events = all_changes(c.states, input.listing.obs(), input.day_start_ms, false);
    lemma_noted_keeps(scan_base(c, input), events, false);
    lemma_noted_leaves_times(scan_base(c, input), events, false);
}

proof fn lemma_noted_leaves_times(n: NetView, events: Seq<CkptEventView>, backfill: bool)
    ensures
        n.all_noted(events, backfill).proc_refresh == n.proc_refresh,
    decreases events.len(),
{
    if events.len() > 0 {
        lemma_noted_leaves_times(n, events.drop_last(), backfill);
    }
}

} // verus!
