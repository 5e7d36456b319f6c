//! The network monitor.

use speed_panel::ckpt::{scan_ckpt_states, workspace_name, CkptListing};
use speed_panel::metrics::Rate;
use speed_panel::monitor::{NetEvent, NetIo, NetNow, TickInput};
use speed_panel::platform::{Counters, IfAddr, ProcRow};

const DAY: (i32, u32, u32) = (2026, 9, 19);
const NEXT_DAY: (i32, u32, u32) = (2026, 9, 20);
const START: i64 = 1_790_000_000_000;
const SECOND: u64 = 1_000_000_000;

fn state(path: &str, hash: &str, bytes: u64, at: i64, active: &str) -> String {
    format!(
        r#"{{"workspacePath":"{path}","lastCompressedSize":{{"encryptedSizeBytes":{bytes},"manifestHash":"h","recordedAt":{at}}},"lastAcceptedManifestHash":"{hash}","activeUpload":{active}}}"#
    )
}

fn listing(states: Vec<(&str, String)>) -> CkptListing {
    CkptListing::Entries(states.into_iter().map(|(d, s)| (d.to_string(), Some(s))).collect())
}

fn input(day: (i32, u32, u32), now_ms: i64, mono_ns: u64, up: u64, down: u64, list: CkptListing) -> TickInput {
    TickInput {
        today: day,
        day_start_ms: START,
        now_ms,
        mono_ns,
        counters: Counters::Addresses(vec![IfAddr { name: "en0".into(), out_bytes: up, in_bytes: down }]),
        procs: Vec::new(),
        tables: None,
        listing: list,
    }
}

fn tick(io: &mut NetIo, i: &TickInput) -> (NetNow, Option<String>) {
    assert!(io.accepts(i));
    io.tick(i)
}

fn fresh() -> NetIo {
    NetIo::checked_new(DAY, &None, &CkptListing::Missing, START).unwrap()
}

#[test]
fn traffic_is_counted_from_the_second_look_on() {
    let mut io = fresh();
    let (n, _) = tick(&mut io, &input(DAY, START, 0, 1_000, 5_000, CkptListing::Missing));
    assert!(n.available);
    assert_eq!((n.up_today, n.down_today), (0, 0));
    assert_eq!(n.up_bps, Rate::none());
    let (n, saved) = tick(&mut io, &input(DAY, START + 500, SECOND, 1_700, 9_000, CkptListing::Missing));
    assert_eq!((n.up_today, n.down_today), (700, 4_000));
    assert_eq!(n.up_bps, Rate { tokens: 700, ms: 500 });
    assert_eq!(n.down_bps, Rate { tokens: 4_000, ms: 500 });
    assert!(!n.conns_available);
    assert!(saved.is_some());
    let (n, saved) = tick(&mut io, &input(DAY, START + 900, 2 * SECOND, 600, 9_100, CkptListing::Missing));
    assert_eq!((n.up_today, n.down_today), (700, 4_100));
    assert!(saved.is_none());
}

#[test]
fn sums_start_over_on_another_day() {
    let mut io = fresh();
    tick(&mut io, &input(DAY, START, 0, 0, 0, CkptListing::Missing));
    let (n, _) = tick(&mut io, &input(DAY, START + 1, 1, 50, 60, CkptListing::Missing));
    assert_eq!(n.up_today, 50);
    let (n, _) = tick(&mut io, &input(NEXT_DAY, START + 2, 2, 55, 70, CkptListing::Missing));
    assert_eq!((n.up_today, n.down_today), (5, 10));
}

#[test]
fn no_counters_no_speed() {
    let mut io = fresh();
    let mut i = input(DAY, START, 0, 0, 0, CkptListing::Blocked);
    i.counters = Counters::Unavailable;
    let (n, _) = tick(&mut io, &i);
    assert!(!n.available);
    assert_eq!(n.up_bps, Rate::none());
}

#[test]
fn processes_and_checkpoints_are_due_now_and_then() {
    let mut io = fresh();
    assert!(io.procs_due(0));
    assert!(io.scan_due(0));
    tick(&mut io, &input(DAY, START, SECOND, 0, 0, CkptListing::Missing));
    assert!(!io.procs_due(6 * SECOND));
    assert!(io.procs_due(6 * SECOND + 1));
    assert!(!io.scan_due(3 * SECOND));
    assert!(io.scan_due(3 * SECOND + 1));
}

#[test]
fn accepted_checkpoints_count_once() {
    let mut io = fresh();
    let one = |hash: &str, active: &str| listing(vec![("d1", state("/w/one", hash, 40, START + 9, active))]);
    tick(&mut io, &input(DAY, START, 0, 0, 0, one("", "null")));
    assert!(io.take_events().is_empty());
    let (n, _) = tick(&mut io, &input(DAY, START, 10 * SECOND, 0, 0, one("", "{}")));
    assert!(n.ckpt_uploading);
    let (n, _) = tick(&mut io, &input(DAY, START, 20 * SECOND, 0, 0, one("h", "null")));
    assert!(!n.ckpt_uploading);
    assert_eq!((n.ckpt_today_bytes, n.ckpt_today_count), (40, 1));
    assert_eq!(n.ckpt_today_list.len(), 1);
    assert_eq!(n.ckpt_list.len(), 1);
    assert_eq!(n.ckpt_list[0].hash.as_deref(), Some("d1"));
    let (n, _) = tick(&mut io, &input(DAY, START, 30 * SECOND, 0, 0, one("h", "null")));
    assert_eq!(n.ckpt_today_count, 1);
    let events = io.take_events();
    assert_eq!(events.len(), 3);
    assert_eq!(events[0], NetEvent::UploadStart { ws: "one".into(), bytes: 40 });
    assert!(events.contains(&NetEvent::UploadEnd { ws: "one".into() }));
    assert!(events.contains(&NetEvent::Accepted { ws: "one".into(), bytes: 40, backfill: false }));
    assert!(io.take_events().is_empty());
}

/// On the first start of a day what was accepted today is made up for; later starts take up what
/// was saved, and count nothing twice.
#[test]
fn restart_counts_nothing_twice() {
    let disk = || listing(vec![("d1", state("/w/one", "h", 40, START + 9, "null"))]);
    let mut io = NetIo::checked_new(DAY, &None, &disk(), START).unwrap();
    assert_eq!(io.take_events(), vec![NetEvent::Accepted { ws: "one".into(), bytes: 40, backfill: true }]);
    tick(&mut io, &input(DAY, START, 0, 100, 100, disk()));
    tick(&mut io, &input(DAY, START + 1, 1, 130, 150, disk()));
    let saved = Some(io.save_forced(2));
    let mut again = NetIo::checked_new(DAY, &saved, &disk(), START).unwrap();
    let (n, _) = tick(&mut again, &input(DAY, START + 2, 3, 500, 500, disk()));
    assert_eq!((n.up_today, n.down_today), (30, 50));
    assert_eq!((n.ckpt_today_bytes, n.ckpt_today_count), (40, 1));
    assert_eq!(n.ckpt_today_list.len(), 1);
    assert_eq!(n.ckpt_today_list[0].workspace, "one");
    assert_eq!(n.ckpt_today_list[0].recorded_ms, START + 9);
    let mut next = NetIo::checked_new(NEXT_DAY, &saved, &CkptListing::Missing, START + 86_400_000).unwrap();
    let (n, _) = tick(&mut next, &input(NEXT_DAY, START + 3, 4, 1, 1, CkptListing::Missing));
    assert_eq!((n.up_today, n.ckpt_today_count), (0, 0));
}

#[test]
fn broken_files_are_no_start() {
    let broken = Some("{".to_string());
    let mut io = NetIo::new(DAY, &broken, &CkptListing::Missing, START);
    let (n, _) = tick(&mut io, &input(DAY, START, 0, 9, 9, CkptListing::Missing));
    assert_eq!(n.up_today, 0);
    assert!(!io.load_persisted(&Some(r#"{"day":"2026-09-19","up":5,"down":"x"}"#.to_string())));
    let (n, _) = tick(&mut io, &input(DAY, START, 0, 9, 9, CkptListing::Missing));
    assert_eq!((n.up_today, n.down_today), (5, 0));
}

#[test]
fn sums_that_would_not_fit_are_refused() {
    let mut io = fresh();
    let full = format!(r#"{{"day":"2026-09-19","up":{},"down":0}}"#, u64::MAX);
    assert!(!io.load_persisted(&Some(full)));
    tick(&mut io, &input(DAY, START, 0, 0, 0, CkptListing::Missing));
    let more = input(DAY, START, 0, 1, 0, CkptListing::Missing);
    assert!(!io.accepts(&more));
    assert!(io.checked_tick(&more).is_none());
    assert!(io.checked_tick(&input(DAY, START, 0, 0, 0, CkptListing::Missing)).is_some());
    let mut p = input(DAY, START, 0, 0, 0, CkptListing::Missing);
    p.procs = vec![ProcRow { pid: 1, exe: "x".into(), cmdline: None }];
    p.now_ms = i64::MIN;
    assert!(!io.accepts(&p));
    assert!(io.checked_tick(&p).is_none());
    p.now_ms = i64::MAX;
    assert!(io.checked_tick(&p).is_some());
}

#[test]
fn any_time_is_a_time() {
    let mut io = fresh();
    tick(&mut io, &input(DAY, i64::MIN, 0, 0, 0, CkptListing::Missing));
    let (n, _) = tick(&mut io, &input(DAY, i64::MIN + 500, 0, 1000, 0, CkptListing::Missing));
    assert_eq!(n.up_bps, Rate { tokens: 1000, ms: 500 });
    assert!(!io.accepts(&input(DAY, i64::MAX, 0, 0, 0, CkptListing::Missing)));
    let mut late = fresh();
    tick(&mut late, &input(DAY, i64::MAX - 500, 0, 0, 0, CkptListing::Missing));
    let (n, _) = tick(&mut late, &input(DAY, i64::MAX, 0, 1000, 0, CkptListing::Missing));
    assert_eq!(n.up_bps, Rate { tokens: 1000, ms: 500 });
}

#[test]
fn states_are_listed_by_directory() {
    let l = CkptListing::Entries(vec![
        ("a".into(), Some(state("C:\\\\x\\\\ws", "", 1, 2, "null"))),
        ("b".into(), Some("{".into())),
        ("c".into(), None),
    ]);
    let (status, obs) = scan_ckpt_states(&l);
    assert_eq!(status, "ok");
    assert_eq!(obs.len(), 1);
    assert_eq!(obs[0].0, "a");
    assert_eq!(obs[0].1.workspace, "ws");
    assert_eq!(scan_ckpt_states(&CkptListing::Missing).1.len(), 0);
    assert_ne!(
        scan_ckpt_states(&CkptListing::Missing).0,
        scan_ckpt_states(&CkptListing::Blocked).0
    );
    assert_eq!(workspace_name("/a/b/"), "b");
    assert_eq!(workspace_name("C:\\p\\q"), "q");
}
