//! The guard over the checkpoints.

use speed_panel::ckpt::CkptListing;
use speed_panel::metrics::CkptStat;
use speed_panel::snapshot_guard::{
    accrue_rounds, checked_summary, merge_history, parse_state_summary, scan_directory,
    summarize_scans, valid_hash_name,
    ApplyNext, ApplyStep, GuardFile, GuardReply, ScanSummary, SnapshotGuard, StateSummary,
    WorkspaceDir,
};

/// What the state of a workspace tells, and what all of them do together; one that cannot be read
/// still counts as a workspace.
#[test]
fn state_summary_parse_and_aggregate() {
    let ok = parse_state_summary(
        r#"{"workspacePath":"/Users/x/proj","failureCount":3,
            "lastCompressedSize":{"encryptedSizeBytes":100,"workspaceSizeBytes":200}}"#,
    )
    .expect("a state");
    assert_eq!(ok.failure_count, 3);
    assert_eq!(parse_state_summary(r#"{"workspacePath":"x"}"#).unwrap().failure_count, 0);
    assert!(parse_state_summary("{oops").is_none());
    assert!(parse_state_summary("[]").is_none());

    let scans = vec![
        (Some(ok), vec![100, 50]),
        (None, vec![549_000_000]),
        (Some(StateSummary { failure_count: 7 }), vec![]),
    ];
    let s = summarize_scans(&scans);
    assert_eq!(s.workspace_count, 3);
    assert_eq!(s.artifact_count, 3);
    assert_eq!(s.artifact_bytes, 549_000_150);
    assert_eq!(s.failure_count, 10);
    assert_eq!(summarize_scans(&[]), ScanSummary::default());
}

/// Only calls that were made in between count, over a new day and over a restart.
#[test]
fn accrue_rounds_counts_real_delta_only() {
    assert_eq!(accrue_rounds(5, 100, 120), (25, 120));
    assert_eq!(accrue_rounds(5, 200, 50), (5, 50));
    assert_eq!(accrue_rounds(0, 456, 470), (14, 470));
    assert_eq!(accrue_rounds(0, 0, 0), (0, 0));
}

fn row(ws: &str, ms: i64, bytes: u64) -> CkptStat {
    CkptStat {
        workspace: ws.into(),
        bytes,
        recorded_ms: ms,
        accepted: true,
        uploading: false,
        hash: None,
    }
}

/// A new row takes the place of an old one of its workspace, the others stay; the newest come
/// first, and there are not too many.
#[test]
fn merge_history_replaces_same_workspace_keeps_rest() {
    let old = vec![row("a", 100, 10), row("b", 200, 20), row("c", 300, 30)];
    let new = vec![row("b", 900, 99), row("d", 800, 40)];
    let merged = merge_history(old, new);
    let names: Vec<&str> = merged.iter().map(|r| r.workspace.as_str()).collect();
    assert_eq!(names, vec!["b", "d", "c", "a"]);
    assert_eq!(merged[0].bytes, 99);
    let many = (0..600).map(|i| row(&format!("w{i}"), i, 1)).collect();
    assert_eq!(merge_history(Vec::new(), many).len(), 500);
    assert_eq!(merge_history(Vec::new(), Vec::new()), Vec::new());
}

#[test]
fn valid_hash_name_rejects_traversal() {
    assert!(valid_hash_name("ab12cd34"));
    assert!(valid_hash_name("A-b_C9"));
    assert!(!valid_hash_name(""));
    assert!(!valid_hash_name(".."));
    assert!(!valid_hash_name("a/b"));
    assert!(!valid_hash_name("a\\b"));
    assert!(!valid_hash_name("/etc"));
    assert!(!valid_hash_name(".hidden"));
    assert!(!valid_hash_name("a b"));
    assert!(!valid_hash_name("哈希"));
    assert!(!valid_hash_name(&"x".repeat(129)));
}

const SECOND: u64 = 1_000_000_000;

fn scan(n: u64) -> ScanSummary {
    ScanSummary { artifact_count: n, artifact_bytes: 10 * n, workspace_count: 1, failure_count: 0 }
}

#[test]
fn locked_directory_counts_rounds() {
    let mut g = SnapshotGuard::new(true, GuardFile::default(), Vec::new());
    let (s, save) = g.tick(100, 5_000, 0, Some((true, scan(3))));
    assert!(save);
    assert!(s.locked && s.supported);
    assert_eq!(s.locked_since_ms, Some(5_000));
    assert_eq!((s.blocked_rounds, s.artifact_count), (0, 3));
    let (s, save) = g.tick(104, 6_000, SECOND, Some((true, scan(9))));
    assert!(save);
    assert_eq!((s.blocked_rounds, s.artifact_count), (4, 3));
    let (s, save) = g.tick(104, 7_000, 6 * SECOND, Some((true, scan(9))));
    assert!(!save);
    assert_eq!((s.blocked_rounds, s.artifact_count), (4, 9));
    assert_eq!(g.last_calls_seen(), 104);

    // Started again, it goes on from what was saved.
    let mut again = SnapshotGuard::new(true, g.file, Vec::new());
    let (s, _) = again.tick(110, 8_000, 0, Some((true, scan(9))));
    assert_eq!(s.blocked_rounds, 10);
    assert_eq!(s.locked_since_ms, Some(5_000));

    // Unlocked by somebody else, it forgets.
    let (s, save) = again.tick(111, 9_000, 1, Some((false, scan(9))));
    assert!(save && !s.locked);
    assert_eq!(s.locked_since_ms, None);
    assert_eq!(again.file, GuardFile::default());
    let (_, save) = again.tick(112, 9_500, 2, Some((false, scan(9))));
    assert!(!save);
}

#[test]
fn unknown_directory_shows_nothing() {
    let mut g = SnapshotGuard::new(true, GuardFile::default(), vec![row("a", 1, 2)]);
    let (s, save) = g.tick(1, 2, 3, None);
    assert!(!save && s.supported && !s.locked);
    assert!(s.history.is_empty());
    assert_eq!(g.status(false).history, vec![row("a", 1, 2)]);
    assert!(g.scan_due(0));
}

fn listing() -> CkptListing {
    CkptListing::Entries(vec![(
        "d1".into(),
        Some(
            r#"{"workspacePath":"/w/one","lastCompressedSize":{"encryptedSizeBytes":5,"manifestHash":"h","recordedAt":9},"lastAcceptedManifestHash":"h"}"#
                .into(),
        ),
    )])
}

fn answer(step: ApplyStep, locked_first: bool) -> GuardReply {
    match step {
        ApplyStep::Probe => GuardReply::Locked(locked_first),
        ApplyStep::Check => GuardReply::Locked(true),
        ApplyStep::List => GuardReply::Listing(listing()),
        ApplyStep::Rescan => GuardReply::Scan(scan(7)),
        _ => GuardReply::Done,
    }
}

fn run(g: &mut SnapshotGuard, keep: bool, locked_first: bool) -> (Vec<ApplyStep>, ApplyNext) {
    let mut run = g.apply(50, 1_234, keep, true).unwrap();
    let mut steps = Vec::new();
    loop {
        steps.push(run.step);
        match g.apply_next(run, answer(run.step, locked_first), 0) {
            ApplyNext::Next(next) => run = next,
            end => return (steps, end),
        }
    }
}

#[test]
fn checkpoints_are_archived_before_they_are_cleared() {
    let mut g = SnapshotGuard::new(true, GuardFile::default(), vec![row("old", 4, 2)]);
    let (steps, end) = run(&mut g, false, false);
    assert_eq!(
        steps,
        vec![
            ApplyStep::Probe,
            ApplyStep::List,
            ApplyStep::SaveHistory,
            ApplyStep::Clear,
            ApplyStep::Create,
            ApplyStep::LockRoot,
            ApplyStep::Check,
            ApplyStep::SaveFile,
        ]
    );
    let s = match end {
        ApplyNext::Done(s) => s,
        other => panic!("{other:?}"),
    };
    assert!(s.locked);
    assert_eq!(s.locked_since_ms, Some(1_234));
    assert_eq!(s.artifact_count, 0);
    let names: Vec<&str> = s.history.iter().map(|r| r.workspace.as_str()).collect();
    assert_eq!(names, vec!["one", "old"]);
    assert_eq!(
        g.file,
        GuardFile { locked_since_ms: Some(1_234), calls_baseline: Some(50), blocked_rounds: 0, calls_seen: 50 }
    );
}

#[test]
fn kept_checkpoints_are_locked_as_they_are() {
    let mut g = SnapshotGuard::new(true, GuardFile::default(), Vec::new());
    let (steps, end) = run(&mut g, true, true);
    assert_eq!(
        steps,
        vec![
            ApplyStep::Probe,
            ApplyStep::Unlock,
            ApplyStep::Create,
            ApplyStep::LockTree,
            ApplyStep::Check,
            ApplyStep::Rescan,
            ApplyStep::SaveFile,
        ]
    );
    match end {
        ApplyNext::Done(s) => assert_eq!((s.artifact_count, s.history.len()), (7, 0)),
        other => panic!("{other:?}"),
    }
}

#[test]
fn a_step_that_fails_ends_the_setup() {
    let fail = |step: ApplyStep, reply: GuardReply| {
        let mut g = SnapshotGuard::new(true, GuardFile::default(), Vec::new());
        let mut r = g.apply(1, 2, false, true).unwrap();
        r.step = step;
        match g.apply_next(r, reply, 0) {
            ApplyNext::Failed(e) => e,
            other => panic!("{other:?}"),
        }
    };
    let failed = || GuardReply::Failed("x".into());
    assert_eq!(fail(ApplyStep::Unlock, failed()), "x");
    assert_eq!(fail(ApplyStep::Clear, failed()), "清空 checkpoints 失败: x");
    assert_eq!(fail(ApplyStep::Create, failed()), "重建 checkpoints 目录失败: x");
    assert_eq!(fail(ApplyStep::LockRoot, failed()), "x");
    assert_eq!(
        fail(ApplyStep::Check, GuardReply::Locked(false)),
        "锁定未生效（写入探测仍成功），请检查目录权限"
    );
}

#[test]
fn guard_needs_a_lock_and_a_directory() {
    let mut none = SnapshotGuard::new(false, GuardFile::default(), Vec::new());
    assert_eq!(none.apply(1, 2, true, true), Err("文件锁仅支持 macOS / Windows".to_string()));
    assert_eq!(none.release(1, true, Ok(()), false), Err("文件锁仅支持 macOS / Windows".to_string()));
    let mut g = SnapshotGuard::new(true, GuardFile::default(), Vec::new());
    assert_eq!(g.apply(1, 2, true, false), Err("无法定位用户目录".to_string()));
    assert_eq!(g.release(1, false, Ok(()), false), Err("无法定位用户目录".to_string()));
    assert_eq!(g.release(1, true, Err("y".into()), true), Err("y".to_string()));
}

#[test]
fn release_forgets_the_lock() {
    let file = GuardFile { locked_since_ms: Some(1), calls_baseline: Some(2), blocked_rounds: 3, calls_seen: 4 };
    let mut g = SnapshotGuard::new(true, file, vec![row("a", 1, 2)]);
    let s = g.release(9, true, Ok(()), false).unwrap();
    assert_eq!(g.file, GuardFile::default());
    assert_eq!(g.last_calls_seen(), 9);
    assert_eq!((s.locked, s.blocked_rounds, s.history.len()), (false, 0, 1));
}

#[test]
fn only_encrypted_files_count() {
    let dirs = vec![
        WorkspaceDir {
            is_dir: true,
            state: Some(r#"{"failureCount":2}"#.into()),
            pending: vec![("a.tar.gz.enc".into(), Some(5)), ("b.tmp".into(), Some(6)), ("c.enc".into(), None)],
        },
        WorkspaceDir { is_dir: false, state: None, pending: vec![("d.enc".into(), Some(7))] },
    ];
    let s = scan_directory(&dirs).unwrap();
    assert_eq!(
        s,
        ScanSummary { artifact_count: 1, artifact_bytes: 5, workspace_count: 1, failure_count: 2 }
    );
    let huge = vec![(None, vec![u64::MAX, 1])];
    assert!(checked_summary(&huge).is_none());
}
