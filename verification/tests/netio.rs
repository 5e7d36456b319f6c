//! Traffic, checkpoints and processes.

use speed_panel::ckpt::{
    apply_ckpt_obs, ckpt_rows, parse_ckpt_state, CkptEvent, CkptState, CkptTable,
};
use speed_panel::netio::{sess_bytes_est, wrap_delta};
use speed_panel::platform::proc_label;

#[test]
fn sess_est_scales_with_tokens() {
    let (up, down) = sess_bytes_est(1000, 2000);
    assert!((up as f64 - 5000.0).abs() < 1e-6);
    assert!((down as f64 - 800_000.0).abs() < 1e-6);
}

#[test]
fn parse_ckpt_state_fields() {
    let json = r#"{
        "workspacePath": "C:\\Users\\moqiq\\PycharmProjects\\primer_re",
        "lastCompressedSize": {
            "encryptedSizeBytes": 574522944,
            "workspaceSizeBytes": 100,
            "manifestHash": "abc123",
            "recordedAt": 1788290688837
        },
        "lastAcceptedManifestHash": "abc123",
        "activeUpload": null
    }"#;
    let s = parse_ckpt_state(json).expect("a state");
    assert_eq!(s.workspace, "primer_re");
    assert_eq!(s.artifact_bytes, 574522944);
    assert_eq!(s.artifact_hash.as_deref(), Some("abc123"));
    assert_eq!(s.accepted_hash.as_deref(), Some("abc123"));
    assert!(!s.uploading);
    assert_eq!(s.recorded_at, Some(1788290688837));
    assert!(parse_ckpt_state("{").is_none());
    assert!(parse_ckpt_state(r#"{"workspacePath":"x"}"#).is_none());
    let json2 = r#"{
        "workspacePath": "/tmp/w",
        "lastCompressedSize": {"encryptedSizeBytes": 5, "manifestHash": "h1"},
        "lastAcceptedManifestHash": "",
        "activeUpload": {"encryptedArtifactPath": "x.enc"}
    }"#;
    let s2 = parse_ckpt_state(json2).expect("a state");
    assert!(s2.uploading);
    assert_eq!(s2.accepted_hash, None);
}

/// A change of what was accepted counts, once, and only where it was recorded today; uploads that
/// begin and end only make news.
#[test]
fn apply_ckpt_obs_counts_acceptance_diffs() {
    let day_start = 1_000_000i64;
    let mk = |acc: Option<&str>, bytes: u64, rec: i64, up: bool| CkptState {
        workspace: "ws".into(),
        artifact_bytes: bytes,
        artifact_hash: Some("h".into()),
        accepted_hash: acc.map(String::from),
        uploading: up,
        recorded_at: Some(rec),
    };
    let mut states = CkptTable::new();
    let ev = apply_ckpt_obs(&mut states, vec![("a".into(), mk(None, 100, day_start - 10, false))], day_start, false);
    assert!(ev.is_empty());
    let ev = apply_ckpt_obs(&mut states, vec![("a".into(), mk(Some("h"), 100, day_start + 5, false))], day_start, false);
    assert_eq!(ev, vec![CkptEvent { kind: "accepted", workspace: "ws".into(), bytes: 100, recorded_ms: day_start + 5 }]);
    let ev = apply_ckpt_obs(&mut states, vec![("a".into(), mk(Some("h"), 100, day_start + 5, false))], day_start, false);
    assert!(ev.is_empty());
    let ev = apply_ckpt_obs(&mut states, vec![("a".into(), mk(Some("h2"), 250, day_start + 9, false))], day_start, false);
    assert_eq!(ev.len(), 1);
    assert_eq!(ev[0].bytes, 250);
    let ev = apply_ckpt_obs(&mut states, vec![("a".into(), mk(Some("h2"), 250, day_start + 9, true))], day_start, false);
    assert_eq!(ev, vec![CkptEvent { kind: "upload_start", workspace: "ws".into(), bytes: 250, recorded_ms: 0 }]);
    let ev = apply_ckpt_obs(&mut states, vec![("a".into(), mk(Some("h2"), 250, day_start + 9, false))], day_start, false);
    assert_eq!(ev, vec![CkptEvent { kind: "upload_end", workspace: "ws".into(), bytes: 0, recorded_ms: 0 }]);
    let mut states2 = CkptTable::new();
    let ev = apply_ckpt_obs(&mut states2, vec![("b".into(), mk(Some("old"), 999, day_start - 1, false))], day_start, false);
    assert!(ev.is_empty());
    let mut states3 = CkptTable::new();
    let ev = apply_ckpt_obs(&mut states3, vec![("c".into(), mk(Some("n"), 42, day_start + 1, false))], day_start, true);
    assert_eq!(ev, vec![CkptEvent { kind: "accepted", workspace: "ws".into(), bytes: 42, recorded_ms: day_start + 1 }]);
    let mut states4 = CkptTable::new();
    let ev = apply_ckpt_obs(&mut states4, vec![("d".into(), mk(Some("n"), 42, day_start + 1, false))], day_start, false);
    assert!(ev.is_empty());
}

/// A counter of 32 bits starts over; one that was set back counts nothing.
#[test]
fn wrap_delta_handles_32bit_wrap_and_resets() {
    const W: u64 = 1 << 32;
    assert_eq!(wrap_delta(500, 100, W), 400);
    assert_eq!(wrap_delta(196, 4_294_967_296 - 300, W), 496);
    assert_eq!(wrap_delta(100, 500, 0), 0);
    assert_eq!(wrap_delta(900, 500, 0), 400);
    assert_eq!(wrap_delta(1000, 1_000_000, W), 0);
}

/// What a process is, by how it was started.
#[test]
fn proc_label_by_command_line() {
    assert_eq!(proc_label(r#""C:\...\zcode.exe" "C:\...\zcode.cjs" app-server"#), "CLI 会话进程");
    assert_eq!(proc_label(r#""C:\...\ZCode.exe" --type=renderer --field-trial-handle=x"#), "渲染进程");
    assert_eq!(proc_label(r#""C:\...\ZCode.exe" --type=gpu-process"#), "GPU 进程");
    assert_eq!(proc_label(r#""C:\...\ZCode.exe" --type=utility --utility-sub-type=net"#), "工具进程");
    assert_eq!(proc_label(r#""C:\...\ZCode.exe" --type=crashpad-handler"#), "崩溃报告进程");
    assert_eq!(proc_label(r#""C:\...\ZCode.exe" --js-flags=..."#), "主进程");
}

/// Those that upload come first, then those that wait, then those that were accepted; the newest
/// first in each. All of them are listed.
#[test]
fn ckpt_rows_sorted_all_workspaces() {
    let mut st = CkptTable::new();
    let mk = |ws: &str, bytes: u64, rec: i64, acc: bool, up: bool| {
        (
            ws.to_string(),
            CkptState {
                workspace: ws.into(),
                artifact_bytes: bytes,
                artifact_hash: Some("h".into()),
                accepted_hash: if acc { Some("h".to_string()) } else { None },
                uploading: up,
                recorded_at: Some(rec),
            },
        )
    };
    st.insert(mk("old-acc", 100, 1, true, false).0.clone(), mk("old-acc", 100, 1, true, false).1);
    st.insert(mk("new-acc", 200, 9, true, false).0.clone(), mk("new-acc", 200, 9, true, false).1);
    st.insert(mk("pending", 300, 5, false, false).0.clone(), mk("pending", 300, 5, false, false).1);
    st.insert(mk("flying", 400, 3, false, true).0.clone(), mk("flying", 400, 3, false, true).1);
    let rows = ckpt_rows(&st);
    assert_eq!(
        rows.iter().map(|r| r.workspace.as_str()).collect::<Vec<_>>(),
        vec!["flying", "pending", "new-acc", "old-acc"]
    );
    let mut big = CkptTable::new();
    for i in 0..20 {
        let (k, v) = mk(&format!("ws{i}"), 1, i, true, false);
        big.insert(k, v);
    }
    assert_eq!(ckpt_rows(&big).len(), 20);
    assert!(ckpt_rows(&CkptTable::new()).is_empty());
}
