//! Updates of the panel.

use speed_panel::update::{
    progress, truncate_chars, update_event, CheckOutcome, DownloadStart, InstallStep, Release,
    UpdateMem,
};

fn rel(tag: &str) -> Release {
    Release {
        tag: tag.into(),
        version: tag.trim_start_matches('v').into(),
        url: "https://r".into(),
        notes: "n".repeat(401),
        asset_size: 77,
    }
}

fn text(s: &str) -> String {
    s.into()
}

#[test]
fn long_notes_are_cut() {
    assert_eq!(truncate_chars("三个字", 3), "三个字");
    assert_eq!(truncate_chars("三个字呢", 3), "三个字…");
    assert_eq!(truncate_chars("x", 0), "…");
    let ev = update_event("available", "1.0.0", &rel("v1.1.0"));
    assert_eq!(ev.notes, format!("{}…", "n".repeat(400)));
    assert_eq!((ev.state, ev.current_version.as_str(), ev.new_version.as_str()), ("available", "1.0.0", "1.1.0"));
    assert_eq!((ev.release_url.as_str(), ev.downloaded_bytes, ev.total_bytes, ev.message.as_str()), ("https://r", 0, 77, ""));
}

#[test]
fn one_check_at_a_time() {
    let mut m: UpdateMem<u8> = UpdateMem::new();
    assert_eq!(m.begin_check(), Ok(()));
    assert_eq!(m.begin_check(), Err(CheckOutcome::Failed { message: text("已有检查正在进行") }));
    let step = m.do_check(None, "1.0.0", 5);
    assert_eq!(step.outcome, CheckOutcome::Failed { message: text("网络异常或 Release 信息不可用") });
    assert_eq!(step.found, None);
    assert_eq!(m.begin_check(), Ok(()));
}

#[test]
fn failed_check_is_repeated() {
    let day = 24 * 3600 * 1000;
    let mut m: UpdateMem<u8> = UpdateMem::new();
    m.do_check(None, "1.0.0", day);
    assert!(m.check_due(day));
    let step = m.do_check(Some((rel("v1.0.0"), false)), "1.0.0", day);
    assert_eq!(step.outcome, CheckOutcome::UpToDate { current: text("1.0.0") });
    assert!(!m.check_due(2 * day - 1));
    assert!(m.check_due(2 * day));
    assert_eq!(m.latest, None);
}

#[test]
fn release_is_fetched_once() {
    let mut m: UpdateMem<u8> = UpdateMem::new();
    let step = m.do_check(Some((rel("v2"), true)), "1", 5);
    assert_eq!(step.outcome, CheckOutcome::Available { current: text("1"), new_version: text("2") });
    let (ev, found, start) = step.found.unwrap();
    assert_eq!((ev.state, found, start), ("available", rel("v2"), DownloadStart::Start));
    assert!(m.downloading);
    assert_eq!(m.spawn_download(&rel("v2"), "1"), DownloadStart::Busy);
    let (ev, launch) = m.download_done(&rel("v2"), "1", 9);
    assert_eq!((ev.state, ev.downloaded_bytes, launch), ("ready", 77, false));
    match m.spawn_download(&rel("v2"), "1") {
        DownloadStart::Ready(ev) => assert_eq!((ev.state, ev.downloaded_bytes), ("ready", 0)),
        other => panic!("{other:?}"),
    }
    assert_eq!(m.install_update(), Ok(InstallStep::Launch));
    let (ev, path, failed) = m.launch_update("1", "go").unwrap();
    assert_eq!((ev.state, ev.message.as_str(), *path), ("launching", "go", 9));
    assert_eq!((failed.state, failed.message.as_str()), ("error", "启动安装程序失败"));
}

#[test]
fn waiting_ends_with_the_package() {
    let mut m: UpdateMem<u8> = UpdateMem::new();
    assert_eq!(m.install_update(), Err(text("没有可用更新")));
    m.do_check(Some((rel("v2"), true)), "1", 5);
    assert_eq!(m.install_update(), Ok(InstallStep::Fetch(rel("v2"))));
    assert_eq!(m.spawn_download(&rel("v2"), "1"), DownloadStart::Busy);
    let (_, launch) = m.download_done(&rel("v2"), "1", 9);
    assert!(launch);
    assert!(m.launch_update("1", "").is_some());
}

#[test]
fn failure_is_told_only_to_who_waits() {
    let mut m: UpdateMem<u8> = UpdateMem::new();
    m.do_check(Some((rel("v2"), true)), "1", 5);
    assert_eq!(m.download_failed(&rel("v2"), "1", text("e")), None);
    assert!(!m.downloading);
    m.install_update().unwrap();
    assert_eq!(m.spawn_download(&rel("v2"), "1"), DownloadStart::Start);
    let ev = m.download_failed(&rel("v2"), "1", text("e")).unwrap();
    assert_eq!((ev.state, ev.message.as_str()), ("error", "e"));
    assert!(!m.install_when_ready);
    m.spawn_download(&rel("v2"), "1");
    assert!(!m.download_done(&rel("v2"), "1", 9).1);
}

#[test]
fn stale_package_is_not_installed() {
    let mut m: UpdateMem<u8> = UpdateMem::new();
    m.do_check(Some((rel("v2"), true)), "1", 5);
    m.download_done(&rel("v2"), "1", 9);
    m.do_check(Some((rel("v3"), true)), "1", 6);
    assert!(m.launch_update("1", "").is_none());
    assert_eq!(m.install_update(), Ok(InstallStep::Fetch(rel("v3"))));
}

#[test]
fn progress_is_told_now_and_then() {
    assert_eq!(progress(&rel("v2"), "1", 5, 70, 0, 249_999_999), None);
    let ev = progress(&rel("v2"), "1", 5, 70, 0, 250_000_000).unwrap();
    assert_eq!((ev.state, ev.downloaded_bytes, ev.total_bytes), ("downloading", 5, 70));
}
