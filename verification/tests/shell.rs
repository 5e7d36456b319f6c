//! The window and the commands.

use speed_panel::aggregate::Aggregator;
use speed_panel::commands::{
    export_name, open_checkpoint_dir, open_url, several_tasks, tray_state, tray_text, TrayState,
    MAX_TEXT,
};
use speed_panel::metrics::{Snapshot, TaskStat};
use speed_panel::paths::{
    cal_file, checkpoints_dir, debug_log_path, exports_dir, guard_file_path, history_file_path,
    home_dir, mode_file, net_file, plist_path, usage_db_path,
};
use speed_panel::shell::{
    apply_mode, clamp_to_screen, collapse_to_float, load_persisted, pet_shown, pet_streak,
    position_due, rotate_due, stale_log, switch_mode, toggle_maximize, toggled, window_target,
    Collapse, FloatStyle, Maximize, Mode, Persisted, SavedState, Screen, WindowSize,
};

#[test]
fn names_of_modes_and_styles() {
    for m in [Mode::Full, Mode::Float] {
        assert_eq!(Mode::parse(m.as_str()), m);
        assert_ne!(toggled(m), m);
    }
    for s in [FloatStyle::Gauge, FloatStyle::Pill, FloatStyle::Pet] {
        assert_eq!(FloatStyle::parse(s.as_str()), s);
    }
    assert_eq!(Mode::parse(" float\n"), Mode::Float);
    assert_eq!(Mode::parse("FLOAT"), Mode::Full);
    assert_eq!(FloatStyle::parse("\tpet "), FloatStyle::Pet);
    assert_eq!(FloatStyle::parse(""), FloatStyle::Gauge);
}

const SCREEN: Screen = Screen { x: -100, y: 50, width: 1_000, height: 800 };

#[test]
fn windows_are_pulled_onto_the_screen() {
    assert_eq!(clamp_to_screen(Some(SCREEN), 0, 60, 300, 200), (0, 60));
    assert_eq!(clamp_to_screen(Some(SCREEN), -900, 9_000, 300, 200), (-100, 650));
    assert_eq!(clamp_to_screen(Some(SCREEN), 700, 0, 300, 200), (600, 50));
    assert_eq!(clamp_to_screen(Some(SCREEN), 700, 700, 3_000, 2_000), (-100, 50));
    assert_eq!(clamp_to_screen(None, 7, 8, 1, 1), (7, 8));
    let far = Screen { x: i32::MAX, y: i32::MIN, width: u32::MAX, height: u32::MAX };
    assert_eq!(clamp_to_screen(Some(far), 0, 0, 0, 0), (i32::MAX, 0));
}

#[test]
fn targets_of_both_modes() {
    let size = (200, 256);
    assert_eq!(window_target(Mode::Full, None, Some((1, 2)), SCREEN, size), None);
    assert_eq!(window_target(Mode::Full, Some((3, 4)), None, SCREEN, size), Some((3, 4)));
    assert_eq!(window_target(Mode::Float, Some((3, 4)), Some((1, 2)), SCREEN, size), Some((1, 2)));
    assert_eq!(
        window_target(Mode::Float, Some((3, 4)), None, SCREEN, size),
        Some((-100 + 500 - 100, 50 + 400 - 128))
    );
}

#[test]
fn plans_of_both_modes() {
    let full = apply_mode(Mode::Full, FloatStyle::Pet, true);
    assert_eq!(full.min_size, Some((720, 520)));
    assert_eq!(full.size, WindowSize::Fixed { width: 1000, height: 800 });
    assert!(full.decorations && full.resizable && full.in_dock && full.shadow);
    assert!(!full.always_on_top && !full.skip_taskbar);
    assert!(!apply_mode(Mode::Full, FloatStyle::Pet, false).decorations);
    let float = apply_mode(Mode::Float, FloatStyle::Gauge, true);
    assert_eq!(float.min_size, None);
    assert_eq!(float.size, WindowSize::Fixed { width: 148, height: 148 });
    assert!(!float.decorations && !float.resizable && !float.in_dock && !float.shadow);
    assert!(float.always_on_top && float.skip_taskbar);
    assert_eq!(
        apply_mode(Mode::Float, FloatStyle::Pill, false).size,
        WindowSize::Fixed { width: 172, height: 72 }
    );
    assert_eq!(apply_mode(Mode::Float, FloatStyle::Pet, false).size, WindowSize::Pet);
}

fn nowhere(mode: Mode) -> Persisted<u8> {
    Persisted { mode, style: FloatStyle::Gauge, full_pos: None, float_pos: None, pet_size: Some(9) }
}

#[test]
fn places_of_both_modes_are_kept_apart() {
    let mut p = nowhere(Mode::Full);
    let mut filled = Some(SCREEN);
    switch_mode(&mut p, &mut filled, Mode::Float, Some((1, 2)));
    assert_eq!((p.mode, p.full_pos, p.float_pos), (Mode::Float, Some((1, 2)), None));
    assert_eq!(filled, None);
    p.remember(Mode::Float, (7, 8));
    filled = Some(SCREEN);
    switch_mode(&mut p, &mut filled, Mode::Full, None);
    assert_eq!((p.mode, p.full_pos, p.float_pos), (Mode::Full, Some((1, 2)), Some((7, 8))));
    assert_eq!(filled, Some(SCREEN));
    assert_eq!(p.pet_size, Some(9));
    assert_eq!(collapse_to_float(Mode::Full), Collapse::Switch);
    assert_eq!(collapse_to_float(Mode::Float), Collapse::Show);
    assert!(pet_shown(Mode::Float, FloatStyle::Pet));
    assert!(!pet_shown(Mode::Full, FloatStyle::Pet));
}

#[test]
fn saved_state_comes_back() {
    let mut p = nowhere(Mode::Float);
    p.style = FloatStyle::Pet;
    p.remember(Mode::Full, (5, 6));
    assert_eq!(load_persisted(Some("{..}".to_string()), Some(p.saved())), p);
    // A file that holds only the name of a mode.
    let old = load_persisted::<u8>(Some("float\n".to_string()), None);
    assert_eq!((old.mode, old.style, old.full_pos), (Mode::Float, FloatStyle::Gauge, None));
    let none = load_persisted::<u8>(None, None);
    assert_eq!((none.mode, none.pet_size), (Mode::Full, None));
    let odd = SavedState { mode: "x".into(), style: "y".into(), full_pos: None, float_pos: Some((1, 1)), pet_size: None::<u8> };
    let odd = load_persisted(Some(String::new()), Some(odd));
    assert_eq!((odd.mode, odd.style, odd.float_pos), (Mode::Full, FloatStyle::Gauge, Some((1, 1))));
}

#[test]
fn filling_the_screen_twice_goes_back() {
    let now = Screen { x: 3, y: 4, width: 5, height: 6 };
    let (saved, step) = toggle_maximize(None, now, Some((SCREEN, 28)));
    assert_eq!(step, Maximize::Fill { x: -100, y: 78, width: 1_000, height: 772 });
    let (saved, step) = toggle_maximize(saved, SCREEN, Some((SCREEN, 28)));
    assert_eq!((saved, step), (None, Maximize::Restore(now)));
    assert_eq!(toggle_maximize(None, now, None), (Some(now), Maximize::Native));
    let low = Screen { height: 10, ..SCREEN };
    let (_, step) = toggle_maximize(None, now, Some((low, 28)));
    assert_eq!(step, Maximize::Fill { x: -100, y: 78, width: 1_000, height: 0 });
}

fn pet_heights(ticks: &[bool]) -> Vec<bool> {
    let (mut tall, mut streak) = (false, 0);
    let mut seen = Vec::new();
    for multi in ticks {
        (tall, streak) = pet_streak(tall, streak, *multi);
        seen.push(tall);
    }
    seen
}

#[test]
fn pet_grows_after_three_ticks() {
    assert_eq!(pet_heights(&[true, true, true, true]), [false, false, true, true]);
    assert_eq!(
        pet_heights(&[true, true, false, true, true, true]),
        [false, false, false, false, false, true]
    );
    assert_eq!(pet_streak(false, 0, false), (false, 0));
    assert_eq!(pet_streak(false, 1, true), (false, 2));
    assert_eq!(pet_streak(false, u32::MAX, true), (true, 0));
}

#[test]
fn pet_shrinks_after_three_quiet_ticks() {
    assert_eq!(
        pet_heights(&[true, true, true, false, false, true, false, false, false, false]),
        [false, false, true, true, true, true, true, true, false, false]
    );
    assert_eq!(pet_streak(true, 2, false), (false, 0));
    assert_eq!(pet_streak(true, 2, true), (true, 0));
}

#[test]
fn places_and_logs_are_saved_now_and_then() {
    assert!(position_due(None, 0));
    assert!(!position_due(Some(1), 2_000_000_001));
    assert!(position_due(Some(0), 2_000_000_001));
    assert!(!position_due(Some(9), 0));
    assert!(!rotate_due(8 * 1024 * 1024));
    assert!(rotate_due(8 * 1024 * 1024 + 1));
    let week = 7 * 86_400 * 1_000_000_000u128;
    assert!(stale_log("speed-panel-debug.jsonl.1", Some(week + 1)));
    assert!(!stale_log("speed-panel-debug.jsonl.1", Some(week)));
    assert!(!stale_log("speed-panel-debug.jsonl.1", None));
    assert!(!stale_log("speed-panel-debug.jsonl", Some(week + 1)));
}

#[test]
fn exported_files_stay_in_their_directory() {
    assert_eq!(export_name("report-1_a.txt", 5), Ok("report-1_a.txt".to_string()));
    assert_eq!(export_name("../../etc/passwd", 5), Err("文件名无效".to_string()));
    assert_eq!(export_name("a/b\\c:d é", 5), Ok("a_b_c_d__".to_string()));
    assert_eq!(export_name("", 5), Err("文件名无效".to_string()));
    assert_eq!(export_name("快照.md", MAX_TEXT), Ok("__.md".to_string()));
    assert_eq!(export_name("x", MAX_TEXT + 1), Err("内容过大".to_string()));
}

#[test]
fn links_and_directories_are_let_through_or_not() {
    assert_eq!(open_url("https://x"), Ok(()));
    assert_eq!(open_url("http://x"), Err("仅支持 https 链接".to_string()));
    assert_eq!(open_url("file:///x"), Err("仅支持 https 链接".to_string()));
    assert_eq!(open_checkpoint_dir("ab12", Some(true)), Ok(()));
    assert_eq!(open_checkpoint_dir("..", Some(true)), Err("非法的工作区目录名".to_string()));
    assert_eq!(open_checkpoint_dir("ab12", None), Err("无法定位用户目录".to_string()));
    assert_eq!(
        open_checkpoint_dir("ab12", Some(false)),
        Err("该工作区的快照目录不存在（快照可能已被删除或尚未生成）".to_string())
    );
}

#[test]
fn tray_tells_the_state() {
    let mut s: Snapshot<u8> = Aggregator::new((2026, 1, 1)).snapshot(0);
    assert_eq!(tray_state(&s), TrayState::Idle);
    s.is_estimating = true;
    assert_eq!(tray_state(&s), TrayState::Estimating);
    s.is_starting = true;
    assert_eq!(tray_state(&s), TrayState::Generating);
    assert_eq!(tray_text(TrayState::Generating, "12.3"), "生成中 12.3 t/s");
    assert_eq!(tray_text(TrayState::Estimating, "4.0"), "估算中 ≈4.0 t/s");
    assert_eq!(tray_text(TrayState::Idle, "0.0"), "待机");
    assert_eq!(TrayState::Generating.word(), "生成中");
    assert_eq!(TrayState::Estimating.word(), "估算中");
    assert_eq!(TrayState::Idle.word(), "待机");
    let task = || TaskStat { pid: 1, session: String::new(), n_sessions: 1, tps: 0, streaming: true };
    s.tasks = vec![task()];
    assert!(!several_tasks(&s));
    s.tasks.push(task());
    assert!(several_tasks(&s));
}

#[test]
fn files_lie_in_the_home_directory() {
    assert_eq!(home_dir(Some(1), Some(2)), Some(1));
    assert_eq!(home_dir(None, Some(2)), Some(2));
    let at = usage_db_path(Some('h')).unwrap();
    assert_eq!((at.home, at.parts), ('h', vec![".zcode", "cli", "db", "db.sqlite"]));
    assert_eq!(plist_path(Some(0)).unwrap().parts.len(), 3);
    assert_eq!(checkpoints_dir(Some(0)).unwrap().parts, vec![".zcode", "v2", "checkpoints"]);
    assert_eq!(exports_dir(Some(0)).unwrap().parts, vec![".zcode", "speed-panel-exports"]);
    assert_eq!(guard_file_path(Some(0)).unwrap().parts, vec![".zcode", "speed-panel-guard.json"]);
    assert_eq!(history_file_path(Some(0)).unwrap().parts, vec![".zcode", "speed-panel-ckpt-history.json"]);
    assert_eq!(net_file(Some(0)).unwrap().parts, vec![".zcode", "speed-panel-net.json"]);
    assert_eq!(mode_file(Some(0)).unwrap().parts, vec![".zcode", "speed-panel-mode.txt"]);
    assert_eq!(cal_file(Some(0)).unwrap().parts, vec![".zcode", "speed-panel-cal.json"]);
    assert_eq!(debug_log_path(Some(0)).unwrap().parts, vec![".zcode", "speed-panel-debug.jsonl"]);
    assert_eq!(net_file::<u8>(None), None);
}
