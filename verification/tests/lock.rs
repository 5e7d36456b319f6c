//! Locking directories.

use speed_panel::lock::{lock_args, parse_whoami_sid, set_immutable, LockArg, LockRun, LockSystem};

fn text(s: &str) -> LockArg {
    LockArg::Text(s.into())
}

#[test]
fn directories_are_locked_with_a_flag() {
    let c = LockSystem::Chflags;
    assert_eq!(c.program(), "chflags");
    assert_eq!(lock_args(c, true, true, ""), vec![text("-R"), text("uchg"), LockArg::Dir]);
    assert_eq!(lock_args(c, true, false, ""), vec![text("uchg"), LockArg::Dir]);
    assert_eq!(lock_args(c, false, true, ""), vec![text("-R"), text("nouchg"), LockArg::Dir]);
}

#[test]
fn directories_are_locked_by_denied_rights() {
    let c = LockSystem::Icacls;
    assert_eq!(c.program(), "icacls");
    assert_eq!(
        lock_args(c, true, true, "S-1-5-21-7"),
        vec![LockArg::Dir, text("/deny"), text("*S-1-5-21-7:(OI)(CI)(WD,AD)")]
    );
    assert_eq!(
        lock_args(c, false, true, "S-1-5-21-7"),
        vec![LockArg::Dir, text("/remove:d"), text("*S-1-5-21-7")]
    );
}

#[test]
fn failures_are_told() {
    let c = LockSystem::Chflags;
    assert_eq!(set_immutable(c, true, true, LockRun::Succeeded), Ok(()));
    assert_eq!(
        set_immutable(c, true, true, LockRun::NotStarted("e".into())),
        Err("执行 chflags 失败: e".to_string())
    );
    assert_eq!(
        set_immutable(c, true, true, LockRun::Ended(Some(1))),
        Err(format!("chflags {}{} 未成功（exit {:?}）", "-R ", "uchg", Some(1)))
    );
    assert_eq!(
        set_immutable(c, false, false, LockRun::Ended(Some(-12))),
        Err(format!("chflags nouchg 未成功（exit {:?}）", Some(-12)))
    );
    assert_eq!(
        set_immutable(LockSystem::Icacls, true, true, LockRun::Ended(None)),
        Err("icacls /deny 未成功（exit None）".to_string())
    );
}

#[test]
fn sid_field_is_found() {
    let line = "\"desk\\user\",\"S-1-5-21-1004336348-1177238915-682003330-512\"\r\n";
    assert_eq!(
        parse_whoami_sid(line).as_deref(),
        Some("S-1-5-21-1004336348-1177238915-682003330-512")
    );
    assert_eq!(parse_whoami_sid("a, S-1-0 ,S-1-1").as_deref(), Some("S-1-0"));
    assert_eq!(parse_whoami_sid("\"desk\\user\",\"none\""), None);
    assert_eq!(parse_whoami_sid(""), None);
}
