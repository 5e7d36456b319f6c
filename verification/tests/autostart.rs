//! Starting with the system.

use speed_panel::autostart::{
    current_mode, follow_requested, plist, plist_command, run_value, set_mode, xml_escape,
    zcode_running, AutostartMode, ProcessList, Registration, Registry, FOLLOW_ARG,
};

#[test]
fn parse_roundtrip() {
    for m in [AutostartMode::Off, AutostartMode::Boot, AutostartMode::Follow] {
        assert_eq!(AutostartMode::parse(m.as_str()), m);
    }
    assert_eq!(AutostartMode::parse("乱写"), AutostartMode::Off);
}

fn text(s: &str) -> String {
    s.into()
}

fn written(mode: AutostartMode, registry: Registry, exe: &str) -> String {
    match set_mode(mode, registry, Ok(text(exe))) {
        Ok(Registration::Write(t)) => t,
        other => panic!("{other:?}"),
    }
}

#[test]
fn mode_reads_back() {
    let exe = r"C:\Program Files\panel.exe";
    let boot = written(AutostartMode::Boot, Registry::RunValue, exe);
    assert_eq!(boot, r#""C:\Program Files\panel.exe""#);
    assert_eq!(current_mode(&Some(boot)), AutostartMode::Boot);
    let follow = written(AutostartMode::Follow, Registry::RunValue, exe);
    assert_eq!(follow, r#""C:\Program Files\panel.exe" --zcode-follow"#);
    assert_eq!(follow, run_value(exe, true));
    assert_eq!(current_mode(&Some(follow)), AutostartMode::Follow);
    assert_eq!(current_mode(&None), AutostartMode::Off);

    let list = Registry::PropertyList { home_known: true };
    let exe = "/Applications/a & <b>.app/panel";
    let follow = written(AutostartMode::Follow, list, exe);
    assert_eq!(follow, plist(exe, true));
    assert!(follow.contains("<string>/Applications/a &amp; &lt;b&gt;.app/panel</string>"));
    assert!(follow.contains("<key>RunAtLoad</key><true/>"));
    assert_eq!(current_mode(&Some(plist_command(&follow))), AutostartMode::Follow);
    let boot = written(AutostartMode::Boot, list, exe);
    assert!(!boot.contains(FOLLOW_ARG));
    assert_eq!(current_mode(&Some(plist_command(&boot))), AutostartMode::Boot);
}

#[test]
fn what_cannot_be_registered() {
    let exe = || Ok(text("/p"));
    assert_eq!(set_mode(AutostartMode::Off, Registry::RunValue, exe()), Ok(Registration::Remove));
    assert_eq!(
        set_mode(AutostartMode::Off, Registry::RunValue, Err(text("e"))),
        Ok(Registration::Remove)
    );
    assert_eq!(
        set_mode(AutostartMode::Boot, Registry::RunValue, Err(text("e"))),
        Err(text("无法定位程序路径: e"))
    );
    assert_eq!(
        set_mode(AutostartMode::Boot, Registry::PropertyList { home_known: false }, exe()),
        Err(text("无法定位用户目录"))
    );
    for m in [AutostartMode::Off, AutostartMode::Follow] {
        assert_eq!(
            set_mode(m, Registry::Unsupported, exe()),
            Err(text("当前平台不支持自动启动"))
        );
    }
}

#[test]
fn marks_are_escaped() {
    assert_eq!(xml_escape("a&b<c>d"), "a&amp;b&lt;c&gt;d");
    assert_eq!(xml_escape("&amp;"), "&amp;amp;");
    assert_eq!(xml_escape(""), "");
}

#[test]
fn zcode_is_found_among_processes() {
    assert!(zcode_running(&ProcessList::Programs(vec![text("x.exe"), text("ZCode.exe")])));
    assert!(!zcode_running(&ProcessList::Programs(vec![text("zcode-speed-panel.exe")])));
    assert!(!zcode_running(&ProcessList::Arguments(Vec::new())));
    assert!(!zcode_running(&ProcessList::Unavailable));
}

#[test]
fn follow_is_asked_for_by_argument() {
    assert!(follow_requested(&vec![text("panel"), text(FOLLOW_ARG)]));
    assert!(!follow_requested(&vec![text("panel"), text("--zcode")]));
    assert!(!follow_requested(&Vec::new()));
}
