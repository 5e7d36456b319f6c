//! Tables of the system, processes and connections.

use speed_panel::netio::{day_start_ms, sess_bytes_est, wrap_delta, ymd_str};
use speed_panel::platform::{
    cmdline_next, cut_at_zero, exe_name, if_rows, ipv4, ipv6, is_zcode_exe, net_ifaces, pid_table,
    tcp6_rows, tcp_rows, zcode_conns, zcode_pid_groups, CmdlineNext, CmdlineStep, Counters, IfAddr,
    IfRow, ProcRow, TcpTables, IF_ROW_BYTES, TCP6_ROW_BYTES, TCP_ROW_BYTES,
};
use std::collections::HashMap;

fn put(buf: &mut [u8], at: usize, v: u32) {
    buf[at..at + 4].copy_from_slice(&v.to_le_bytes());
}

#[test]
fn interface_table_is_read() {
    let mut buf = vec![0u8; 4 + 2 * IF_ROW_BYTES];
    put(&mut buf, 0, 2);
    for (i, v) in [(0usize, 7u32), (1, 9)] {
        let at = 4 + i * IF_ROW_BYTES;
        put(&mut buf, at + 512, v);
        put(&mut buf, at + 516, 6);
        put(&mut buf, at + 552, 1000 + v);
        put(&mut buf, at + 556, 2000 + v);
    }
    let rows = if_rows(&buf);
    assert_eq!(rows.len(), 2);
    assert_eq!(rows[1], IfRow { index: 9, kind: 6, in_octets: 1009, out_octets: 2009 });
    buf.truncate(4 + IF_ROW_BYTES);
    assert_eq!(if_rows(&buf).len(), 1);
    assert!(if_rows(&Vec::new()).is_empty());
}

#[test]
fn loopback_is_left_out() {
    let row = |index: u32, kind: u32| IfRow { index, kind, in_octets: 5, out_octets: 6 };
    let got = net_ifaces(&Counters::Table(vec![row(1, 24), row(2, 6)])).unwrap();
    assert_eq!(got.len(), 1);
    assert_eq!((got[0].1, got[0].2), (6, 5));
    let addr = |name: &str, out: u64| IfAddr { name: name.into(), out_bytes: out, in_bytes: 1 };
    let got = net_ifaces(&Counters::Addresses(vec![addr("lo0", 1), addr("en0", 2)])).unwrap();
    assert_eq!(got, vec![("en0".to_string(), 2, 1)]);
    let many = vec![addr("en0", 2), addr("lo0", 9), addr("en0", 3), addr("en1", 4)];
    let got = net_ifaces(&Counters::Addresses(many)).unwrap();
    assert_eq!(got, vec![("en0".to_string(), 2, 1), ("en1".to_string(), 4, 1)]);
    assert_eq!(net_ifaces(&Counters::Unavailable), None);
}

#[test]
fn addresses_are_written_out() {
    assert_eq!(ipv4(u32::from_le_bytes([127, 0, 0, 1])), "127.0.0.1");
    let mut b = vec![0u8; 16];
    b[0] = 0x20;
    b[1] = 0x01;
    b[15] = 0x0a;
    let long = ipv6(&b);
    assert!(long.starts_with("2001"));
    assert!(long.ends_with("a"));
    assert_eq!(long.matches(':').count(), 7);
}

#[test]
fn connections_are_parted_by_process() {
    let mut buf = vec![0u8; 4 + 3 * TCP_ROW_BYTES];
    put(&mut buf, 0, 3);
    for (i, state, pid) in [(0usize, 5u32, 10u32), (1, 5, 20), (2, 2, 10)] {
        let at = 4 + i * TCP_ROW_BYTES;
        put(&mut buf, at, state);
        put(&mut buf, at + 12, u32::from_le_bytes([8, 8, 4, i as u8]));
        put(&mut buf, at + 16, u16::to_be(443) as u32);
        put(&mut buf, at + 20, pid);
    }
    let mut long = vec![0u8; 4 + TCP6_ROW_BYTES];
    put(&mut long, 0, 1);
    put(&mut long, 4, 5);
    put(&mut long, 4 + 48, u16::to_be(80) as u32);
    put(&mut long, 4 + 52, 20);
    let tables = Some(TcpTables { short: tcp_rows(&buf), long: tcp6_rows(&long) });
    let cli = HashMap::from([(10u32, "a".to_string())]);
    let app = HashMap::from([(10u32, "a".to_string()), (20, "b".to_string())]);
    let (c, a) = zcode_conns(&cli, &app, &tables).unwrap();
    assert_eq!(c, vec![("8.8.4.0:443".to_string(), 10)]);
    assert_eq!(a.len(), 2);
    assert!(a.contains(&("8.8.4.1:443".to_string(), 20)));
    assert!(a.iter().any(|x| x.0.ends_with(":80") && x.1 == 20));
    assert!(zcode_conns(&cli, &app, &None).is_none());
}

#[test]
fn processes_are_parted_by_command_line() {
    let p = |pid: u32, exe: &str, cmd: Option<&str>| ProcRow {
        pid,
        exe: exe.into(),
        cmdline: cmd.map(String::from),
    };
    let procs = vec![
        p(1, "ZCode.exe", Some("zcode zcode.cjs app-server")),
        p(2, "zcode.EXE", Some("ZCode --type=renderer")),
        p(3, "other.exe", Some("zcode.cjs")),
        p(4, "zcode.exe", None),
    ];
    let (cli, app) = zcode_pid_groups(&procs);
    assert_eq!(cli, vec![(1, "CLI 会话进程".to_string())]);
    assert_eq!(app, vec![(2, "渲染进程".to_string())]);
    assert_eq!(pid_table(cli).get(&1).map(String::as_str), Some("CLI 会话进程"));
    assert!(is_zcode_exe("ZCODE.exe"));
    assert!(!is_zcode_exe("zcode"));
}

#[test]
fn names_end_at_the_first_zero() {
    let units: Vec<u16> = vec![0x7a, 0x43, 0xd800, 0, 0x41];
    assert_eq!(cut_at_zero(&units), vec![0x7a, 0x43, 0xd800]);
    assert_eq!(exe_name(&units), "zC\u{fffd}");
    assert_eq!(exe_name(&vec![0x53, 0x8bd5]), "S试");
    assert_eq!(exe_name(&vec![0xd83d, 0xde00, 0x21]), "😀!");
    assert_eq!(exe_name(&vec![0xde00, 0xd83d, 0xd83d, 0xde00]), "\u{fffd}\u{fffd}😀");
    assert_eq!(exe_name(&vec![0xd83d, 0x41]), "\u{fffd}A");
}

fn bytes(parts: &[(usize, u64)], len: usize) -> Option<Vec<u8>> {
    let mut b = vec![0u8; len];
    for (at, v) in parts {
        b[*at..*at + 8].copy_from_slice(&v.to_le_bytes());
    }
    Some(b)
}

#[test]
fn command_line_is_followed_to_its_text() {
    let step = cmdline_next(CmdlineStep::BasicInfo, &bytes(&[(8, 0x1_2345_6789)], 48));
    assert_eq!(step, CmdlineNext::Read(CmdlineStep::Parameters { at: 0x1_2345_67a9 }));
    let step = cmdline_next(CmdlineStep::Parameters { at: 1 }, &bytes(&[(0, 0x1000)], 8));
    assert_eq!(step, CmdlineNext::Read(CmdlineStep::Descriptor { at: 0x1070 }));
    let step = cmdline_next(CmdlineStep::Descriptor { at: 1 }, &bytes(&[(0, 4), (8, 0x99)], 16));
    assert_eq!(step, CmdlineNext::Read(CmdlineStep::Units { at: 0x99, len: 4 }));
    let units = Some(vec![0x41, 0, 0x42, 0, 0x43]);
    let step = cmdline_next(CmdlineStep::Units { at: 0x99, len: 4 }, &units);
    assert_eq!(step, CmdlineNext::Done("AB".to_string()));
}

#[test]
fn command_line_that_cannot_be_followed() {
    for step in [CmdlineStep::BasicInfo, CmdlineStep::Parameters { at: 1 }, CmdlineStep::Descriptor { at: 1 }] {
        assert_eq!(cmdline_next(step, &None), CmdlineNext::Failed);
        assert_eq!(cmdline_next(step, &bytes(&[], 48)), CmdlineNext::Failed);
        assert_eq!(cmdline_next(step, &bytes(&[], 0)), CmdlineNext::Failed);
    }
    assert_eq!(cmdline_next(CmdlineStep::Units { at: 1, len: 2 }, &None), CmdlineNext::Failed);
}

#[test]
fn days_are_written_out() {
    assert_eq!(ymd_str((2026, 9, 5)), "2026-09-05");
    assert_eq!(ymd_str((12026, 12, 31)), "12026-12-31");
    assert_eq!(day_start_ms(Some(5), 90_000_000), 5);
    assert_eq!(day_start_ms(None, 90_000_000), 3_600_000);
}

#[test]
fn estimates_of_small_counts_are_exact() {
    assert_eq!(sess_bytes_est(0, 0), (0, 0));
    assert_eq!(sess_bytes_est(1_234_567, 7_654_321), (6_172_835, 3_061_728_400));
    assert_eq!(sess_bytes_est(u64::MAX, u64::MAX), (u64::MAX, u64::MAX));
}

/// A counter that runs on and starts over is followed.
#[test]
fn counter_is_followed_over_its_end() {
    let wrap = 1u64 << 32;
    let mut last = wrap - 10;
    let mut sum = 0;
    for step in [5u64, 20, 1_000_000, 7] {
        let now = (last + step) % wrap;
        sum += wrap_delta(now, last, wrap);
        last = now;
    }
    assert_eq!(sum, 5 + 20 + 1_000_000 + 7);
}
