//! What the operating system tells about network interfaces, connections and processes.

use vstd::prelude::*;
use vstd::std_specs::hash::group_hash_axioms;
use std::collections::HashMap;
use crate::order::{
    lemma_text_antisymmetric, lemma_text_total, lemma_text_transitive, text_le, text_precedes,
};
use crate::text::{
    contains, contains_text, decimal, decimal_text, equal_but_for_case, lemma_number_reads_back,
    number_of, occurs_at, same_but_for_case,
};

verus! {

/// Software loopback among the kinds of interfaces.
pub const IF_TYPE_LOOPBACK: u32 = 24;

/// An established connection among the states of connections.
pub const TCP_STATE_ESTABLISHED: u32 = 5;

/// Interface counters of 32 bits start over here.
pub const COUNTER_WRAP_32: u64 = 0x1_0000_0000;

/// Size of a row of the interface table.
pub const IF_ROW_BYTES: usize = 860;

/// Size of a row of the connection table.
pub const TCP_ROW_BYTES: usize = 24;

/// Size of a row of the connection table for long addresses.
pub const TCP6_ROW_BYTES: usize = 56;

/// The number that four bytes stand for, lowest byte first.
pub open spec fn number_at(buf: Seq<u8>, at: int) -> int {
    buf[at] + 0x100 * buf[at + 1] + 0x1_0000 * buf[at + 2] + 0x100_0000 * buf[at + 3]
}

fn read_number(buf: &Vec<u8>, at: usize) -> (r: u32)
    requires
        at + 4 <= buf.len(),
    ensures
        r == number_at(buf@, at as int),
{
    buf[at] as u32 + 0x100 * buf[at + 1] as u32 + 0x1_0000 * buf[at + 2] as u32 + 0x100_0000
        * buf[at + 3] as u32
}

/// How many rows a table holds: as many as it says, but no more than there is room for.
pub open spec fn rows_held(buf: Seq<u8>, row: int) -> int {
    if buf.len() < 4 {
        0
    } else {
        let room = (buf.len() - 4) / row;
        let said = number_at(buf, 0);
        if said <= room {
            said
        } else {
            room
        }
    }
}

fn count_rows(buf: &Vec<u8>, row: usize) -> (r: usize)
    requires
        row > 0,
    ensures
        r == rows_held(buf@, row as int),
        buf.len() >= 4 ==> 4 + r * row <= buf.len(),
        buf.len() < 4 ==> r == 0,
{
    if buf.len() < 4 {
        return 0;
    }
    let room: usize = (buf.len() - 4) / row;
    assert(room * row <= buf.len() - 4) by (nonlinear_arith)
        requires
            room == (buf.len() - 4) / row as int,
            row > 0,
            buf.len() >= 4,
    ;
    let said: u32 = read_number(buf, 0);
    let r: usize = if said as u64 <= room as u64 {
        said as usize
    } else {
        room
    };
    assert(r * row <= room * row) by (nonlinear_arith)
        requires
            r <= room,
            row > 0,
    ;
    r
}

/// A row of the interface table.
#[derive(Clone, Copy, Debug, PartialEq)]
pub struct IfRow {
    pub index: u32,
    pub kind: u32,
    pub in_octets: u32,
    pub out_octets: u32,
}

/// The row that starts at `at`.
pub open spec fn if_row_at(buf: Seq<u8>, at: int) -> IfRow {
    IfRow {
        index: number_at(buf, at + 512) as u32,
        kind: number_at(buf, at + 516) as u32,
        in_octets: number_at(buf, at + 552) as u32,
        out_octets: number_at(buf, at + 556) as u32,
    }
}

/// Reads an interface table.
pub fn if_rows(buf: &Vec<u8>) -> (r: Vec<IfRow>)
    ensures
        r@ == Seq::new(
            rows_held(buf@, IF_ROW_BYTES as int) as nat,
            |i: int| if_row_at(buf@, 4 + i * IF_ROW_BYTES),
        ),
{
    let n: usize = count_rows(buf, IF_ROW_BYTES);
    let mut r: Vec<IfRow> = Vec::new();
    let mut i: usize = 0;
    while i < n
        invariant
            i <= n,
            n == rows_held(buf@, IF_ROW_BYTES as int),
            n > 0 ==> 4 + n * IF_ROW_BYTES <= buf.len(),
            r@ == Seq::new(i as nat, |i: int| if_row_at(buf@, 4 + i * IF_ROW_BYTES)),
        decreases n - i,
    {
        let at: usize = 4 + i * IF_ROW_BYTES;
        r.push(
            IfRow {
                index: read_number(buf, at + 512),
                kind: read_number(buf, at + 516),
                in_octets: read_number(buf, at + 552),
                out_octets: read_number(buf, at + 556),
            },
        );
        i += 1;
        assert(r@ =~= Seq::new(i as nat, |i: int| if_row_at(buf@, 4 + i * IF_ROW_BYTES)));
    }
    r
}

/// A row of the connection table.
#[derive(Clone, Copy, Debug, PartialEq)]
pub struct TcpRow {
    pub state: u32,
    pub remote_addr: u32,
    pub remote_port: u32,
    pub pid: u32,
}

/// The row that starts at `at`.
pub open spec fn tcp_row_at(buf: Seq<u8>, at: int) -> TcpRow {
    TcpRow {
        state: number_at(buf, at) as u32,
        remote_addr: number_at(buf, at + 12) as u32,
        remote_port: number_at(buf, at + 16) as u32,
        pid: number_at(buf, at + 20) as u32,
    }
}

/// Reads a connection table.
pub fn tcp_rows(buf: &Vec<u8>) -> (r: Vec<TcpRow>)
    ensures
        r@ == Seq::new(
            rows_held(buf@, TCP_ROW_BYTES as int) as nat,
            |i: int| tcp_row_at(buf@, 4 + i * TCP_ROW_BYTES),
        ),
{
    let n: usize = count_rows(buf, TCP_ROW_BYTES);
    let mut r: Vec<TcpRow> = Vec::new();
    let mut i: usize = 0;
    while i < n
        invariant
            i <= n,
            n == rows_held(buf@, TCP_ROW_BYTES as int),
            n > 0 ==> 4 + n * TCP_ROW_BYTES <= buf.len(),
            r@ == Seq::new(i as nat, |i: int| tcp_row_at(buf@, 4 + i * TCP_ROW_BYTES)),
        decreases n - i,
    {
        let at: usize = 4 + i * TCP_ROW_BYTES;
        r.push(
            TcpRow {
                state: read_number(buf, at),
                remote_addr: read_number(buf, at + 12),
                remote_port: read_number(buf, at + 16),
                pid: read_number(buf, at + 20),
            },
        );
        i += 1;
        assert(r@ =~= Seq::new(i as nat, |i: int| tcp_row_at(buf@, 4 + i * TCP_ROW_BYTES)));
    }
    r
}

/// A row of the connection table for long addresses.
#[derive(Debug, PartialEq)]
pub struct Tcp6Row {
    pub state: u32,
    /// Sixteen bytes.
    pub remote_addr: Vec<u8>,
    pub remote_port: u32,
    pub pid: u32,
}

/// The row is the one that starts at `at`.
pub open spec fn is_tcp6_row_at(r: Tcp6Row, buf: Seq<u8>, at: int) -> bool {
    &&& r.state == number_at(buf, at)
    &&& r.remote_addr@ == buf.subrange(at + 28, at + 44)
    &&& r.remote_port == number_at(buf, at + 48)
    &&& r.pid == number_at(buf, at + 52)
}

/// Reads a connection table for long addresses.
pub fn tcp6_rows(buf: &Vec<u8>) -> (r: Vec<Tcp6Row>)
    ensures
        r@.len() == rows_held(buf@, TCP6_ROW_BYTES as int),
        forall|i: int|
            0 <= i < r@.len() ==> is_tcp6_row_at(#[trigger] r@[i], buf@, 4 + i * TCP6_ROW_BYTES)
                && r@[i].remote_addr@.len() == 16,
{
    let n: usize = count_rows(buf, TCP6_ROW_BYTES);
    let mut r: Vec<Tcp6Row> = Vec::new();
    let mut i: usize = 0;
    while i < n
        invariant
            i <= n,
            n == rows_held(buf@, TCP6_ROW_BYTES as int),
            n > 0 ==> 4 + n * TCP6_ROW_BYTES <= buf.len(),
            r@.len() == i,
            forall|i: int|
                0 <= i < r@.len() ==> is_tcp6_row_at(
                    #[trigger] r@[i],
                    buf@,
                    4 + i * TCP6_ROW_BYTES,
                ) && r@[i].remote_addr@.len() == 16,
        decreases n - i,
    {
        let at: usize = 4 + i * TCP6_ROW_BYTES;
        let mut remote_addr: Vec<u8> = Vec::new();
        let mut k: usize = 0;
        while k < 16
            invariant
                k <= 16,
                at + TCP6_ROW_BYTES <= buf.len(),
                remote_addr@ == buf@.subrange(at + 28, at + 28 + k),
            decreases 16 - k,
        {
            remote_addr.push(buf[at + 28 + k]);
            k += 1;
            assert(remote_addr@ =~= buf@.subrange(at + 28, at + 28 + k));
        }
        r.push(
            Tcp6Row {
                state: read_number(buf, at),
                remote_addr,
                remote_port: read_number(buf, at + 48),
                pid: read_number(buf, at + 52),
            },
        );
        i += 1;
    }
    r
}

/// Counters of one interface, under one of its addresses.
#[derive(Debug, PartialEq)]
pub struct IfAddr {
    pub name: String,
    pub out_bytes: u64,
    pub in_bytes: u64,
}

/// The interface counters that the system gave.
#[derive(Debug, PartialEq)]
pub enum Counters {
    /// The rows of the interface table.
    Table(Vec<IfRow>),
    /// The addresses of all interfaces; an interface has one entry for each of its addresses.
    Addresses(Vec<IfAddr>),
    /// None: the system has no such counters, or did not give them.
    Unavailable,
}

/// The name of an interface, what it sent and what it received.
pub type IfaceRow = (String, u64, u64);

/// What a list of interfaces holds.
pub open spec fn iface_views(rows: Seq<IfaceRow>) -> Seq<(Seq<char>, u64, u64)> {
    rows.map_values(|r: IfaceRow| (r.0@, r.1, r.2))
}

/// The interfaces in a table, without the loopback.
pub open spec fn ifaces_in_table(rows: Seq<IfRow>) -> Seq<(Seq<char>, u64, u64)>
    decreases rows.len(),
{
    if rows.len() == 0 {
        Seq::empty()
    } else {
        let before = ifaces_in_table(rows.drop_last());
        let r = rows.last();
        if r.kind == IF_TYPE_LOOPBACK {
            before
        } else {
            before.push((decimal(r.index as nat), r.out_octets as u64, r.in_octets as u64))
        }
    }
}

/// The list names the interface.
pub open spec fn names_iface(rows: Seq<(Seq<char>, u64, u64)>, name: Seq<char>) -> bool {
    exists|i: int| 0 <= i < rows.len() && (#[trigger] rows[i]).0 == name
}

/// The interfaces among some addresses, without the loopback, each once.
pub open spec fn ifaces_in_addresses(rows: Seq<IfAddr>) -> Seq<(Seq<char>, u64, u64)>
    decreases rows.len(),
{
    if rows.len() == 0 {
        Seq::empty()
    } else {
        let before = ifaces_in_addresses(rows.drop_last());
        let r = rows.last();
        if r.name@ == "lo0"@ || names_iface(before, r.name@) {
            before
        } else {
            before.push((r.name@, r.out_bytes, r.in_bytes))
        }
    }
}

/// However many addresses an interface has, it is listed once, and the loopback is not listed.
pub proof fn lemma_interfaces_are_listed_once(rows: Seq<IfAddr>)
    ensures
        forall|i: int, j: int|
            #![trigger ifaces_in_addresses(rows)[i], ifaces_in_addresses(rows)[j]]
            0 <= i < j < ifaces_in_addresses(rows).len() ==> ifaces_in_addresses(rows)[i].0
                != ifaces_in_addresses(rows)[j].0,
        forall|i: int|
            0 <= i < ifaces_in_addresses(rows).len() ==> (#[trigger] ifaces_in_addresses(
                rows,
            )[i]).0 != "lo0"@,
        forall|k: int|
            0 <= k < rows.len() && (#[trigger] rows[k]).name@ != "lo0"@ ==> names_iface(
                ifaces_in_addresses(rows),
                rows[k].name@,
            ),
    decreases rows.len(),
{
    if rows.len() > 0 {
        let rest = rows.drop_last();
        let before = ifaces_in_addresses(rest);
        let now = ifaces_in_addresses(rows);
        lemma_interfaces_are_listed_once(rest);
        assert forall|k: int| 0 <= k < rows.len() && (#[trigger] rows[k]).name@ != "lo0"@ implies names_iface(
            now,
            rows[k].name@,
        ) by {
            if k < rest.len() {
                assert(rest[k] == rows[k]);
                let i = choose|i: int| 0 <= i < before.len() && before[i].0 == rows[k].name@;
                assert(now[i] == before[i]);
            } else if !names_iface(before, rows[k].name@) {
                assert(now[before.len() as int].0 == rows[k].name@);
            }
        }
        assert forall|i: int, j: int| #![trigger now[i], now[j]] 0 <= i < j < now.len() implies now[i].0
            != now[j].0 by {
            assert(now[i] == before[i]);
            if j < before.len() {
                assert(now[j] == before[j]);
            }
        }
        assert forall|i: int| 0 <= i < now.len() implies (#[trigger] now[i]).0 != "lo0"@ by {
            if i < before.len() {
                assert(now[i] == before[i]);
            }
        }
    }
}

/// The interfaces that some counters are about.
pub open spec fn ifaces_of(c: Counters) -> Option<Seq<(Seq<char>, u64, u64)>> {
    match c {
        Counters::Table(rows) => Some(ifaces_in_table(rows@)),
        Counters::Addresses(rows) => Some(ifaces_in_addresses(rows@)),
        Counters::Unavailable => None,
    }
}

fn has_iface(rows: &Vec<IfaceRow>, name: &String) -> (r: bool)
    ensures
        r == names_iface(iface_views(rows@), name@),
{
    let ghost v = iface_views(rows@);
    let mut i: usize = 0;
    while i < rows.len()
        invariant
            i <= rows.len(),
            v == iface_views(rows@),
            forall|j: int| 0 <= j < i ==> (#[trigger] v[j]).0 != name@,
        decreases rows.len() - i,
    {
        if rows[i].0 == *name {
            assert(v[i as int].0 == name@);
            return true;
        }
        i += 1;
    }
    false
}

/// Lists the network interfaces, without the loopback and each once: name, bytes sent, bytes
/// received.
pub fn net_ifaces(counters: &Counters) -> (r: Option<Vec<IfaceRow>>)
    ensures
        match r {
            Some(rows) => ifaces_of(*counters) == Some(iface_views(rows@)),
            None => ifaces_of(*counters) is None,
        },
{
    let mut out: Vec<IfaceRow> = Vec::new();
    assert(iface_views(out@) =~= Seq::empty());
    match counters {
        Counters::Unavailable => None,
        Counters::Table(rows) => {
            let mut i: usize = 0;
            while i < rows.len()
                invariant
                    i <= rows.len(),
                    iface_views(out@) == ifaces_in_table(rows@.take(i as int)),
                decreases rows.len() - i,
            {
                let ghost before = iface_views(out@);
                assert(rows@.take(i + 1).drop_last() =~= rows@.take(i as int));
                let r = rows[i];
                if r.kind != IF_TYPE_LOOPBACK {
                    out.push(
                        (decimal_text(r.index as u64), r.out_octets as u64, r.in_octets as u64),
                    );
                    assert(iface_views(out@) =~= before.push(iface_views(out@).last()));
                }
                i += 1;
            }
            assert(rows@.take(i as int) =~= rows@);
            Some(out)
        },
        Counters::Addresses(rows) => {
            let lo = "lo0".to_owned();
            let mut i: usize = 0;
            while i < rows.len()
                invariant
                    i <= rows.len(),
                    lo@ == "lo0"@,
                    iface_views(out@) == ifaces_in_addresses(rows@.take(i as int)),
                decreases rows.len() - i,
            {
                let ghost before = iface_views(out@);
                assert(rows@.take(i + 1).drop_last() =~= rows@.take(i as int));
                let r = &rows[i];
                if r.name != lo && !has_iface(&out, &r.name) {
                    out.push((r.name.clone(), r.out_bytes, r.in_bytes));
                    assert(iface_views(out@) =~= before.push(iface_views(out@).last()));
                }
                i += 1;
            }
            assert(rows@.take(i as int) =~= rows@);
            Some(out)
        },
    }
}

/// Ports stand with their high byte first.
pub open spec fn port_of(p: u32) -> nat {
    ((p as int % 0x100) * 0x100 + (p as int / 0x100) % 0x100) as nat
}

fn port(p: u32) -> (r: u64)
    ensures
        r == port_of(p),
{
    (p % 0x100) as u64 * 0x100 + ((p / 0x100) % 0x100) as u64
}

/// A short address: four numbers with dots between them.
pub open spec fn short_address(v: u32) -> Seq<char> {
    decimal((v as int % 0x100) as nat) + "."@ + decimal(((v as int / 0x100) % 0x100) as nat) + "."@
        + decimal(((v as int / 0x1_0000) % 0x100) as nat) + "."@ + decimal(
        ((v as int / 0x100_0000) % 0x100) as nat,
    )
}

/// Writes a short address.
pub fn ipv4(v: u32) -> (r: String)
    ensures
        r@ == short_address(v),
{
    let mut s = decimal_text((v % 0x100) as u64);
    s.append(".");
    s.append(decimal_text(((v / 0x100) % 0x100) as u64).as_str());
    s.append(".");
    s.append(decimal_text(((v / 0x1_0000) % 0x100) as u64).as_str());
    s.append(".");
    s.append(decimal_text(((v / 0x100_0000) % 0x100) as u64).as_str());
    s
}

/// A hexadecimal digit.
pub open spec fn hex_digit(n: int) -> char {
    if n < 10 {
        ('0' as int + n) as char
    } else {
        ('a' as int + n - 10) as char
    }
}

/// Two hexadecimal digits.
pub open spec fn hex_pair(b: u8) -> Seq<char> {
    seq![hex_digit(b as int / 16), hex_digit(b as int % 16)]
}

fn hex_char(n: u8) -> (r: char)
    requires
        n < 16,
    ensures
        r == hex_digit(n as int),
{
    if n < 10 {
        (48 + n) as char
    } else {
        (87 + n) as char
    }
}

/// A long address in full: groups of four digits with colons between them.
pub open spec fn long_address(b: Seq<u8>, groups: nat) -> Seq<char>
    decreases groups,
{
    if groups == 0 {
        Seq::empty()
    } else {
        let g = groups - 1;
        let before = long_address(b, g as nat);
        (if g > 0 {
            before.push(':')
        } else {
            before
        }) + hex_pair(b[2 * g]) + hex_pair(b[2 * g + 1])
    }
}

/// Writes a long address in full.
pub fn ipv6(b: &Vec<u8>) -> (r: String)
    requires
        b@.len() == 16,
    ensures
        r@ == long_address(b@, 8),
{
    let mut s = String::new();
    let mut g: usize = 0;
    assert(s@ =~= long_address(b@, 0));
    while g < 8
        invariant
            g <= 8,
            b@.len() == 16,
            s@ == long_address(b@, g as nat),
        decreases 8 - g,
    {
        if g > 0 {
            s.push(':');
        }
        let ghost mid = s@;
        let hi: u8 = b[2 * g];
        let lo: u8 = b[2 * g + 1];
        s.push(hex_char(hi / 16));
        s.push(hex_char(hi % 16));
        s.push(hex_char(lo / 16));
        s.push(hex_char(lo % 16));
        assert(s@ =~= mid + hex_pair(hi) + hex_pair(lo));
        g += 1;
    }
    s
}

/// The other end of a connection, and the process that holds it.
pub type Conn = (String, u32);

/// What a list of connections holds.
pub open spec fn conn_views(conns: Seq<Conn>) -> Seq<(Seq<char>, u32)> {
    conns.map_values(|c: Conn| (c.0@, c.1))
}

/// One connection stands before another.
pub open spec fn conn_before(a: (Seq<char>, u32), b: (Seq<char>, u32)) -> bool {
    if a.0 == b.0 {
        a.1 < b.1
    } else {
        text_le(a.0, b.0)
    }
}

/// The connections are in order, without repetition.
pub open spec fn conns_rise(conns: Seq<(Seq<char>, u32)>) -> bool {
    forall|i: int, j: int|
        #![trigger conns[i], conns[j]]
        0 <= i < j < conns.len() ==> conn_before(conns[i], conns[j])
}

/// The list holds a connection.
pub open spec fn holds(conns: Seq<(Seq<char>, u32)>, c: (Seq<char>, u32)) -> bool {
    exists|i: int| 0 <= i < conns.len() && #[trigger] conns[i] == c
}

proof fn lemma_before_carries_over(
    a: (Seq<char>, u32),
    b: (Seq<char>, u32),
    c: (Seq<char>, u32),
)
    requires
        conn_before(a, b),
        conn_before(b, c),
    ensures
        conn_before(a, c),
{
    if a.0 != b.0 && b.0 != c.0 {
        lemma_text_transitive(a.0, b.0, c.0);
        if a.0 == c.0 {
            lemma_text_antisymmetric(a.0, b.0);
        }
    }
}

fn comes_before(a: &Conn, remote: &String, pid: u32) -> (r: bool)
    ensures
        r == conn_before((a.0@, a.1), (remote@, pid)),
{
    if a.0 == *remote {
        a.1 < pid
    } else {
        text_precedes(a.0.as_str(), remote.as_str())
    }
}

fn put_conn(conns: &mut Vec<Conn>, remote: String, pid: u32)
    requires
        conns_rise(conn_views(old(conns)@)),
    ensures
        conns_rise(conn_views(final(conns)@)),
        forall|c: (Seq<char>, u32)| #[trigger]
            holds(conn_views(final(conns)@), c) == (holds(conn_views(old(conns)@), c) || c == (
                remote@,
                pid,
            )),
{
    let ghost start = conns@;
    let ghost v = conn_views(conns@);
    let ghost x = (remote@, pid);
    let mut at: usize = 0;
    while at < conns.len() && comes_before(&conns[at], &remote, pid)
        invariant
            at <= conns.len(),
            conns@ == start,
            v == conn_views(start),
            x == (remote@, pid),
            forall|j: int| 0 <= j < at ==> conn_before(#[trigger] v[j], x),
        decreases conns.len() - at,
    {
        assert(v[at as int] == (conns@[at as int].0@, conns@[at as int].1));
        at += 1;
    }
    if at < conns.len() && conns[at].0 == remote && conns[at].1 == pid {
        assert(v[at as int] == x);
        return;
    }
    conns.insert(at, (remote, pid));
    proof {
        let w = conn_views(conns@);
        assert(w =~= v.insert(at as int, x));
        if at < v.len() {
            assert(v[at as int] == (start[at as int].0@, start[at as int].1));
            lemma_text_total(v[at as int].0, x.0);
            assert(conn_before(x, v[at as int]));
        }
        assert forall|i: int, j: int| #![trigger w[i], w[j]] 0 <= i < j < w.len() implies conn_before(
            w[i],
            w[j],
        ) by {
            if j == at {
                assert(w[i] == v[i]);
            } else if i == at {
                assert(w[j] == v[j - 1]);
                if j - 1 > at {
                    assert(conn_before(v[at as int], v[j - 1]));
                    lemma_before_carries_over(x, v[at as int], v[j - 1]);
                }
            } else {
                let a = if i < at {
                    i
                } else {
                    i - 1
                };
                let b = if j < at {
                    j
                } else {
                    j - 1
                };
                assert(w[i] == v[a] && w[j] == v[b]);
                assert(conn_before(v[a], v[b]));
            }
        }
        assert forall|c: (Seq<char>, u32)| #[trigger] holds(w, c) == (holds(v, c) || c == x) by {
            if holds(w, c) {
                let i = choose|i: int| 0 <= i < w.len() && #[trigger] w[i] == c;
                if i < at {
                    assert(v[i] == c);
                } else if i > at {
                    assert(v[i - 1] == c);
                }
            }
            if holds(v, c) {
                let i = choose|i: int| 0 <= i < v.len() && #[trigger] v[i] == c;
                if i < at {
                    assert(w[i] == c);
                } else {
                    assert(w[i + 1] == c);
                }
            }
            if c == x {
                assert(w[at as int] == c);
            }
        }
    }
}

/// The connection tables that the system gave. A table that it did not give is empty, where it
/// gave the other one; where it gave neither, there are no tables to tell of.
#[derive(Debug, PartialEq)]
pub struct TcpTables {
    pub short: Vec<TcpRow>,
    pub long: Vec<Tcp6Row>,
}

/// The addresses in the tables are complete.
pub open spec fn complete_tables(t: TcpTables) -> bool {
    forall|i: int| 0 <= i < t.long@.len() ==> (#[trigger] t.long@[i]).remote_addr@.len() == 16
}

/// The other end of a connection.
pub open spec fn short_remote(r: TcpRow) -> Seq<char> {
    short_address(r.remote_addr) + ":"@ + decimal(port_of(r.remote_port))
}

/// The other end of a connection.
pub open spec fn long_remote(r: Tcp6Row) -> Seq<char> {
    "["@ + long_address(r.remote_addr@, 8) + "]:"@ + decimal(port_of(r.remote_port))
}

/// An established connection of one of the processes.
pub open spec fn short_counts(r: TcpRow, pids: Set<u32>) -> bool {
    r.state == TCP_STATE_ESTABLISHED && pids.contains(r.pid)
}

/// An established connection of one of the processes.
pub open spec fn long_counts(r: Tcp6Row, pids: Set<u32>) -> bool {
    r.state == TCP_STATE_ESTABLISHED && pids.contains(r.pid)
}

/// The connection is an established one of one of the processes.
pub open spec fn among(
    c: (Seq<char>, u32),
    short: Seq<TcpRow>,
    long: Seq<Tcp6Row>,
    pids: Set<u32>,
) -> bool {
    ||| exists|i: int|
        0 <= i < short.len() && short_counts(#[trigger] short[i], pids) && c == (
            short_remote(short[i]),
            short[i].pid,
        )
    ||| exists|i: int|
        0 <= i < long.len() && long_counts(#[trigger] long[i], pids) && c == (
            long_remote(long[i]),
            long[i].pid,
        )
}

/// `conns` are the established connections of the processes, in order and each once.
pub open spec fn are_conns(conns: Seq<(Seq<char>, u32)>, t: TcpTables, pids: Set<u32>) -> bool {
    &&& conns_rise(conns)
    &&& forall|c: (Seq<char>, u32)| #[trigger]
        holds(conns, c) == among(c, t.short@, t.long@, pids)
}

/// No connection is listed for both groups of processes.
pub proof fn lemma_groups_are_apart(
    cli: Seq<(Seq<char>, u32)>,
    app: Seq<(Seq<char>, u32)>,
    t: TcpTables,
    cli_pids: Set<u32>,
    app_pids: Set<u32>,
    c: (Seq<char>, u32),
)
    requires
        are_conns(cli, t, cli_pids),
        are_conns(app, t, app_pids.difference(cli_pids)),
        holds(cli, c),
    ensures
        !holds(app, c),
        cli_pids.contains(c.1),
{
    assert(among(c, t.short@, t.long@, cli_pids));
    if holds(app, c) {
        assert(among(c, t.short@, t.long@, app_pids.difference(cli_pids)));
    }
}

fn write_short(r: &TcpRow) -> (s: String)
    ensures
        s@ == short_remote(*r),
{
    let mut s = ipv4(r.remote_addr);
    s.append(":");
    s.append(decimal_text(port(r.remote_port)).as_str());
    s
}

fn write_long(r: &Tcp6Row) -> (s: String)
    requires
        r.remote_addr@.len() == 16,
    ensures
        s@ == long_remote(*r),
{
    let mut s = "[".to_owned();
    s.append(ipv6(&r.remote_addr).as_str());
    s.append("]:");
    s.append(decimal_text(port(r.remote_port)).as_str());
    s
}

fn conns_of(t: &TcpTables, pids: &HashMap<u32, String>, others: Option<&HashMap<u32, String>>) -> (r:
    Vec<Conn>)
    requires
        complete_tables(*t),
    ensures
        are_conns(
            conn_views(r@),
            *t,
            (match others {
                Some(o) => pids@.dom().difference(o@.dom()),
                None => pids@.dom(),
            }),
        ),
{
    broadcast use group_hash_axioms;

    let ghost set = match others {
        Some(o) => pids@.dom().difference(o@.dom()),
        None => pids@.dom(),
    };
    let mut conns: Vec<Conn> = Vec::new();
    let mut i: usize = 0;
    while i < t.short.len()
        invariant
            i <= t.short.len(),
            set == (match others {
                Some(o) => pids@.dom().difference(o@.dom()),
                None => pids@.dom(),
            }),
            conns_rise(conn_views(conns@)),
            forall|c: (Seq<char>, u32)| #[trigger]
                holds(conn_views(conns@), c) == among(
                    c,
                    t.short@.take(i as int),
                    Seq::empty(),
                    set,
                ),
        decreases t.short.len() - i,
    {
        broadcast use group_hash_axioms;

        let r = t.short[i];
        let ghost before = conn_views(conns@);
        let ghost (part, next) = (t.short@.take(i as int), t.short@.take(i + 1));
        let mine = pids.contains_key(&r.pid) && match others {
            Some(o) => !o.contains_key(&r.pid),
            None => true,
        };
        if r.state == TCP_STATE_ESTABLISHED && mine {
            let remote = write_short(&r);
            put_conn(&mut conns, remote, r.pid);
        }
        proof {
            assert forall|c: (Seq<char>, u32)| #[trigger] holds(conn_views(conns@), c) == among(
                c,
                next,
                Seq::empty(),
                set,
            ) by {
                lemma_short_grows(c, t.short@, i as int, set);
                assert(holds(before, c) == among(c, part, Seq::empty(), set));
            }
        }
        i += 1;
    }
    assert(t.short@.take(i as int) =~= t.short@);
    let mut i: usize = 0;
    assert(t.long@.take(0) =~= Seq::empty());
    while i < t.long.len()
        invariant
            i <= t.long.len(),
            complete_tables(*t),
            set == (match others {
                Some(o) => pids@.dom().difference(o@.dom()),
                None => pids@.dom(),
            }),
            conns_rise(conn_views(conns@)),
            forall|c: (Seq<char>, u32)| #[trigger]
                holds(conn_views(conns@), c) == among(
                    c,
                    t.short@,
                    t.long@.take(i as int),
                    set,
                ),
        decreases t.long.len() - i,
    {
        broadcast use group_hash_axioms;

        let r = &t.long[i];
        let ghost before = conn_views(conns@);
        let ghost (part, next) = (t.long@.take(i as int), t.long@.take(i + 1));
        let mine = pids.contains_key(&r.pid) && match others {
            Some(o) => !o.contains_key(&r.pid),
            None => true,
        };
        if r.state == TCP_STATE_ESTABLISHED && mine {
            let remote = write_long(r);
            put_conn(&mut conns, remote, r.pid);
        }
        proof {
            assert forall|c: (Seq<char>, u32)| #[trigger] holds(conn_views(conns@), c) == among(
                c,
                t.short@,
                next,
                set,
            ) by {
                lemma_long_grows(c, t.short@, t.long@, i as int, set);
                assert(holds(before, c) == among(c, t.short@, part, set));
            }
        }
        i += 1;
    }
    assert(t.long@.take(i as int) =~= t.long@);
    conns
}

proof fn lemma_short_grows(c: (Seq<char>, u32), rows: Seq<TcpRow>, n: int, pids: Set<u32>)
    requires
        0 <= n < rows.len(),
    ensures
        among(c, rows.take(n + 1), Seq::empty(), pids) == (among(
            c,
            rows.take(n),
            Seq::empty(),
            pids,
        ) || short_counts(rows[n], pids) && c == (short_remote(rows[n]), rows[n].pid)),
{
    let (a, b) = (rows.take(n), rows.take(n + 1));
    if among(c, b, Seq::empty(), pids) {
        let i = choose|i: int|
            0 <= i < b.len() && short_counts(#[trigger] b[i], pids) && c == (
                short_remote(b[i]),
                b[i].pid,
            );
        if i < n {
            assert(a[i] == b[i]);
        }
    }
    if among(c, a, Seq::empty(), pids) {
        let i = choose|i: int|
            0 <= i < a.len() && short_counts(#[trigger] a[i], pids) && c == (
                short_remote(a[i]),
                a[i].pid,
            );
        assert(b[i] == a[i]);
    }
    assert(b[n] == rows[n]);
}

proof fn lemma_long_grows(
    c: (Seq<char>, u32),
    short: Seq<TcpRow>,
    rows: Seq<Tcp6Row>,
    n: int,
    pids: Set<u32>,
)
    requires
        0 <= n < rows.len(),
    ensures
        among(c, short, rows.take(n + 1), pids) == (among(c, short, rows.take(n), pids)
            || long_counts(rows[n], pids) && c == (long_remote(rows[n]), rows[n].pid)),
{
    let (a, b) = (rows.take(n), rows.take(n + 1));
    if exists|i: int|
        0 <= i < b.len() && long_counts(#[trigger] b[i], pids) && c == (
            long_remote(b[i]),
            b[i].pid,
        ) {
        let i = choose|i: int|
            0 <= i < b.len() && long_counts(#[trigger] b[i], pids) && c == (
                long_remote(b[i]),
                b[i].pid,
            );
        if i < n {
            assert(a[i] == b[i]);
        }
    }
    if exists|i: int|
        0 <= i < a.len() && long_counts(#[trigger] a[i], pids) && c == (
            long_remote(a[i]),
            a[i].pid,
        ) {
        let i = choose|i: int|
            0 <= i < a.len() && long_counts(#[trigger] a[i], pids) && c == (
                long_remote(a[i]),
                a[i].pid,
            );
        assert(b[i] == a[i]);
    }
    assert(b[n] == rows[n]);
}

/// Lists the established connections of two groups of processes; what belongs to the first group
/// does not belong to the second. Where the system gives no connections, there is no list.
pub fn zcode_conns(
    cli_pids: &HashMap<u32, String>,
    app_pids: &HashMap<u32, String>,
    tables: &Option<TcpTables>,
) -> (r: Option<(Vec<Conn>, Vec<Conn>)>)
    requires
        *tables matches Some(t) ==> complete_tables(t),
    ensures
        match (r, *tables) {
            (Some((cli, app)), Some(t)) => are_conns(
                conn_views(cli@),
                t,
                cli_pids@.dom(),
            ) && are_conns(
                conn_views(app@),
                t,
                app_pids@.dom().difference(cli_pids@.dom()),
            ),
            (None, None) => true,
            _ => false,
        },
{
    match tables {
        Some(t) => Some((conns_of(t, cli_pids, None), conns_of(t, app_pids, Some(cli_pids)))),
        None => None,
    }
}

/// What a process is, by its command line.
pub open spec fn label_of(cmd: Seq<char>) -> Seq<char> {
    if contains_text(cmd, "zcode.cjs"@) {
        "CLI 会话进程"@
    } else if contains_text(cmd, "crashpad"@) {
        "崩溃报告进程"@
    } else if contains_text(cmd, "--type=renderer"@) {
        "渲染进程"@
    } else if contains_text(cmd, "--type=gpu-process"@) {
        "GPU 进程"@
    } else if contains_text(cmd, "--type=utility"@) {
        "工具进程"@
    } else {
        "主进程"@
    }
}

/// Tells what a process is by its command line.
pub fn proc_label(cmd: &str) -> (r: &'static str)
    ensures
        r@ == label_of(cmd@),
{
    if contains(cmd, "zcode.cjs") {
        "CLI 会话进程"
    } else if contains(cmd, "crashpad") {
        "崩溃报告进程"
    } else if contains(cmd, "--type=renderer") {
        "渲染进程"
    } else if contains(cmd, "--type=gpu-process") {
        "GPU 进程"
    } else if contains(cmd, "--type=utility") {
        "工具进程"
    } else {
        "主进程"
    }
}

/// A process, with its command line where that could be read.
#[derive(Debug, PartialEq)]
pub struct ProcRow {
    pub pid: u32,
    pub exe: String,
    pub cmdline: Option<String>,
}

/// The program is ZCode.
pub open spec fn is_zcode(exe: Seq<char>) -> bool {
    same_but_for_case(exe, "zcode.exe"@)
}

/// Tests whether a program is ZCode.
pub fn is_zcode_exe(exe: &str) -> (r: bool)
    ensures
        r == is_zcode(exe@),
{
    equal_but_for_case(exe, "zcode.exe")
}

/// The processes of one group, with what each of them is: those that carry sessions, or the
/// others. A process whose command line could not be read belongs to neither.
pub open spec fn group_of(procs: Seq<ProcRow>, cli: bool) -> Seq<(u32, Seq<char>)>
    decreases procs.len(),
{
    if procs.len() == 0 {
        Seq::empty()
    } else {
        let before = group_of(procs.drop_last(), cli);
        let p = procs.last();
        match p.cmdline {
            Some(cmd) if is_zcode(p.exe@) && contains_text(cmd@, "zcode.cjs"@) == cli => {
                before.push((p.pid, label_of(cmd@)))
            },
            _ => before,
        }
    }
}

/// What a list of processes holds.
pub open spec fn pid_views(pids: Seq<(u32, String)>) -> Seq<(u32, Seq<char>)> {
    pids.map_values(|p: (u32, String)| (p.0, p.1@))
}

/// Parts the processes of ZCode into those that carry sessions and the others.
pub fn zcode_pid_groups(procs: &Vec<ProcRow>) -> (r: (Vec<(u32, String)>, Vec<(u32, String)>))
    ensures
        pid_views(r.0@) == group_of(procs@, true),
        pid_views(r.1@) == group_of(procs@, false),
{
    let mut cli: Vec<(u32, String)> = Vec::new();
    let mut app: Vec<(u32, String)> = Vec::new();
    let mut i: usize = 0;
    assert(pid_views(cli@) =~= Seq::empty());
    while i < procs.len()
        invariant
            i <= procs.len(),
            pid_views(cli@) == group_of(procs@.take(i as int), true),
            pid_views(app@) == group_of(procs@.take(i as int), false),
        decreases procs.len() - i,
    {
        let p = &procs[i];
        let ghost (c, a) = (pid_views(cli@), pid_views(app@));
        assert(procs@.take(i + 1).drop_last() =~= procs@.take(i as int));
        if is_zcode_exe(p.exe.as_str()) {
            if let Some(cmd) = &p.cmdline {
                let label = proc_label(cmd.as_str()).to_owned();
                let ghost shown = (p.pid, label@);
                if contains(cmd.as_str(), "zcode.cjs") {
                    cli.push((p.pid, label));
                    assert(pid_views(cli@) =~= c.push(shown));
                } else {
                    app.push((p.pid, label));
                    assert(pid_views(app@) =~= a.push(shown));
                }
            }
        }
        i += 1;
    }
    assert(procs@.take(i as int) =~= procs@);
    (cli, app)
}

/// The processes by their numbers; of several with one number the last counts.
pub open spec fn by_pid(pids: Seq<(u32, Seq<char>)>) -> Map<u32, Seq<char>>
    decreases pids.len(),
{
    if pids.len() == 0 {
        Map::empty()
    } else {
        by_pid(pids.drop_last()).insert(pids.last().0, pids.last().1)
    }
}

/// What each process in a table is.
pub open spec fn labels(m: Map<u32, String>) -> Map<u32, Seq<char>> {
    m.map_values(|s: String| s@)
}

/// Makes a table of processes by their numbers.
pub fn pid_table(pids: Vec<(u32, String)>) -> (r: HashMap<u32, String>)
    ensures
        labels(r@) == by_pid(pid_views(pids@)),
{
    broadcast use group_hash_axioms;

    let ghost all = pid_views(pids@);
    let mut r: HashMap<u32, String> = HashMap::new();
    proof {
        assert(all.take(0) =~= Seq::empty());
        assert(labels(r@) =~= Map::empty());
    }
    for p in it: pids
        invariant
            it.seq() == pids@,
            all == pid_views(pids@),
            labels(r@) == by_pid(all.take(it.index() as int)),
    {
        broadcast use group_hash_axioms;

        let ghost before = r@;
        proof {
            let n = it.index() as int;
            assert(all.take(n + 1).drop_last() =~= all.take(n));
            assert(all[n] == (p.0, p.1@));
        }
        r.insert(p.0, p.1);
        assert(labels(r@) =~= labels(before).insert(p.0, p.1@));
    }
    assert(all.take(all.len() as int) =~= all);
    r
}

/// The unit is one half of a pair that stands for one character: the first, or the second.
pub open spec fn is_half(unit: u16, second: bool) -> bool {
    if second {
        0xdc00 <= unit < 0xe000
    } else {
        0xd800 <= unit < 0xdc00
    }
}

/// The text of some units: a pair of halves, or a unit that is no half, stands for a character,
/// and a half without the other for the replacement character.
pub open spec fn lossy_text(units: Seq<u16>) -> Seq<char>
    decreases units.len(),
{
    if units.len() == 0 {
        Seq::empty()
    } else if units.len() > 1 && is_half(units[0], false) && is_half(units[1], true) {
        seq![(0x1_0000 + 0x400 * (units[0] - 0xd800) + (units[1] - 0xdc00)) as char] + lossy_text(
            units.skip(2),
        )
    } else if is_half(units[0], false) || is_half(units[0], true) {
        seq!['\u{fffd}'] + lossy_text(units.skip(1))
    } else {
        seq![units[0] as char] + lossy_text(units.skip(1))
    }
}

/// `String::from_utf16_lossy`: decodes units pair by pair, and puts the replacement character in
/// the place of each half without the other.
#[verifier::external_body]
fn decode_units(units: &[u16]) -> (r: String)
    ensures
        r@ == lossy_text(units@),
{
    String::from_utf16_lossy(units)
}

/// The units before the first zero.
pub open spec fn before_zero(units: Seq<u16>) -> Seq<u16>
    decreases units.len(),
{
    if units.len() == 0 || units[0] == 0 {
        Seq::empty()
    } else {
        seq![units[0]] + before_zero(units.drop_first())
    }
}

/// Cuts units off at the first zero.
pub fn cut_at_zero(units: &Vec<u16>) -> (r: Vec<u16>)
    ensures
        r@ == before_zero(units@),
{
    let mut r: Vec<u16> = Vec::new();
    let mut i: usize = 0;
    assert(units@.skip(0) =~= units@);
    while i < units.len() && units[i] != 0
        invariant
            i <= units.len(),
            r@ + before_zero(units@.skip(i as int)) == before_zero(units@),
        decreases units.len() - i,
    {
        proof {
            let rest = units@.skip(i as int);
            assert(rest.drop_first() =~= units@.skip(i + 1));
            assert(r@.push(units@[i as int]) + before_zero(units@.skip(i + 1)) =~= r@
                + before_zero(rest));
        }
        r.push(units[i]);
        i += 1;
    }
    assert(r@ + before_zero(units@.skip(i as int)) =~= r@);
    r
}

/// The name of a program as the system gives it: units that end at the first zero.
pub fn exe_name(units: &Vec<u16>) -> (r: String)
    ensures
        r@ == lossy_text(before_zero(units@)),
{
    let cut = cut_at_zero(units);
    decode_units(cut.as_slice())
}

/// Where the reading of a command line stands. Each read is of that many bytes at that address.
#[derive(Clone, Copy, Debug, PartialEq, Eq)]
pub enum CmdlineStep {
    /// The basic information on the process, of which 48 bytes are wanted.
    BasicInfo,
    /// The address of the process parameters.
    Parameters { at: u64 },
    /// The length and the address of the command line.
    Descriptor { at: u64 },
    /// The command line.
    Units { at: u64, len: usize },
}

/// What follows a read.
#[derive(Debug, PartialEq)]
pub enum CmdlineNext {
    Read(CmdlineStep),
    /// The command line.
    Done(String),
    /// It cannot be read.
    Failed,
}

/// The number that eight bytes stand for, lowest byte first.
pub open spec fn address_at(buf: Seq<u8>, at: int) -> int {
    number_at(buf, at) + 0x1_0000_0000 * number_at(buf, at + 4)
}

fn read_address(buf: &Vec<u8>, at: usize) -> (r: u64)
    requires
        at + 8 <= buf.len(),
    ensures
        r == address_at(buf@, at as int),
{
    read_number(buf, at) as u64 + 0x1_0000_0000 * read_number(buf, at + 4) as u64
}

/// Pairs of bytes as units, lowest byte first; an odd byte at the end is left out.
pub open spec fn units_of(buf: Seq<u8>) -> Seq<u16> {
    Seq::new(buf.len() / 2, |i: int| (buf[2 * i] + 0x100 * buf[2 * i + 1]) as u16)
}

fn read_units(buf: &Vec<u8>) -> (r: Vec<u16>)
    ensures
        r@ == units_of(buf@),
{
    let n: usize = buf.len() / 2;
    let mut r: Vec<u16> = Vec::new();
    let mut i: usize = 0;
    while i < n
        invariant
            i <= n,
            n == buf.len() / 2,
            r@ == units_of(buf@).take(i as int),
        decreases n - i,
    {
        let unit: u16 = buf[2 * i] as u16 + 0x100 * buf[2 * i + 1] as u16;
        r.push(unit);
        i += 1;
        assert(r@ =~= units_of(buf@).take(i as int));
    }
    assert(units_of(buf@).take(n as int) =~= units_of(buf@));
    r
}

/// The read after one that gave `buf`: null addresses, an empty command line and short replies
/// end in failure.
pub open spec fn next_read(step: CmdlineStep, buf: Seq<u8>) -> Option<CmdlineStep> {
    match step {
        CmdlineStep::BasicInfo => if buf.len() >= 16 && address_at(buf, 8) != 0
            && address_at(buf, 8) + 0x20 <= u64::MAX {
            Some(CmdlineStep::Parameters { at: (address_at(buf, 8) + 0x20) as u64 })
        } else {
            None
        },
        CmdlineStep::Parameters { .. } => if buf.len() >= 8 && address_at(buf, 0) != 0
            && address_at(buf, 0) + 0x70 <= u64::MAX {
            Some(CmdlineStep::Descriptor { at: (address_at(buf, 0) + 0x70) as u64 })
        } else {
            None
        },
        CmdlineStep::Descriptor { .. } => if buf.len() >= 16 && address_at(buf, 8) != 0 && buf[0]
            + 0x100 * buf[1] != 0 {
            Some(
                CmdlineStep::Units {
                    at: address_at(buf, 8) as u64,
                    len: (buf[0] + 0x100 * buf[1]) as usize,
                },
            )
        } else {
            None
        },
        CmdlineStep::Units { .. } => None,
    }
}

/// What follows a read that gave `reply`, or that failed.
pub open spec fn followed_by(step: CmdlineStep, reply: Option<Vec<u8>>, r: CmdlineNext) -> bool {
    match reply {
        None => r is Failed,
        Some(buf) => match step {
            CmdlineStep::Units { .. } => r matches CmdlineNext::Done(s) && s@ == lossy_text(
                units_of(buf@),
            ),
            _ => match next_read(step, buf@) {
                Some(next) => r == CmdlineNext::Read(next),
                None => r is Failed,
            },
        },
    }
}

/// Decides what to read next on the way to the command line of a process: from its basic
/// information to its parameters, to the descriptor in them, to the text.
pub fn cmdline_next(step: CmdlineStep, reply: &Option<Vec<u8>>) -> (r: CmdlineNext)
    ensures
        followed_by(step, *reply, r),
{
    let buf = match reply {
        Some(buf) => buf,
        None => return CmdlineNext::Failed,
    };
    match step {
        CmdlineStep::BasicInfo => {
            if buf.len() < 16 {
                return CmdlineNext::Failed;
            }
            let peb: u64 = read_address(buf, 8);
            if peb == 0 || peb > u64::MAX - 0x20 {
                return CmdlineNext::Failed;
            }
            CmdlineNext::Read(CmdlineStep::Parameters { at: peb + 0x20 })
        },
        CmdlineStep::Parameters { .. } => {
            if buf.len() < 8 {
                return CmdlineNext::Failed;
            }
            let pp: u64 = read_address(buf, 0);
            if pp == 0 || pp > u64::MAX - 0x70 {
                return CmdlineNext::Failed;
            }
            CmdlineNext::Read(CmdlineStep::Descriptor { at: pp + 0x70 })
        },
        CmdlineStep::Descriptor { .. } => {
            if buf.len() < 16 {
                return CmdlineNext::Failed;
            }
            let len: usize = buf[0] as usize + 0x100 * buf[1] as usize;
            let at: u64 = read_address(buf, 8);
            if len == 0 || at == 0 {
                return CmdlineNext::Failed;
            }
            CmdlineNext::Read(CmdlineStep::Units { at, len })
        },
        CmdlineStep::Units { .. } => {
            let units = read_units(buf);
            CmdlineNext::Done(decode_units(units.as_slice()))
        },
    }
}

/// Four bytes of a buffer hold a number, lowest byte first.
#[verifier::opaque]
pub open spec fn holds_number(buf: Seq<u8>, at: int, n: u32) -> bool {
    &&& 0 <= at
    &&& at + 4 <= buf.len()
    &&& buf[at] == n as int % 0x100
    &&& buf[at + 1] == n as int / 0x100 % 0x100
    &&& buf[at + 2] == n as int / 0x1_0000 % 0x100
    &&& buf[at + 3] == n as int / 0x100_0000
}

/// A number that stands in a buffer is read from it.
pub proof fn lemma_number_is_read(buf: Seq<u8>, at: int, n: u32)
    requires
        holds_number(buf, at, n),
    ensures
        number_at(buf, at) == n,
{
    reveal(holds_number);
}

/// As many rows are read as a table says it has, where there is room for them; and never one that
/// does not lie in the buffer.
pub proof fn lemma_rows_lie_in_the_buffer(buf: Seq<u8>, row: int, said: u32)
    requires
        row > 0,
        buf.len() >= 4 ==> holds_number(buf, 0, said),
    ensures
        buf.len() < 4 ==> rows_held(buf, row) == 0,
        buf.len() >= 4 ==> 0 <= rows_held(buf, row) <= said && 4 + rows_held(buf, row) * row
            <= buf.len(),
        buf.len() >= 4 && 4 + said * row <= buf.len() ==> rows_held(buf, row) == said,
        buf.len() >= 4 && 4 + said * row > buf.len() ==> 4 + (rows_held(buf, row) + 1) * row
            > buf.len(),
{
    if buf.len() >= 4 {
        lemma_number_is_read(buf, 0, said);
        let n = buf.len() - 4;
        let room = n / row;
        assert(0 <= room && room * row <= n && (room + 1) * row > n) by (nonlinear_arith)
            requires
                row > 0,
                n >= 0,
                room == n / row,
        ;
        assert(said <= room ==> said * row <= room * row) by (nonlinear_arith)
            requires
                row > 0,
        ;
        assert(said > room ==> said * row >= (room + 1) * row) by (nonlinear_arith)
            requires
                row > 0,
        ;
    }
}

/// Where the fields of a row of the interface table stand.
pub proof fn lemma_interface_row_is_read(
    buf: Seq<u8>,
    at: int,
    index: u32,
    kind: u32,
    received: u32,
    sent: u32,
)
    requires
        holds_number(buf, at + 512, index),
        holds_number(buf, at + 516, kind),
        holds_number(buf, at + 552, received),
        holds_number(buf, at + 556, sent),
    ensures
        if_row_at(buf, at) == (IfRow { index, kind, in_octets: received, out_octets: sent }),
        IF_ROW_BYTES == 860,
{
    lemma_number_is_read(buf, at + 512, index);
    lemma_number_is_read(buf, at + 516, kind);
    lemma_number_is_read(buf, at + 552, received);
    lemma_number_is_read(buf, at + 556, sent);
}

/// Where the fields of a row of the connection tables stand.
pub proof fn lemma_connection_row_is_read(
    buf: Seq<u8>,
    at: int,
    long: Tcp6Row,
    state: u32,
    addr: u32,
    port: u32,
    pid: u32,
)
    requires
        holds_number(buf, at, state),
    ensures
        holds_number(buf, at + 12, addr) && holds_number(buf, at + 16, port) && holds_number(
            buf,
            at + 20,
            pid,
        ) ==> tcp_row_at(buf, at) == (TcpRow {
            state,
            remote_addr: addr,
            remote_port: port,
            pid,
        }),
        holds_number(buf, at + 48, port) && holds_number(buf, at + 52, pid) && is_tcp6_row_at(
            long,
            buf,
            at,
        ) ==> long.state == state && long.remote_port == port && long.pid == pid
            && long.remote_addr@.len() == 16 && forall|k: int|
            0 <= k < 16 ==> #[trigger] long.remote_addr@[k] == buf[at + 28 + k],
        TCP_ROW_BYTES == 24,
        TCP6_ROW_BYTES == 56,
{
    lemma_number_is_read(buf, at, state);
    if holds_number(buf, at + 12, addr) && holds_number(buf, at + 16, port) && holds_number(
        buf,
        at + 20,
        pid,
    ) {
        lemma_number_is_read(buf, at + 12, addr);
        lemma_number_is_read(buf, at + 16, port);
        lemma_number_is_read(buf, at + 20, pid);
    }
    if holds_number(buf, at + 48, port) && holds_number(buf, at + 52, pid) && is_tcp6_row_at(
        long,
        buf,
        at,
    ) {
        lemma_number_is_read(buf, at + 48, port);
        lemma_number_is_read(buf, at + 52, pid);
        reveal(holds_number);
    }
}

/// Every interface in a table is listed with what it sent and received, but for the loopback.
pub proof fn lemma_loopback_is_left_out(rows: Seq<IfRow>, r: IfRow)
    ensures
        r.kind == 24 ==> ifaces_in_table(rows.push(r)) == ifaces_in_table(rows),
        r.kind != 24 ==> {
            let (a, b) = (ifaces_in_table(rows), ifaces_in_table(rows.push(r)));
            &&& b.len() == a.len() + 1
            &&& b.drop_last() == a
            &&& number_of(b.last().0) == r.index
            &&& b.last().1 == r.out_octets
            &&& b.last().2 == r.in_octets
        },
{
    assert(rows.push(r).drop_last() =~= rows);
    lemma_number_reads_back(r.index as nat);
    if r.kind != 24 {
        assert(ifaces_in_table(rows.push(r)).drop_last() =~= ifaces_in_table(rows));
    }
}

proof fn lemma_listed_names(rows: Seq<IfAddr>, name: Seq<char>)
    ensures
        names_iface(ifaces_in_addresses(rows), name) == (name != "lo0"@ && exists|k: int|
            0 <= k < rows.len() && (#[trigger] rows[k]).name@ == name),
    decreases rows.len(),
{
    lemma_interfaces_are_listed_once(rows);
    let now = ifaces_in_addresses(rows);
    if rows.len() > 0 {
        let rest = rows.drop_last();
        let before = ifaces_in_addresses(rest);
        lemma_listed_names(rest, name);
        if names_iface(now, name) {
            let i = choose|i: int| 0 <= i < now.len() && (#[trigger] now[i]).0 == name;
            if i < before.len() {
                assert(before[i] == now[i]);
                assert(names_iface(before, name));
                let k = choose|k: int| 0 <= k < rest.len() && (#[trigger] rest[k]).name@ == name;
                assert(rows[k] == rest[k]);
            } else {
                assert(rows[rows.len() - 1].name@ == name);
            }
        }
    }
}

/// The counters under the first address of an interface are those that count, and the loopback has
/// none that do.
pub proof fn lemma_first_address_counts(rows: Seq<IfAddr>, r: IfAddr)
    ensures
        ({
            let (a, b) = (ifaces_in_addresses(rows), ifaces_in_addresses(rows.push(r)));
            if r.name@ == "lo0"@ || exists|k: int|
                0 <= k < rows.len() && (#[trigger] rows[k]).name@ == r.name@ {
                b == a
            } else {
                b == a.push((r.name@, r.out_bytes, r.in_bytes))
            }
        }),
{
    assert(rows.push(r).drop_last() =~= rows);
    lemma_listed_names(rows, r.name@);
}

/// A port stands in a table with its high byte first.
pub proof fn lemma_port_has_its_high_byte_first(high: int, low: int, rest: int)
    requires
        0 <= high < 0x100,
        0 <= low < 0x100,
        0 <= rest < 0x1_0000,
    ensures
        port_of((high + 0x100 * low + 0x1_0000 * rest) as u32) == 0x100 * high + low,
{
    let p = high + 0x100 * low + 0x1_0000 * rest;
    assert(p % 0x100 == high && p / 0x100 == low + 0x100 * rest);
    assert((p / 0x100) % 0x100 == low);
}

/// A short address is written as its four bytes, lowest first, with dots between them.
pub proof fn lemma_short_address_is_written(a: int, b: int, c: int, d: int)
    requires
        0 <= a < 0x100,
        0 <= b < 0x100,
        0 <= c < 0x100,
        0 <= d < 0x100,
    ensures
        short_address((a + 0x100 * b + 0x1_0000 * c + 0x100_0000 * d) as u32) == decimal(a as nat)
            + seq!['.'] + decimal(b as nat) + seq!['.'] + decimal(c as nat) + seq!['.'] + decimal(
            d as nat,
        ),
{
    reveal_strlit(".");
    assert("."@ =~= seq!['.']);
    let v = a + 0x100 * b + 0x1_0000 * c + 0x100_0000 * d;
    assert(v % 0x100 == a && v / 0x100 == b + 0x100 * c + 0x1_0000 * d);
    assert((v / 0x100) % 0x100 == b && v / 0x1_0000 == c + 0x100 * d);
    assert((v / 0x1_0000) % 0x100 == c && v / 0x100_0000 == d);
    assert((v / 0x100_0000) % 0x100 == d);
}

/// What a hexadecimal digit stands for.
pub open spec fn hex_value(c: char) -> int {
    if '0' <= c <= '9' {
        c as int - '0' as int
    } else {
        c as int - 'a' as int + 10
    }
}

/// A long address is written in full: eight groups of four digits, each for two bytes, with colons
/// between them.
pub proof fn lemma_long_address_is_written(b: Seq<u8>, groups: nat, g: int)
    requires
        0 <= g < groups,
    ensures
        long_address(b, groups).len() == 5 * groups - 1,
        ({
            let s = long_address(b, groups);
            &&& hex_value(s[5 * g]) * 16 + hex_value(s[5 * g + 1]) == b[2 * g]
            &&& hex_value(s[5 * g + 2]) * 16 + hex_value(s[5 * g + 3]) == b[2 * g + 1]
            &&& g + 1 < groups ==> s[5 * g + 4] == ':'
        }),
    decreases groups,
{
    let last = groups - 1;
    let before = long_address(b, last as nat);
    let s = long_address(b, groups);
    if last > 0 {
        lemma_long_address_is_written(b, last as nat, if g < last {
            g
        } else {
            0
        });
        let joined = before.push(':');
        assert(s =~= joined + hex_pair(b[2 * last]) + hex_pair(b[2 * last + 1]));
        assert(forall|i: int| 0 <= i < before.len() ==> s[i] == before[i]);
        assert(s[before.len() as int] == ':');
    } else {
        assert(before =~= Seq::empty());
        assert(s =~= hex_pair(b[0]) + hex_pair(b[1]));
    }
    if g == last {
        let n = 5 * g;
        assert(s[n] == hex_digit(b[2 * g] as int / 16));
        assert(s[n + 1] == hex_digit(b[2 * g] as int % 16));
        assert(s[n + 2] == hex_digit(b[2 * g + 1] as int / 16));
        assert(s[n + 3] == hex_digit(b[2 * g + 1] as int % 16));
    }
}

/// Every established connection of a process of the group is listed, with the address and the port
/// of its other end; and nothing is listed but connections of processes of the group.
pub proof fn lemma_established_connections_are_listed(
    conns: Seq<(Seq<char>, u32)>,
    t: TcpTables,
    pids: Set<u32>,
    i: int,
)
    requires
        are_conns(conns, t, pids),
    ensures
        0 <= i < t.short@.len() && t.short@[i].state == 5 && pids.contains(t.short@[i].pid)
            ==> conns.contains(
            (
                short_address(t.short@[i].remote_addr) + seq![':'] + decimal(
                    port_of(t.short@[i].remote_port),
                ),
                t.short@[i].pid,
            ),
        ),
        0 <= i < t.long@.len() && t.long@[i].state == 5 && pids.contains(t.long@[i].pid)
            ==> conns.contains(
            (
                seq!['['] + long_address(t.long@[i].remote_addr@, 8) + seq![']', ':'] + decimal(
                    port_of(t.long@[i].remote_port),
                ),
                t.long@[i].pid,
            ),
        ),
        forall|k: int| 0 <= k < conns.len() ==> pids.contains((#[trigger] conns[k]).1),
        (forall|j: int| 0 <= j < t.short@.len() ==> (#[trigger] t.short@[j]).state != 5) && (forall|
            j: int,
        | 0 <= j < t.long@.len() ==> (#[trigger] t.long@[j]).state != 5) ==> conns.len() == 0,
{
    reveal_strlit(":");
    reveal_strlit("[");
    reveal_strlit("]:");
    assert(":"@ =~= seq![':'] && "["@ =~= seq!['['] && "]:"@ =~= seq![']', ':']);
    if 0 <= i < t.short@.len() && t.short@[i].state == 5 && pids.contains(t.short@[i].pid) {
        let c = (short_remote(t.short@[i]), t.short@[i].pid);
        assert(short_counts(t.short@[i], pids));
        assert(among(c, t.short@, t.long@, pids));
        assert(holds(conns, c));
    }
    if 0 <= i < t.long@.len() && t.long@[i].state == 5 && pids.contains(t.long@[i].pid) {
        let c = (long_remote(t.long@[i]), t.long@[i].pid);
        assert(long_counts(t.long@[i], pids));
        assert(among(c, t.short@, t.long@, pids));
        assert(holds(conns, c));
    }
    assert forall|k: int| 0 <= k < conns.len() implies pids.contains((#[trigger] conns[k]).1) by {
        assert(holds(conns, conns[k]));
        assert(among(conns[k], t.short@, t.long@, pids));
    }
    if conns.len() > 0 {
        assert(holds(conns, conns[0]));
        assert(among(conns[0], t.short@, t.long@, pids));
    }
}

/// What a process is, is told by its command line; what carries sessions is told before all else.
pub proof fn lemma_process_is_told_by_its_command(cmd: Seq<char>)
    ensures
        contains_text(cmd, "zcode.cjs"@) ==> label_of(cmd) == "CLI 会话进程"@,
        !contains_text(cmd, "zcode.cjs"@) && contains_text(cmd, "crashpad"@) ==> label_of(cmd)
            == "崩溃报告进程"@,
        !contains_text(cmd, "zcode.cjs"@) && !contains_text(cmd, "crashpad"@) ==> {
            &&& contains_text(cmd, "--type=renderer"@) ==> label_of(cmd) == "渲染进程"@
            &&& !contains_text(cmd, "--type=renderer"@) && contains_text(
                cmd,
                "--type=gpu-process"@,
            ) ==> label_of(cmd) == "GPU 进程"@
            &&& !contains_text(cmd, "--type=renderer"@) && !contains_text(
                cmd,
                "--type=gpu-process"@,
            ) && contains_text(cmd, "--type=utility"@) ==> label_of(cmd) == "工具进程"@
            &&& !contains_text(cmd, "--type="@) ==> label_of(cmd) == "主进程"@
        },
{
    lemma_type_option(cmd);
}

proof fn lemma_type_option(cmd: Seq<char>)
    ensures
        contains_text(cmd, "--type=renderer"@) ==> contains_text(cmd, "--type="@),
        contains_text(cmd, "--type=gpu-process"@) ==> contains_text(cmd, "--type="@),
        contains_text(cmd, "--type=utility"@) ==> contains_text(cmd, "--type="@),
{
    reveal_strlit("--type=");
    reveal_strlit("--type=renderer");
    reveal_strlit("--type=gpu-process");
    reveal_strlit("--type=utility");
    lemma_longer_option(cmd, "--type=renderer"@);
    lemma_longer_option(cmd, "--type=gpu-process"@);
    lemma_longer_option(cmd, "--type=utility"@);
}

proof fn lemma_longer_option(cmd: Seq<char>, pat: Seq<char>)
    ensures
        contains_text(cmd, pat) && pat.len() >= 7 && pat.take(7) =~= "--type="@ ==> contains_text(
            cmd,
            "--type="@,
        ),
{
    reveal_strlit("--type=");
    if contains_text(cmd, pat) && pat.len() >= 7 && pat.take(7) =~= "--type="@ {
        let at = choose|at: int| #[trigger] occurs_at(cmd, pat, at);
        assert(cmd.subrange(at, at + 7) =~= cmd.subrange(at, at + pat.len()).take(7));
        assert(occurs_at(cmd, "--type="@, at));
    }
}

/// A process of ZCode belongs to one of the two groups, by whether its command line names the
/// program that carries sessions; one whose command line could not be read, or of another program,
/// belongs to neither.
pub open spec fn belongs(p: ProcRow, cli: bool) -> bool {
    &&& same_but_for_case(p.exe@, "zcode.exe"@)
    &&& p.cmdline matches Some(cmd) && contains_text(cmd@, "zcode.cjs"@) == cli
}

/// The groups hold the numbers of the processes that belong to them, and no others.
pub proof fn lemma_processes_are_parted(procs: Seq<ProcRow>, cli: bool, pid: u32)
    ensures
        by_pid(group_of(procs, cli)).dom().contains(pid) == exists|i: int|
            0 <= i < procs.len() && (#[trigger] procs[i]).pid == pid && belongs(procs[i], cli),
    decreases procs.len(),
{
    if procs.len() > 0 {
        let before = procs.drop_last();
        let last = procs[procs.len() - 1];
        lemma_processes_are_parted(before, cli, pid);
        let (a, b) = (group_of(before, cli), group_of(procs, cli));
        if belongs(last, cli) {
            assert(b.drop_last() =~= a);
            assert(b.last().0 == last.pid);
        } else {
            assert(b == a);
        }
        if exists|i: int|
            0 <= i < before.len() && (#[trigger] before[i]).pid == pid && belongs(before[i], cli) {
            let i = choose|i: int|
                0 <= i < before.len() && (#[trigger] before[i]).pid == pid && belongs(
                    before[i],
                    cli,
                );
            assert(procs[i] == before[i]);
        }
        if exists|i: int|
            0 <= i < procs.len() && (#[trigger] procs[i]).pid == pid && belongs(procs[i], cli) {
            let i = choose|i: int|
                0 <= i < procs.len() && (#[trigger] procs[i]).pid == pid && belongs(procs[i], cli);
            if i < before.len() {
                assert(before[i] == procs[i]);
            }
        }
    }
}

/// A program has the name that stands before the first zero.
pub proof fn lemma_name_ends_at_the_first_zero(units: Seq<u16>)
    ensures
        ({
            let n = before_zero(units).len() as int;
            &&& n <= units.len()
            &&& before_zero(units) == units.take(n)
            &&& forall|i: int| 0 <= i < n ==> #[trigger] units[i] != 0
            &&& n < units.len() ==> units[n] == 0
        }),
    decreases units.len(),
{
    if units.len() > 0 && units[0] != 0 {
        let rest = units.drop_first();
        lemma_name_ends_at_the_first_zero(rest);
        let n = before_zero(units).len() as int;
        assert(n == before_zero(rest).len() + 1);
        assert(before_zero(units) =~= units.take(n));
        assert forall|i: int| 0 <= i < n implies #[trigger] units[i] != 0 by {
            if i > 0 {
                assert(rest[i - 1] == units[i]);
            }
        }
        if n < units.len() {
            assert(rest[n - 1] == units[n]);
        }
    } else {
        assert(before_zero(units) =~= units.take(0));
    }
}

/// The way to the command line of a process: each read tells where the next one is. A null address,
/// an empty command line, and a reply that is too short lead nowhere.
pub proof fn lemma_way_to_the_command_line(buf: Seq<u8>, at: u64)
    ensures
        next_read(CmdlineStep::BasicInfo, buf) matches Some(s) ==> buf.len() >= 16 && s
            == (CmdlineStep::Parameters { at: (address_at(buf, 8) + 32) as u64 }) && address_at(
            buf,
            8,
        ) > 0,
        buf.len() >= 16 && 0 < address_at(buf, 8) <= u64::MAX - 32 ==> next_read(
            CmdlineStep::BasicInfo,
            buf,
        ) is Some,
        next_read(CmdlineStep::Parameters { at }, buf) matches Some(s) ==> buf.len() >= 8 && s
            == (CmdlineStep::Descriptor { at: (address_at(buf, 0) + 112) as u64 }) && address_at(
            buf,
            0,
        ) > 0,
        buf.len() >= 8 && 0 < address_at(buf, 0) <= u64::MAX - 112 ==> next_read(
            CmdlineStep::Parameters { at },
            buf,
        ) is Some,
        next_read(CmdlineStep::Descriptor { at }, buf) matches Some(s) ==> buf.len() >= 16
            && address_at(buf, 8) > 0 && s == (CmdlineStep::Units {
            at: address_at(buf, 8) as u64,
            len: (256 * buf[1] + buf[0]) as usize,
        }) && 256 * buf[1] + buf[0] > 0,
        buf.len() >= 16 && address_at(buf, 8) > 0 && 256 * buf[1] + buf[0] > 0 ==> next_read(
            CmdlineStep::Descriptor { at },
            buf,
        ) is Some,
{
}

/// A text in units of sixteen bits is read character by character: a unit stands for the character of
/// its number, and a character that needs two is read from both. Half of a character is replaced.
pub proof fn lemma_units_are_read(unit: u16, character: int, rest: Seq<u16>)
    requires
        0x1_0000 <= character < 0x11_0000,
    ensures
        unit < 0xd800 || unit >= 0xe000 ==> lossy_text(seq![unit] + rest) == seq![unit as char]
            + lossy_text(rest),
        ({
            let high = (0xd800 + (character - 0x1_0000) / 0x400) as u16;
            let low = (0xdc00 + (character - 0x1_0000) % 0x400) as u16;
            lossy_text(seq![high, low] + rest) == seq![character as char] + lossy_text(rest)
        }),
        0xdc00 <= unit < 0xe000 ==> lossy_text(seq![unit] + rest) == seq!['\u{fffd}'] + lossy_text(
            rest,
        ),
        0xd800 <= unit < 0xdc00 && (rest.len() > 0 ==> rest[0] < 0xdc00 || rest[0] >= 0xe000)
            ==> lossy_text(seq![unit] + rest) == seq!['\u{fffd}'] + lossy_text(rest),
        lossy_text(Seq::empty()) == Seq::<char>::empty(),
{
    assert((seq![unit] + rest).skip(1) =~= rest);
    let high = (0xd800 + (character - 0x1_0000) / 0x400) as u16;
    let low = (0xdc00 + (character - 0x1_0000) % 0x400) as u16;
    assert((seq![high, low] + rest).skip(2) =~= rest);
    assert(high - 0xd800 == (character - 0x1_0000) / 0x400);
    assert(low - 0xdc00 == (character - 0x1_0000) % 0x400);
    if rest.len() > 0 {
        assert((seq![unit] + rest)[1] == rest[0]);
    }
}

/// The command line is what the bytes at its end hold, two for each unit, the low one first. A read
/// that fails ends the way to it.
pub proof fn lemma_command_line_is_read(
    buf: Vec<u8>,
    at: u64,
    len: usize,
    units: Seq<u16>,
    r: CmdlineNext,
    step: CmdlineStep,
)
    ensures
        buf@.len() == 2 * units.len() && (forall|i: int|
            0 <= i < units.len() ==> buf@[2 * i] == #[trigger] units[i] as int % 0x100 && buf@[2 * i
                + 1] == units[i] as int / 0x100) && followed_by(
            CmdlineStep::Units { at, len },
            Some(buf),
            r,
        ) ==> (r matches CmdlineNext::Done(s) && s@ == lossy_text(units)),
        followed_by(step, None, r) ==> r is Failed,
        followed_by(step, Some(buf), r) && !(step is Units) ==> !(r is Done),
{
    if buf@.len() == 2 * units.len() && (forall|i: int|
        0 <= i < units.len() ==> buf@[2 * i] == #[trigger] units[i] as int % 0x100 && buf@[2 * i + 1]
            == units[i] as int / 0x100) {
        assert forall|i: int| 0 <= i < units.len() implies #[trigger] units_of(buf@)[i]
            == units[i] by {
            assert(buf@[2 * i] == units[i] as int % 0x100);
        }
        assert(units_of(buf@) =~= units);
    }
}

/// Connections are listed in the order of their remote ends, and of their processes where these are
/// the same; none is listed twice.
pub proof fn lemma_connections_are_in_order(
    conns: Seq<(Seq<char>, u32)>,
    t: TcpTables,
    pids: Set<u32>,
    i: int,
    j: int,
)
    requires
        are_conns(conns, t, pids),
        0 <= i < j < conns.len(),
    ensures
        conns[i] != conns[j],
        conns[i].0 == conns[j].0 ==> conns[i].1 < conns[j].1,
        text_le(conns[i].0, conns[j].0) || conns[i].0 == conns[j].0,
{
    assert(conn_before(conns[i], conns[j]));
}

/// A process is known under its number by what its command line tells it to be; one that is found
/// later under the same number takes its place, and the others are as they were.
pub proof fn lemma_process_is_labelled(procs: Seq<ProcRow>, p: ProcRow, cli: bool, other: u32)
    ensures
        ({
            let (a, b) = (by_pid(group_of(procs, cli)), by_pid(group_of(procs.push(p), cli)));
            &&& belongs(p, cli) ==> b.dom().contains(p.pid) && b[p.pid] == label_of(
                (p.cmdline->0)@,
            )
            &&& belongs(p, cli) && other != p.pid ==> b.dom().contains(other) == a.dom().contains(
                other,
            ) && (a.dom().contains(other) ==> b[other] == a[other])
            &&& !belongs(p, cli) ==> a == b
        }),
{
    assert(procs.push(p).drop_last() =~= procs);
    let (x, y) = (group_of(procs, cli), group_of(procs.push(p), cli));
    if belongs(p, cli) {
        assert(y.drop_last() =~= x);
    }
}

} // verus!
