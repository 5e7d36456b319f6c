//! Traffic of the whole machine, estimates for the sessions, and uploads of checkpoints.

use vstd::prelude::*;
use crate::text::{
    decimal, lemma_number_reads_back, lemma_zeros_in_front_do_not_count, number_of, padded_text,
    zero_padded,
};

verus! {

/// Counts below this are kept exactly by a number with 53 significant bits.
pub const EXACT_BELOW: u128 = 0x20_0000_0000_0000;

/// The distance between neighbouring numbers of 53 significant bits in the neighbourhood of `n`.
pub open spec fn spacing(n: nat) -> nat
    decreases n,
{
    if n < EXACT_BELOW {
        1
    } else {
        2 * spacing(n / 2)
    }
}

/// The nearest number of 53 significant bits; of two that are equally near the even one.
pub open spec fn rounded(n: nat) -> nat {
    let u = spacing(n);
    let (q, r) = (n / u, n % u);
    if 2 * r < u || 2 * r == u && q % 2 == 0 {
        q * u
    } else {
        (q + 1) * u
    }
}

/// So many bytes for each token, in numbers of 53 significant bits.
pub open spec fn estimate(tokens: u64, bytes_per_token: nat) -> u64 {
    let e = rounded(rounded(tokens as nat) * bytes_per_token);
    if e <= u64::MAX {
        e as u64
    } else {
        u64::MAX
    }
}

proof fn lemma_spacing(n: nat)
    ensures
        spacing(n) >= 1,
        spacing(n) * (EXACT_BELOW / 2) <= n || spacing(n) == 1,
    decreases n,
{
    if n >= EXACT_BELOW {
        lemma_spacing(n / 2);
        let u = spacing(n / 2);
        assert(2 * u * (EXACT_BELOW / 2) <= n) by (nonlinear_arith)
            requires
                u * (EXACT_BELOW / 2) <= n / 2 || u == 1,
                n >= EXACT_BELOW,
        ;
    }
}

fn round(n: u128) -> (r: u128)
    requires
        n < 0x1_0000_0000_0000_0000_0000_0000,
    ensures
        r == rounded(n as nat),
        r <= 2 * n,
{
    let mut m: u128 = n;
    let mut u: u128 = 1;
    while m >= EXACT_BELOW
        invariant
            n < 0x1_0000_0000_0000_0000_0000_0000,
            u >= 1,
            u * m <= n,
            u * spacing(m as nat) == spacing(n as nat),
        decreases m,
    {
        proof {
            let s = spacing((m / 2) as nat);
            assert(u * (2 * s) == (2 * u) * s) by (nonlinear_arith);
            assert((2 * u) * (m / 2) <= u * m) by (nonlinear_arith)
                requires
                    u >= 1,
                    m >= 0,
            ;
            assert(2 * u <= n) by (nonlinear_arith)
                requires
                    u * m <= n,
                    m >= EXACT_BELOW,
                    u >= 1,
            ;
        }
        m = m / 2;
        u = 2 * u;
    }
    assert(u * 1 == u);
    assert(u == spacing(n as nat));
    let q: u128 = n / u;
    let r: u128 = n % u;
    proof {
        lemma_spacing(n as nat);
        assert(n == q * u + r && r < u) by (nonlinear_arith)
            requires
                u >= 1,
                q == n / u,
                r == n % u,
        ;
        assert((q + 1) * u == q * u + u) by (nonlinear_arith);
    }
    let down = r < u - r || r == u - r && q % 2 == 0;
    assert(!down ==> r >= 1);
    if down {
        q * u
    } else {
        assert(u <= n) by (nonlinear_arith)
            requires
                u * (EXACT_BELOW / 2) <= n || u == 1,
                n == q * u + r,
                r < u,
                r >= 1,
                u >= 1,
                q >= 0,
        ;
        (q + 1) * u
    }
}

/// Bytes that a session sends for each token that is not in the cache.
pub const SESS_UP_BPT: u64 = 5;

/// Bytes that a session receives for each token that is streamed out.
pub const SESS_DOWN_BPT: u64 = 400;

fn estimated(tokens: u64, bytes_per_token: u64) -> (r: u64)
    requires
        bytes_per_token <= 400,
    ensures
        r == estimate(tokens, bytes_per_token as nat),
{
    let t: u128 = round(tokens as u128);
    assert(t * bytes_per_token <= 0x2_0000_0000_0000_0000 * 400) by (nonlinear_arith)
        requires
            t <= 0x2_0000_0000_0000_0000,
            bytes_per_token <= 400,
    ;
    let e: u128 = round(t * bytes_per_token as u128);
    if e <= u64::MAX as u128 {
        e as u64
    } else {
        u64::MAX
    }
}

/// Estimates the traffic of the sessions: what they sent and what they received.
pub fn sess_bytes_est(uncached_input_tokens: u64, output_tokens: u64) -> (r: (u64, u64))
    ensures
        r.0 == estimate(uncached_input_tokens, SESS_UP_BPT as nat),
        r.1 == estimate(output_tokens, SESS_DOWN_BPT as nat),
{
    (
        estimated(uncached_input_tokens, SESS_UP_BPT),
        estimated(output_tokens, SESS_DOWN_BPT),
    )
}

/// Estimates of all numbers of tokens that occur in practice are exact.
pub proof fn lemma_estimate_is_exact(tokens: u64, bytes_per_token: nat)
    requires
        bytes_per_token >= 1,
        tokens * bytes_per_token < EXACT_BELOW,
    ensures
        estimate(tokens, bytes_per_token) == tokens * bytes_per_token,
{
    assert(0 <= tokens <= tokens * bytes_per_token) by (nonlinear_arith)
        requires
            bytes_per_token >= 1,
    ;
    let p = (tokens * bytes_per_token) as nat;
    assert(rounded(tokens as nat) == tokens) by {
        assert((tokens as nat) / 1 == tokens && (tokens as nat) % 1 == 0);
    }
    assert(rounded(p) == p) by {
        assert(p < EXACT_BELOW);
        assert(spacing(p) == 1);
        assert(p / 1 == p && p % 1 == 0);
        assert(p * 1 == p);
    }
}

/// A 64-bit counter read as a signed number.
pub open spec fn signed(x: u64) -> int {
    if x <= i64::MAX {
        x as int
    } else {
        x - 0x1_0000_0000_0000_0000
    }
}

fn as_signed(x: u64) -> (r: i64)
    ensures
        r == signed(x),
{
    if x <= i64::MAX as u64 {
        x as i64
    } else {
        -((u64::MAX - x) as i64) - 1
    }
}

/// A counter cannot have moved this far from one look to the next.
pub const MAX_DELTA: u64 = 0x8000_0000;

/// How far a counter moved. One that starts over at `wrap` is followed around; one that does not,
/// and has fallen back, was set to zero.
pub open spec fn moved(new: u64, old: u64, wrap: u64) -> int {
    if wrap > 0 {
        (signed(new) - signed(old)) % signed(wrap)
    } else if new >= old {
        new - old
    } else {
        0
    }
}

/// How far a counter moved, where that is plausible.
pub open spec fn delta(new: u64, old: u64, wrap: u64) -> int {
    let d = moved(new, old, wrap);
    if d >= MAX_DELTA {
        0
    } else {
        d
    }
}

/// The difference of two counters can be formed in 64 bits.
pub open spec fn comparable(new: u64, old: u64, wrap: u64) -> bool {
    wrap > 0 ==> {
        let d = signed(new) - signed(old);
        i64::MIN <= d <= i64::MAX && !(d == i64::MIN && wrap == u64::MAX)
    }
}

/// Computes how far a counter moved.
pub fn wrap_delta(new: u64, old: u64, wrap: u64) -> (r: u64)
    requires
        comparable(new, old, wrap),
    ensures
        r == delta(new, old, wrap),
        r < MAX_DELTA,
{
    let d: u64 = if wrap > 0 {
        let diff: i64 = as_signed(new) - as_signed(old);
        let by: i64 = as_signed(wrap);
        assert(0 <= diff as int % by as int) by (nonlinear_arith)
            requires
                by != 0,
        ;
        diff.checked_rem_euclid(by).unwrap() as u64
    } else if new >= old {
        new - old
    } else {
        0
    };
    if d >= MAX_DELTA {
        0
    } else {
        d
    }
}

/// A counter that moved on without starting over, and not too far, moved by the difference;
/// one of 32 bits that started over moved by what was left plus what it counted since.
pub proof fn lemma_counter_is_followed(new: u64, old: u64, wrap: u64)
    requires
        wrap == 0x1_0000_0000,
        new < wrap,
        old < wrap,
    ensures
        comparable(new, old, wrap),
        new >= old && new - old < MAX_DELTA ==> delta(new, old, wrap) == new - old,
        new < old && wrap - old + new < MAX_DELTA ==> delta(new, old, wrap) == wrap - old + new,
{
    let d = new - old;
    assert(moved(new, old, wrap) == d % 0x1_0000_0000);
    assert(d >= 0 ==> d % 0x1_0000_0000 == d);
    assert(d < 0 ==> d % 0x1_0000_0000 == d + 0x1_0000_0000);
}

/// A year in at least four characters.
pub open spec fn year_text(y: i32) -> Seq<char> {
    if y >= 0 {
        zero_padded(decimal(y as nat), 4)
    } else {
        seq!['-'] + zero_padded(decimal((-y) as nat), 3)
    }
}

/// A day: year, month and day with dashes between them.
pub open spec fn day_text(ymd: (i32, u32, u32)) -> Seq<char> {
    year_text(ymd.0) + "-"@ + zero_padded(decimal(ymd.1 as nat), 2) + "-"@ + zero_padded(
        decimal(ymd.2 as nat),
        2,
    )
}

/// Writes a day.
pub fn ymd_str(ymd: (i32, u32, u32)) -> (r: String)
    ensures
        r@ == day_text(ymd),
{
    let mut s = if ymd.0 >= 0 {
        padded_text(ymd.0 as u64, 4)
    } else {
        let mut t = String::new();
        t.push('-');
        let size: u64 = (-(ymd.0 as i64)) as u64;
        t.append(padded_text(size, 3).as_str());
        assert(t@ =~= year_text(ymd.0));
        t
    };
    s.append("-");
    s.append(padded_text(ymd.1 as u64, 2).as_str());
    s.append("-");
    s.append(padded_text(ymd.2 as u64, 2).as_str());
    s
}

/// A day has so many milliseconds.
pub const DAY_MS: i64 = 86_400_000;

/// When the day began: at midnight, or a day ago where the clock has no single midnight.
pub fn day_start_ms(midnight: Option<i64>, now_ms: i64) -> (r: i64)
    requires
        midnight is None ==> i64::MIN + DAY_MS <= now_ms,
    ensures
        r == match midnight {
            Some(m) => m as int,
            None => now_ms - DAY_MS,
        },
{
    match midnight {
        Some(m) => m,
        None => now_ms - DAY_MS,
    }
}

/// A session is taken to send five bytes for each token that is not in the cache, and to receive
/// four hundred for each that is streamed out.
pub proof fn lemma_bytes_for_each_token(tokens: u64)
    requires
        tokens < 0x100_0000_0000,
    ensures
        estimate(tokens, SESS_UP_BPT as nat) == 5 * tokens,
        estimate(tokens, SESS_DOWN_BPT as nat) == 400 * tokens,
{
    lemma_estimate_is_exact(tokens, 5);
    lemma_estimate_is_exact(tokens, 400);
}

/// Large numbers are rounded to the nearest of those that 53 bits tell apart: they are off by no
/// more than half the distance between two of these, which is tiny beside them.
pub proof fn lemma_rounding_goes_to_the_nearest(n: nat)
    ensures
        n < 0x20_0000_0000_0000 ==> rounded(n) == n,
        2 * (rounded(n) - n) <= spacing(n),
        2 * (n - rounded(n)) <= spacing(n),
        n >= 0x20_0000_0000_0000 ==> spacing(n) * 0x10_0000_0000_0000 <= n,
        rounded(n) % spacing(n) == 0,
{
    lemma_spacing(n);
    let u = spacing(n);
    let (q, r) = (n / u, n % u);
    assert(n == q * u + r && 0 <= r < u) by (nonlinear_arith)
        requires
            u >= 1,
            q == n / u,
            r == n % u,
    ;
    assert((q + 1) * u == q * u + u) by (nonlinear_arith);
    assert((q * u) % u == 0 && ((q + 1) * u) % u == 0) by (nonlinear_arith)
        requires
            u >= 1,
    ;
    if n < 0x20_0000_0000_0000 {
        assert(q * 1 == q && n / 1 == n);
    } else {
        lemma_spacing_of_large(n);
    }
}

proof fn lemma_spacing_of_large(n: nat)
    requires
        n >= 0x20_0000_0000_0000,
    ensures
        spacing(n) * 0x10_0000_0000_0000 <= n,
    decreases n,
{
    let h = n / 2;
    if h >= 0x20_0000_0000_0000 {
        lemma_spacing_of_large(h);
        let s = spacing(h);
        assert(2 * s * 0x10_0000_0000_0000 <= n) by (nonlinear_arith)
            requires
                s * 0x10_0000_0000_0000 <= h,
                h == n / 2,
        ;
    } else {
        assert(spacing(h) == 1);
    }
}

/// What a counter moved by is followed where it rose by less than two gibibytes; a counter that
/// does not start over and fell, or that rose by more, moved by nothing.
pub proof fn lemma_rise_of_a_counter_counts(new: u64, old: u64)
    ensures
        0 <= new - old < 0x8000_0000 ==> delta(new, old, 0) == new - old,
        new < old || new - old >= 0x8000_0000 ==> delta(new, old, 0) == 0,
{
}

proof fn lemma_same_tail(a: Seq<char>, b: Seq<char>, c: Seq<char>, d: Seq<char>)
    requires
        a + seq!['-'] + b == c + seq!['-'] + d,
        forall|i: int| 0 <= i < b.len() ==> #[trigger] b[i] != '-',
        forall|i: int| 0 <= i < d.len() ==> #[trigger] d[i] != '-',
    ensures
        a == c,
        b == d,
{
    let (s, t) = (a + seq!['-'] + b, c + seq!['-'] + d);
    assert(s.len() == t.len());
    if a.len() < c.len() {
        assert(t[c.len() as int] == '-');
        assert(s[c.len() as int] == b[c.len() - a.len() - 1]);
    } else if c.len() < a.len() {
        assert(s[a.len() as int] == '-');
        assert(t[a.len() as int] == d[a.len() - c.len() - 1]);
    }
    assert forall|i: int| 0 <= i < a.len() implies a[i] == c[i] by {
        assert(s[i] == a[i] && t[i] == c[i]);
    }
    assert forall|i: int| 0 <= i < b.len() implies b[i] == d[i] by {
        assert(s[i + a.len() + 1] == b[i] && t[i + a.len() + 1] == d[i]);
    }
    assert(a =~= c);
    assert(b =~= d);
}

proof fn lemma_padded_number(n: nat, width: nat)
    ensures
        number_of(zero_padded(decimal(n), width)) == n,
        zero_padded(decimal(n), width).len() > 0,
        forall|i: int|
            0 <= i < zero_padded(decimal(n), width).len() ==> '0' <= #[trigger] zero_padded(
                decimal(n),
                width,
            )[i] <= '9',
{
    lemma_number_reads_back(n);
    lemma_zeros_in_front_do_not_count(decimal(n), width);
}

proof fn lemma_years_are_told_apart(a: i32, b: i32)
    requires
        year_text(a) == year_text(b),
    ensures
        a == b,
{
    lemma_padded_number(a as nat, 4);
    lemma_padded_number(b as nat, 4);
    lemma_padded_number((-a) as nat, 3);
    lemma_padded_number((-b) as nat, 3);
    let (x, y) = (year_text(a), year_text(b));
    if a >= 0 && b < 0 {
        assert('0' <= x[0] <= '9' && y[0] == '-');
    } else if a < 0 && b >= 0 {
        assert('0' <= y[0] <= '9' && x[0] == '-');
    } else if a < 0 {
        assert(x.skip(1) =~= zero_padded(decimal((-a) as nat), 3));
        assert(y.skip(1) =~= zero_padded(decimal((-b) as nat), 3));
    }
}

/// Days are told apart by how they are written.
pub proof fn lemma_days_are_told_apart(a: (i32, u32, u32), b: (i32, u32, u32))
    ensures
        day_text(a) == day_text(b) ==> a == b,
        day_text(a).len() > 0,
{
    reveal_strlit("-");
    assert("-"@ =~= seq!['-']);
    lemma_padded_number(a.1 as nat, 2);
    lemma_padded_number(a.2 as nat, 2);
    lemma_padded_number(b.1 as nat, 2);
    lemma_padded_number(b.2 as nat, 2);
    let (ma, da) = (zero_padded(decimal(a.1 as nat), 2), zero_padded(decimal(a.2 as nat), 2));
    let (mb, db) = (zero_padded(decimal(b.1 as nat), 2), zero_padded(decimal(b.2 as nat), 2));
    if day_text(a) == day_text(b) {
        assert forall|i: int| 0 <= i < da.len() implies #[trigger] da[i] != '-' by {
            assert('0' <= da[i] <= '9');
        }
        assert forall|i: int| 0 <= i < db.len() implies #[trigger] db[i] != '-' by {
            assert('0' <= db[i] <= '9');
        }
        assert forall|i: int| 0 <= i < ma.len() implies #[trigger] ma[i] != '-' by {
            assert('0' <= ma[i] <= '9');
        }
        assert forall|i: int| 0 <= i < mb.len() implies #[trigger] mb[i] != '-' by {
            assert('0' <= mb[i] <= '9');
        }
        let (x, y) = (year_text(a.0) + seq!['-'] + ma, year_text(b.0) + seq!['-'] + mb);
        lemma_same_tail(x, da, y, db);
        lemma_same_tail(year_text(a.0), ma, year_text(b.0), mb);
        lemma_years_are_told_apart(a.0, b.0);
    }
}

/// The numbers that 53 bits tell apart lie no farther from each other than they have to: so close
/// that the next larger distance would do only for numbers of more bits. From one power of two to
/// the next the distance doubles; and a number that lies in the middle between two of them goes to
/// the even one.
pub proof fn lemma_rounding_is_fine_and_even(n: nat)
    ensures
        n < spacing(n) * 0x20_0000_0000_0000,
        n >= 0x10_0000_0000_0000 ==> spacing(2 * n) == 2 * spacing(n),
        2 * (n % spacing(n)) == spacing(n) ==> (rounded(n) / spacing(n)) % 2 == 0,
        2 * (n % spacing(n)) < spacing(n) ==> rounded(n) <= n,
        2 * (n % spacing(n)) > spacing(n) ==> rounded(n) > n,
{
    lemma_spacing(n);
    lemma_spacing_reaches(n);
    if n >= 0x10_0000_0000_0000 {
        assert((2 * n) / 2 == n);
    }
    let u = spacing(n);
    let (q, r) = (n / u, n % u);
    assert(n == q * u + r && 0 <= r < u) by (nonlinear_arith)
        requires
            u >= 1,
            q == n / u,
            r == n % u,
    ;
    assert((q + 1) * u == q * u + u) by (nonlinear_arith);
    assert((q * u) / u == q && ((q + 1) * u) / u == q + 1) by (nonlinear_arith)
        requires
            u >= 1,
    ;
}

proof fn lemma_spacing_reaches(n: nat)
    ensures
        n < spacing(n) * 0x20_0000_0000_0000,
    decreases n,
{
    if n >= 0x20_0000_0000_0000 {
        let h = n / 2;
        lemma_spacing_reaches(h);
        let s = spacing(h);
        assert(n < 2 * s * 0x20_0000_0000_0000) by (nonlinear_arith)
            requires
                h < s * 0x20_0000_0000_0000,
                h == n / 2,
        ;
    }
}

/// A counter that goes round is told by where it stands: whole turns change nothing. Where it moved
/// by so much that it may as well have been set back, nothing is counted.
pub proof fn lemma_whole_turns_do_not_count(new: u64, old: u64, wrap: u64)
    requires
        0 < wrap <= i64::MAX,
        new + wrap <= i64::MAX,
        old <= i64::MAX,
    ensures
        moved((new + wrap) as u64, old, wrap) == moved(new, old, wrap),
        0 <= moved(new, old, wrap) < wrap,
        new < wrap && old < wrap ==> moved(new, old, wrap) == if new >= old {
            new - old
        } else {
            new + wrap - old
        },
        moved(new, old, wrap) >= 0x8000_0000 ==> delta(new, old, wrap) == 0,
        moved(new, old, wrap) < 0x8000_0000 ==> delta(new, old, wrap) == moved(new, old, wrap),
{
    let (d, w) = (new - old, wrap as int);
    assert((d + w) % w == d % w && 0 <= d % w < w) by (nonlinear_arith)
        requires
            w > 0,
    ;
    assert(-w < d < w ==> d % w == if d >= 0 {
        d
    } else {
        d + w
    }) by (nonlinear_arith)
        requires
            w > 0,
    ;
}

} // verus!
