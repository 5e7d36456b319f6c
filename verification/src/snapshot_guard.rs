//! The guard that locks the directory of checkpoints.

use vstd::prelude::*;
use crate::ckpt::{
    apply_ckpt_obs, are_rows, ckpt_rows, is_row, observed, scan_ckpt_states, CkptListing,
    CkptStateView, CkptTable,
};
use crate::json::{as_natural, json_of, member, natural_in, parse, Json, JsonView};
use crate::metrics::{copy_rows, CkptStat};
use crate::order::{lemma_permuted, sort, sorted, Ordered};
use crate::text::{chars_of, ends_with, finishes_with, lemma_text_is_found_where_it_stands};

verus! {

/// The directory is looked through every five seconds.
pub const SCAN_EVERY_NS: u64 = 5_000_000_000;

/// So many rows are kept of what was uploaded before.
pub const HISTORY_CAP: usize = 500;

/// Longest name of a directory.
pub const MAX_HASH_LEN: usize = 128;

/// What is shown of the guard.
#[derive(Debug, PartialEq)]
pub struct SnapshotGuardStatus {
    pub supported: bool,
    pub locked: bool,
    pub locked_since_ms: Option<i64>,
    /// Calls since the directory was locked.
    pub blocked_rounds: u64,
    pub artifact_count: u64,
    pub artifact_bytes: u64,
    pub workspace_count: u64,
    pub failure_count: u64,
    /// What was uploaded before.
    pub history: Vec<CkptStat>,
}

/// What the guard wants to know of one state file.
#[derive(Clone, Copy, Debug, PartialEq)]
pub struct StateSummary {
    pub failure_count: u64,
}

/// What the directory holds.
#[derive(Clone, Copy, Debug, PartialEq)]
pub struct ScanSummary {
    pub artifact_count: u64,
    pub artifact_bytes: u64,
    pub workspace_count: u64,
    pub failure_count: u64,
}

/// Nothing.
pub open spec fn empty_scan() -> ScanSummary {
    ScanSummary { artifact_count: 0, artifact_bytes: 0, workspace_count: 0, failure_count: 0 }
}

impl Default for ScanSummary {
    /// Nothing.
    fn default() -> (r: Self)
        ensures
            r == empty_scan(),
    {
        ScanSummary { artifact_count: 0, artifact_bytes: 0, workspace_count: 0, failure_count: 0 }
    }
}

/// What a state file says, where it is an object.
pub open spec fn summary_in(v: JsonView) -> Option<StateSummary> {
    if v is Object {
        Some(
            StateSummary {
                failure_count: match as_natural(member(v, "failureCount"@)) {
                    Some(n) => n,
                    None => 0,
                },
            },
        )
    } else {
        None
    }
}

/// Takes from a state file what the guard wants to know.
pub fn state_summary_from(v: &Json) -> (r: Option<StateSummary>)
    ensures
        r == summary_in(v@),
{
    if !v.is_object() {
        return None;
    }
    let failure_count: u64 = match natural_in(v.get("failureCount")) {
        Some(n) => n,
        None => 0,
    };
    Some(StateSummary { failure_count })
}

/// What a text says, where it is a state file.
pub open spec fn summary_in_text(text: Seq<char>) -> Option<StateSummary> {
    match json_of(text) {
        Some(v) => summary_in(v),
        None => None,
    }
}

/// Reads a state file. One that is damaged, or no object, gives nothing.
pub fn parse_state_summary(json: &str) -> (r: Option<StateSummary>)
    ensures
        r == summary_in_text(json@),
{
    match parse(json) {
        Some(v) => state_summary_from(&v),
        None => None,
    }
}

/// One workspace: what its state file says, where that can be read, and the sizes of its
/// artifacts.
pub type WorkspaceScan = (Option<StateSummary>, Vec<u64>);

/// What a list of workspaces holds.
pub open spec fn scan_views(scans: Seq<WorkspaceScan>) -> Seq<(Option<StateSummary>, Seq<u64>)> {
    scans.map_values(|s: WorkspaceScan| (s.0, s.1@))
}

/// The sum of some sizes.
pub open spec fn sum_sizes(s: Seq<u64>) -> int
    decreases s.len(),
{
    if s.len() == 0 {
        0
    } else {
        sum_sizes(s.drop_last()) + s.last()
    }
}

/// Sums over all workspaces: artifacts, their bytes, workspaces and failures.
pub open spec fn scan_sums(scans: Seq<(Option<StateSummary>, Seq<u64>)>) -> (int, int, int, int)
    decreases scans.len(),
{
    if scans.len() == 0 {
        (0, 0, 0, 0)
    } else {
        let (a, b, w, f) = scan_sums(scans.drop_last());
        let (state, sizes) = scans.last();
        (
            a + sizes.len(),
            b + sum_sizes(sizes),
            w + 1,
            f + match state {
                Some(s) => s.failure_count as int,
                None => 0,
            },
        )
    }
}

/// The sums can be held in 64 bits.
pub open spec fn sums_fit(t: (int, int, int, int)) -> bool {
    t.0 <= u64::MAX && t.1 <= u64::MAX && t.2 <= u64::MAX && t.3 <= u64::MAX
}

/// The summary of some workspaces.
pub open spec fn summary_of(scans: Seq<(Option<StateSummary>, Seq<u64>)>) -> ScanSummary {
    let (a, b, w, f) = scan_sums(scans);
    ScanSummary {
        artifact_count: a as u64,
        artifact_bytes: b as u64,
        workspace_count: w as u64,
        failure_count: f as u64,
    }
}

proof fn lemma_sizes_grow(s: Seq<u64>, n: int)
    requires
        0 <= n <= s.len(),
    ensures
        0 <= sum_sizes(s.take(n)) <= sum_sizes(s),
    decreases s.len(),
{
    if s.len() > 0 {
        if n < s.len() {
            lemma_sizes_grow(s.drop_last(), n);
            assert(s.drop_last().take(n) =~= s.take(n));
        } else {
            lemma_sizes_grow(s.drop_last(), n - 1);
            assert(s.take(n) =~= s);
        }
    } else {
        assert(s.take(n) =~= s);
    }
}

proof fn lemma_scans_grow(scans: Seq<(Option<StateSummary>, Seq<u64>)>, n: int)
    requires
        0 <= n <= scans.len(),
    ensures
        0 <= scan_sums(scans.take(n)).0 <= scan_sums(scans).0,
        0 <= scan_sums(scans.take(n)).1 <= scan_sums(scans).1,
        0 <= scan_sums(scans.take(n)).2 <= scan_sums(scans).2,
        0 <= scan_sums(scans.take(n)).3 <= scan_sums(scans).3,
    decreases scans.len(),
{
    if scans.len() > 0 {
        lemma_sizes_grow(scans.last().1, 0);
        if n < scans.len() {
            lemma_scans_grow(scans.drop_last(), n);
            assert(scans.drop_last().take(n) =~= scans.take(n));
        } else {
            lemma_scans_grow(scans.drop_last(), n - 1);
            assert(scans.take(n) =~= scans);
        }
    } else {
        assert(scans.take(n) =~= scans);
    }
}

fn total_size(sizes: &Vec<u64>) -> (r: Option<u64>)
    ensures
        match r {
            Some(n) => n == sum_sizes(sizes@),
            None => sum_sizes(sizes@) > u64::MAX,
        },
{
    let mut n: u64 = 0;
    let mut i: usize = 0;
    while i < sizes.len()
        invariant
            i <= sizes.len(),
            n == sum_sizes(sizes@.take(i as int)),
        decreases sizes.len() - i,
    {
        proof {
            assert(sizes@.take(i + 1).drop_last() =~= sizes@.take(i as int));
            lemma_sizes_grow(sizes@, i + 1);
        }
        if sizes[i] > u64::MAX - n {
            return None;
        }
        n = n + sizes[i];
        i += 1;
    }
    assert(sizes@.take(i as int) =~= sizes@);
    Some(n)
}

/// Adds up what some workspaces hold, unless a sum is too large to hold.
pub fn checked_summary(scans: &[WorkspaceScan]) -> (r: Option<ScanSummary>)
    ensures
        match r {
            Some(s) => sums_fit(scan_sums(scan_views(scans@))) && s == summary_of(scan_views(scans@)),
            None => !sums_fit(scan_sums(scan_views(scans@))),
        },
{
    let mut s = ScanSummary::default();
    let mut i: usize = 0;
    let ghost v = scan_views(scans@);
    assert(v.take(0) =~= Seq::empty());
    while i < scans.len()
        invariant
            i <= scans@.len(),
            v == scan_views(scans@),
            s.artifact_count == scan_sums(v.take(i as int)).0,
            s.artifact_bytes == scan_sums(v.take(i as int)).1,
            s.workspace_count == scan_sums(v.take(i as int)).2,
            s.failure_count == scan_sums(v.take(i as int)).3,
        decreases scans@.len() - i,
    {
        let scan = &scans[i];
        proof {
            assert(v.take(i + 1).drop_last() =~= v.take(i as int));
            assert(v[i as int] == (scan.0, scan.1@));
            lemma_scans_grow(v, i + 1);
            lemma_sizes_grow(scan.1@, 0);
        }
        let bytes: u64 = match total_size(&scan.1) {
            Some(n) => n,
            None => return None,
        };
        let failures: u64 = match scan.0 {
            Some(st) => st.failure_count,
            None => 0,
        };
        let count: u64 = scan.1.len() as u64;
        if count > u64::MAX - s.artifact_count || bytes > u64::MAX - s.artifact_bytes
            || s.workspace_count == u64::MAX || failures > u64::MAX - s.failure_count {
            return None;
        }
        s = ScanSummary {
            artifact_count: s.artifact_count + count,
            artifact_bytes: s.artifact_bytes + bytes,
            workspace_count: s.workspace_count + 1,
            failure_count: s.failure_count + failures,
        };
        i += 1;
    }
    assert(v.take(i as int) =~= v);
    Some(s)
}

/// Adds up what some workspaces hold. A workspace whose state file cannot be read counts with its
/// artifacts, but with no failures.
pub fn summarize_scans(scans: &[WorkspaceScan]) -> (r: ScanSummary)
    requires
        sums_fit(scan_sums(scan_views(scans@))),
    ensures
        r == summary_of(scan_views(scans@)),
{
    checked_summary(scans).unwrap()
}

/// What a directory holds of one workspace.
#[derive(Debug, PartialEq)]
pub struct WorkspaceDir {
    pub is_dir: bool,
    /// The text of its state file, where that could be read.
    pub state: Option<String>,
    /// Its files that wait for upload: name, and size where that is known.
    pub pending: Vec<(String, Option<u64>)>,
}

/// The sizes of the artifacts among some files.
pub open spec fn artifact_sizes(files: Seq<(String, Option<u64>)>) -> Seq<u64>
    decreases files.len(),
{
    if files.len() == 0 {
        Seq::empty()
    } else {
        let before = artifact_sizes(files.drop_last());
        let (name, size) = files.last();
        match size {
            Some(n) if finishes_with(name@, ".enc"@) => before.push(n),
            _ => before,
        }
    }
}

/// What one workspace holds.
pub open spec fn scan_in(d: WorkspaceDir) -> (Option<StateSummary>, Seq<u64>) {
    (
        match d.state {
            Some(t) => summary_in_text(t@),
            None => None,
        },
        artifact_sizes(d.pending@),
    )
}

/// What the workspaces in a directory hold.
pub open spec fn scans_in(dirs: Seq<WorkspaceDir>) -> Seq<(Option<StateSummary>, Seq<u64>)>
    decreases dirs.len(),
{
    if dirs.len() == 0 {
        Seq::empty()
    } else {
        let before = scans_in(dirs.drop_last());
        let d = dirs.last();
        if d.is_dir {
            before.push(scan_in(d))
        } else {
            before
        }
    }
}

fn sizes_of(files: &Vec<(String, Option<u64>)>) -> (r: Vec<u64>)
    ensures
        r@ == artifact_sizes(files@),
{
    let mut r: Vec<u64> = Vec::new();
    let mut i: usize = 0;
    while i < files.len()
        invariant
            i <= files.len(),
            r@ == artifact_sizes(files@.take(i as int)),
        decreases files.len() - i,
    {
        assert(files@.take(i + 1).drop_last() =~= files@.take(i as int));
        let f = &files[i];
        if ends_with(f.0.as_str(), ".enc") {
            if let Some(n) = f.1 {
                r.push(n);
            }
        }
        i += 1;
    }
    assert(files@.take(i as int) =~= files@);
    r
}

/// Makes a list of what the workspaces in a directory hold.
pub fn scan_checkpoints(dirs: &Vec<WorkspaceDir>) -> (r: Vec<WorkspaceScan>)
    ensures
        scan_views(r@) == scans_in(dirs@),
{
    let mut r: Vec<WorkspaceScan> = Vec::new();
    let mut i: usize = 0;
    assert(scan_views(r@) =~= Seq::empty());
    while i < dirs.len()
        invariant
            i <= dirs.len(),
            scan_views(r@) == scans_in(dirs@.take(i as int)),
        decreases dirs.len() - i,
    {
        let ghost before = scan_views(r@);
        assert(dirs@.take(i + 1).drop_last() =~= dirs@.take(i as int));
        let d = &dirs[i];
        if d.is_dir {
            let state = match &d.state {
                Some(t) => parse_state_summary(t.as_str()),
                None => None,
            };
            r.push((state, sizes_of(&d.pending)));
            assert(scan_views(r@) =~= before.push(scan_in(*d)));
        }
        i += 1;
    }
    assert(dirs@.take(i as int) =~= dirs@);
    r
}

/// Calls add to the rounds by how many more they are than at the last look; fewer add nothing.
pub open spec fn rounds_after(blocked: u64, calls_seen: u64, calls_today: u64) -> int {
    if calls_today >= calls_seen {
        blocked + (calls_today - calls_seen)
    } else {
        blocked as int
    }
}

/// Adds the calls since the last look to the rounds; the calls of now are the next base.
pub fn accrue_rounds(blocked: u64, calls_seen: u64, calls_today: u64) -> (r: (u64, u64))
    requires
        rounds_after(blocked, calls_seen, calls_today) <= u64::MAX,
    ensures
        r.0 == rounds_after(blocked, calls_seen, calls_today),
        r.1 == calls_today,
{
    if calls_today >= calls_seen {
        (blocked + (calls_today - calls_seen), calls_today)
    } else {
        (blocked, calls_today)
    }
}

/// The character may stand in the name of a directory.
pub open spec fn plain_char(c: char) -> bool {
    '0' <= c <= '9' || 'a' <= c <= 'z' || 'A' <= c <= 'Z' || c == '-' || c == '_'
}

/// The name is one that a directory of a workspace can have.
pub open spec fn plain_name(name: Seq<char>) -> bool {
    &&& 0 < name.len() <= MAX_HASH_LEN
    &&& forall|i: int| 0 <= i < name.len() ==> plain_char(#[trigger] name[i])
}

/// Tests whether a name is one that a directory of a workspace can have.
pub fn valid_hash_name(name: &str) -> (r: bool)
    ensures
        r == plain_name(name@),
{
    let chars = chars_of(name);
    if chars.len() == 0 || chars.len() > MAX_HASH_LEN {
        return false;
    }
    let mut i: usize = 0;
    while i < chars.len()
        invariant
            i <= chars.len(),
            chars@ == name@,
            forall|j: int| 0 <= j < i ==> plain_char(#[trigger] name@[j]),
        decreases chars.len() - i,
    {
        let c: char = chars[i];
        let plain = '0' <= c && c <= '9' || 'a' <= c && c <= 'z' || 'A' <= c && c <= 'Z' || c == '-'
            || c == '_';
        if !plain {
            assert(!plain_char(name@[i as int]));
            return false;
        }
        i += 1;
    }
    true
}

/// A name that is let through leads nowhere else: it parts no path, and is neither of the two
/// names by which a directory leads to itself or upwards.
pub proof fn lemma_plain_name_stays_inside(name: Seq<char>)
    requires
        plain_name(name),
    ensures
        !name.contains('/'),
        !name.contains('\\'),
        !name.contains('.'),
        !name.contains(':'),
        name != "."@,
        name != ".."@,
{
    reveal_strlit(".");
    reveal_strlit("..");
    assert(plain_char(name[0]));
}

/// The row at `i` is the last one of its workspace.
pub open spec fn is_latest(all: Seq<CkptStat>, i: int) -> bool {
    &&& 0 <= i < all.len()
    &&& forall|j: int|
        i < j < all.len() ==> (#[trigger] all[j]).workspace@ != all[i].workspace@
}

/// The row is the last one of its workspace.
pub open spec fn is_kept(row: CkptStat, all: Seq<CkptStat>) -> bool {
    exists|i: int| #[trigger] is_latest(all, i) && all[i] == row
}

/// `rows` holds the last row of each workspace in `all`, the latest first; where there are too
/// many, the oldest are left out.
pub open spec fn is_history(rows: Seq<CkptStat>, all: Seq<CkptStat>) -> bool {
    &&& rows.len() <= HISTORY_CAP
    &&& forall|k: int| 0 <= k < rows.len() ==> is_kept(#[trigger] rows[k], all)
    &&& forall|k: int, l: int|
        #![trigger rows[k], rows[l]]
        0 <= k < l < rows.len() ==> rows[k].workspace@ != rows[l].workspace@
            && rows[k].recorded_ms >= rows[l].recorded_ms
    &&& forall|i: int| #[trigger]
        is_latest(all, i) ==> rows.contains(all[i]) || rows.len() == HISTORY_CAP
            && all[i].recorded_ms <= rows.last().recorded_ms
}

struct Dated {
    row: CkptStat,
}

impl Ordered for Dated {
    /// What was recorded later stands first.
    closed spec fn le(&self, other: &Self) -> bool {
        self.row.recorded_ms >= other.row.recorded_ms
    }

    proof fn lemma_total(a: &Self, b: &Self) {
    }

    proof fn lemma_transitive(a: &Self, b: &Self, c: &Self) {
    }

    fn precedes(&self, other: &Self) -> (r: bool) {
        self.row.recorded_ms >= other.row.recorded_ms
    }
}

fn latest_here(all: &Vec<CkptStat>, i: usize) -> (r: bool)
    requires
        i < all.len(),
    ensures
        r == is_latest(all@, i as int),
{
    let mut j: usize = i + 1;
    while j < all.len()
        invariant
            i < j <= all.len(),
            forall|k: int|
                i < k < j ==> (#[trigger] all@[k]).workspace@ != all@[i as int].workspace@,
        decreases all.len() - j,
    {
        if all[j].workspace == all[i].workspace {
            assert(all@[j as int].workspace@ == all@[i as int].workspace@);
            return false;
        }
        j += 1;
    }
    true
}

/// Puts new rows to the old ones: a new row takes the place of an older one of its workspace.
pub fn merge_history(old_rows: Vec<CkptStat>, new_rows: Vec<CkptStat>) -> (r: Vec<CkptStat>)
    ensures
        is_history(r@, old_rows@ + new_rows@),
{
    let mut all = old_rows;
    let mut more = new_rows;
    let ghost both = old_rows@ + new_rows@;
    all.append(&mut more);
    assert(all@ =~= both);
    let mut kept: Vec<Dated> = Vec::new();
    let ghost mut from: Seq<int> = Seq::empty();
    let mut i: usize = 0;
    while i < all.len()
        invariant
            i <= all.len(),
            all@ == both,
            from.len() == kept@.len(),
            forall|k: int|
                #![trigger from[k]]
                0 <= k < from.len() ==> from[k] < i && is_latest(both, from[k])
                    && kept@[k].row == both[from[k]],
            forall|k: int, l: int|
                #![trigger from[k], from[l]]
                0 <= k < l < from.len() ==> from[k] < from[l],
            forall|n: int|
                0 <= n < i && #[trigger] is_latest(both, n) ==> exists|k: int|
                    0 <= k < from.len() && #[trigger] from[k] == n,
        decreases all.len() - i,
    {
        let ghost before = from;
        if latest_here(&all, i) {
            kept.push(Dated { row: all[i].clone() });
            proof {
                from = from.push(i as int);
                assert forall|n: int| 0 <= n < i + 1 && #[trigger] is_latest(
                    both,
                    n,
                ) implies exists|k: int| 0 <= k < from.len() && #[trigger] from[k] == n by {
                    if n < i {
                        let k = choose|k: int| 0 <= k < before.len() && #[trigger] before[k] == n;
                        assert(from[k] == n);
                    } else {
                        assert(from[from.len() - 1] == n);
                    }
                }
            }
        }
        i += 1;
    }
    let ghost mid = kept@;
    proof {
        assert forall|a: int, b: int|
            #![trigger mid[a], mid[b]]
            0 <= a < mid.len() && 0 <= b < mid.len() && a != b implies mid[a].row.workspace@
            != mid[b].row.workspace@ by {
            let (x, y) = (from[a], from[b]);
            assert(is_latest(both, x) && is_latest(both, y));
            if a < b {
                assert(x < y);
            } else {
                assert(from[b] < from[a]);
            }
        }
    }
    let sorted_rows = sort(kept);
    proof {
        lemma_permuted(
            mid,
            sorted_rows@,
            |x: Dated, y: Dated| x.row.workspace@ != y.row.workspace@,
        );
    }
    let ghost out = sorted_rows@;
    let mut r: Vec<CkptStat> = Vec::new();
    let mut i: usize = 0;
    while i < sorted_rows.len() && i < HISTORY_CAP
        invariant
            i <= sorted_rows.len(),
            i <= HISTORY_CAP,
            out == sorted_rows@,
            r@.len() == i,
            forall|k: int| 0 <= k < i ==> #[trigger] r@[k] == out[k].row,
        decreases sorted_rows.len() - i,
    {
        r.push(sorted_rows[i].row.clone());
        i += 1;
    }
    proof {
        lemma_is_history(r@, out, mid, from, both);
    }
    r
}

proof fn lemma_is_history(
    r: Seq<CkptStat>,
    out: Seq<Dated>,
    mid: Seq<Dated>,
    from: Seq<int>,
    all: Seq<CkptStat>,
)
    requires
        r.len() <= HISTORY_CAP,
        r.len() <= out.len(),
        r.len() < out.len() ==> r.len() == HISTORY_CAP,
        forall|k: int| 0 <= k < r.len() ==> #[trigger] r[k] == out[k].row,
        sorted(out),
        forall|x: Dated| #[trigger] mid.contains(x) == out.contains(x),
        forall|i: int, j: int|
            #![trigger out[i], out[j]]
            0 <= i < out.len() && 0 <= j < out.len() && i != j ==> out[i].row.workspace@
                != out[j].row.workspace@,
        from.len() == mid.len(),
        forall|k: int|
            #![trigger from[k]]
            0 <= k < from.len() ==> is_latest(all, from[k]) && mid[k].row == all[from[k]],
        forall|n: int|
            0 <= n < all.len() && #[trigger] is_latest(all, n) ==> exists|k: int|
                0 <= k < from.len() && #[trigger] from[k] == n,
    ensures
        is_history(r, all),
{
    assert forall|k: int| 0 <= k < r.len() implies is_kept(#[trigger] r[k], all) by {
        assert(out.contains(out[k]));
        assert(mid.contains(out[k]));
        let j = choose|j: int| 0 <= j < mid.len() && mid[j] == out[k];
        assert(is_latest(all, from[j]));
    }
    assert forall|k: int, l: int| #![trigger r[k], r[l]] 0 <= k < l < r.len() implies r[k].workspace@
        != r[l].workspace@ && r[k].recorded_ms >= r[l].recorded_ms by {
        assert(r[k] == out[k].row && r[l] == out[l].row);
        assert(out[k].le(&out[l]));
    }
    assert forall|i: int| #[trigger] is_latest(all, i) implies r.contains(all[i]) || r.len()
        == HISTORY_CAP && all[i].recorded_ms <= r.last().recorded_ms by {
        let k = choose|k: int| 0 <= k < from.len() && #[trigger] from[k] == i;
        assert(mid.contains(mid[k]));
        assert(out.contains(mid[k]));
        let l = choose|l: int| 0 <= l < out.len() && out[l] == mid[k];
        if l < r.len() {
            assert(r[l] == all[i]);
        } else {
            let last = r.len() - 1;
            assert(r[last] == out[last].row);
            assert(out[last].le(&out[l]));
        }
    }
}

/// Whatever is archived, the last row of every workspace is kept, as long as there is room: no
/// workspace that was archived is lost.
pub proof fn lemma_no_workspace_is_lost(rows: Seq<CkptStat>, all: Seq<CkptStat>, i: int)
    requires
        is_history(rows, all),
        rows.len() < HISTORY_CAP,
        0 <= i < all.len(),
    ensures
        exists|k: int| 0 <= k < rows.len() && (#[trigger] rows[k]).workspace@ == all[i].workspace@,
    decreases all.len() - i,
{
    if is_latest(all, i) {
        let k = choose|k: int| 0 <= k < rows.len() && rows[k] == all[i];
        assert(rows[k].workspace@ == all[i].workspace@);
    } else {
        let j = choose|j: int|
            i < j < all.len() && (#[trigger] all[j]).workspace@ == all[i].workspace@;
        lemma_no_workspace_is_lost(rows, all, j);
    }
}

/// Adds up what the workspaces in a directory hold, unless a sum is too large to hold.
pub fn scan_directory(dirs: &Vec<WorkspaceDir>) -> (r: Option<ScanSummary>)
    ensures
        match r {
            Some(s) => sums_fit(scan_sums(scans_in(dirs@))) && s == summary_of(scans_in(dirs@)),
            None => !sums_fit(scan_sums(scans_in(dirs@))),
        },
{
    let scans = scan_checkpoints(dirs);
    checked_summary(scans.as_slice())
}

/// What the guard remembers from start to start.
#[derive(Clone, Copy, Debug, PartialEq, Eq, Structural)]
pub struct GuardFile {
    pub locked_since_ms: Option<i64>,
    pub calls_baseline: Option<u64>,
    pub blocked_rounds: u64,
    pub calls_seen: u64,
}

/// There is no guard.
pub open spec fn unguarded() -> GuardFile {
    GuardFile { locked_since_ms: None, calls_baseline: None, blocked_rounds: 0, calls_seen: 0 }
}

impl Default for GuardFile {
    /// There is no guard.
    fn default() -> (r: Self)
        ensures
            r == unguarded(),
    {
        GuardFile { locked_since_ms: None, calls_baseline: None, blocked_rounds: 0, calls_seen: 0 }
    }
}

/// What the guard knows after a look at the lock, and whether that is to be saved. A lock that is
/// not remembered is remembered from now on; one that is remembered but gone is forgotten.
pub open spec fn watched(
    file: GuardFile,
    last_calls: u64,
    locked: bool,
    calls: u64,
    now: i64,
) -> (GuardFile, bool) {
    if locked {
        if file.locked_since_ms is None || file.calls_baseline is None {
            (
                GuardFile {
                    locked_since_ms: Some(now),
                    calls_baseline: Some(calls),
                    blocked_rounds: file.blocked_rounds,
                    calls_seen: calls,
                },
                true,
            )
        } else {
            let rounds = rounds_after(file.blocked_rounds, last_calls, calls) as u64;
            (
                GuardFile { blocked_rounds: rounds, calls_seen: calls, ..file },
                rounds != file.blocked_rounds || file.calls_seen != calls,
            )
        }
    } else if file.locked_since_ms is Some {
        (unguarded(), true)
    } else {
        (file, false)
    }
}

/// The rounds can be counted on.
pub open spec fn countable_rounds(file: GuardFile, last_calls: u64, calls: u64) -> bool {
    rounds_after(file.blocked_rounds, last_calls, calls) <= u64::MAX
}

/// The guard.
pub struct SnapshotGuard {
    /// The system can lock directories.
    pub supported: bool,
    pub file: GuardFile,
    pub last_calls: u64,
    pub scan: ScanSummary,
    pub last_scan: Option<u64>,
    pub history: Vec<CkptStat>,
}

/// What is shown of a guard.
pub open spec fn is_status(s: SnapshotGuardStatus, g: SnapshotGuard, locked: bool) -> bool {
    &&& s.supported == g.supported
    &&& s.locked == locked
    &&& s.locked_since_ms == g.file.locked_since_ms
    &&& s.blocked_rounds == g.file.blocked_rounds
    &&& s.artifact_count == g.scan.artifact_count
    &&& s.artifact_bytes == g.scan.artifact_bytes
    &&& s.workspace_count == g.scan.workspace_count
    &&& s.failure_count == g.scan.failure_count
    &&& s.history@ == g.history@
}

/// What is shown where there is nothing to guard.
pub open spec fn is_blank_status(s: SnapshotGuardStatus, supported: bool) -> bool {
    &&& s.supported == supported
    &&& !s.locked
    &&& s.locked_since_ms is None
    &&& s.blocked_rounds == 0
    &&& s.artifact_count == 0
    &&& s.artifact_bytes == 0
    &&& s.workspace_count == 0
    &&& s.failure_count == 0
    &&& s.history@.len() == 0
}

/// It is time to look through the directory.
pub open spec fn scan_is_due(last: Option<u64>, mono: u64) -> bool {
    match last {
        Some(t) => mono - t > SCAN_EVERY_NS,
        None => true,
    }
}

/// What the directory is known to hold after a look at it, and when it was last looked through.
pub open spec fn scan_after(
    known: ScanSummary,
    last: Option<u64>,
    found: ScanSummary,
    mono: u64,
) -> (ScanSummary, Option<u64>) {
    if scan_is_due(last, mono) {
        (found, Some(mono))
    } else {
        (known, last)
    }
}

impl SnapshotGuard {
    /// Takes up what was remembered.
    pub fn new(supported: bool, file: GuardFile, history: Vec<CkptStat>) -> (r: Self)
        ensures
            r.supported == supported,
            r.file == file,
            r.last_calls == file.calls_seen,
            r.scan == empty_scan(),
            r.last_scan is None,
            r.history == history,
    {
        let last_calls: u64 = file.calls_seen;
        SnapshotGuard {
            supported,
            file,
            last_calls,
            scan: ScanSummary::default(),
            last_scan: None,
            history,
        }
    }

    /// The calls at the last look.
    pub fn last_calls_seen(&self) -> (r: u64)
        ensures
            r == self.last_calls,
    {
        self.last_calls
    }

    /// Puts together what is shown.
    pub fn status(&self, locked: bool) -> (r: SnapshotGuardStatus)
        ensures
            is_status(r, *self, locked),
    {
        SnapshotGuardStatus {
            supported: self.supported,
            locked,
            locked_since_ms: self.file.locked_since_ms,
            blocked_rounds: self.file.blocked_rounds,
            artifact_count: self.scan.artifact_count,
            artifact_bytes: self.scan.artifact_bytes,
            workspace_count: self.scan.workspace_count,
            failure_count: self.scan.failure_count,
            history: copy_rows(&self.history),
        }
    }

    /// Tests whether the directory is to be looked through.
    pub fn scan_due(&self, mono: u64) -> (r: bool)
        ensures
            r == scan_is_due(self.last_scan, mono),
    {
        match self.last_scan {
            Some(t) => mono > t && mono - t > SCAN_EVERY_NS,
            None => true,
        }
    }

    /// Takes in a look at the directory: whether it is locked, and what it holds, which matters
    /// only when that is due. Returns what is shown, and whether what is remembered is to be
    /// saved. Where the directory is not known there is nothing to look at.
    pub fn tick(
        &mut self,
        calls_today: u64,
        now_ms: i64,
        mono: u64,
        look: Option<(bool, ScanSummary)>,
    ) -> (r: (SnapshotGuardStatus, bool))
        requires
            look matches Some(l) && l.0 && old(self).file.locked_since_ms is Some && old(
                self,
            ).file.calls_baseline is Some ==> countable_rounds(
                old(self).file,
                old(self).last_calls,
                calls_today,
            ),
        ensures
            final(self).supported == old(self).supported,
            final(self).history@ == old(self).history@,
            match look {
                None => {
                    &&& *final(self) == *old(self)
                    &&& is_blank_status(r.0, old(self).supported)
                    &&& !r.1
                },
                Some((locked, scan)) => {
                    &&& (final(self).file, r.1) == watched(
                        old(self).file,
                        old(self).last_calls,
                        locked,
                        calls_today,
                        now_ms,
                    )
                    &&& final(self).last_calls == calls_today
                    &&& (final(self).scan, final(self).last_scan) == scan_after(
                        old(self).scan,
                        old(self).last_scan,
                        scan,
                        mono,
                    )
                    &&& is_status(r.0, *final(self), locked)
                },
            },
    {
        let (locked, scan) = match look {
            Some(l) => l,
            None => {
                let blank = SnapshotGuardStatus {
                    supported: self.supported,
                    locked: false,
                    locked_since_ms: None,
                    blocked_rounds: 0,
                    artifact_count: 0,
                    artifact_bytes: 0,
                    workspace_count: 0,
                    failure_count: 0,
                    history: Vec::new(),
                };
                return (blank, false);
            },
        };
        let mut save = false;
        if locked {
            if self.file.locked_since_ms.is_none() || self.file.calls_baseline.is_none() {
                self.file.locked_since_ms = Some(now_ms);
                self.file.calls_baseline = Some(calls_today);
                self.last_calls = calls_today;
                self.file.calls_seen = calls_today;
                save = true;
            } else {
                let (blocked, seen) = accrue_rounds(
                    self.file.blocked_rounds,
                    self.last_calls,
                    calls_today,
                );
                self.last_calls = seen;
                save = blocked != self.file.blocked_rounds || self.file.calls_seen != seen;
                self.file.blocked_rounds = blocked;
                self.file.calls_seen = seen;
            }
        } else {
            self.last_calls = calls_today;
            if self.file.locked_since_ms.is_some() {
                self.file = GuardFile::default();
                save = true;
            }
        }
        if self.scan_due(mono) {
            self.last_scan = Some(mono);
            self.scan = scan;
        }
        (self.status(locked), save)
    }

    /// Ends the guard, after the directory was unlocked where it was locked. Nothing changes where
    /// that failed, or cannot be done.
    pub fn release(
        &mut self,
        calls_today: u64,
        dir_known: bool,
        unlocked: Result<(), String>,
        locked: bool,
    ) -> (r: Result<SnapshotGuardStatus, String>)
        ensures
            final(self).supported == old(self).supported,
            final(self).scan == old(self).scan,
            final(self).last_scan == old(self).last_scan,
            final(self).history@ == old(self).history@,
            r is Ok == (old(self).supported && dir_known && unlocked is Ok),
            match r {
                Ok(s) => {
                    &&& final(self).file == unguarded()
                    &&& final(self).last_calls == calls_today
                    &&& is_status(s, *final(self), locked)
                },
                Err(e) => {
                    &&& final(self).file == old(self).file
                    &&& final(self).last_calls == old(self).last_calls
                    &&& e@ == if !old(self).supported {
                        unsupported_text()
                    } else if !dir_known {
                        no_home_text()
                    } else {
                        unlocked->Err_0@
                    }
                },
            },
    {
        if !self.supported {
            return Err("文件锁仅支持 macOS / Windows".to_owned());
        }
        if !dir_known {
            return Err("无法定位用户目录".to_owned());
        }
        if let Err(e) = unlocked {
            return Err(e);
        }
        self.file = GuardFile::default();
        self.last_calls = calls_today;
        Ok(self.status(locked))
    }
}

/// Said where directories cannot be locked.
pub open spec fn unsupported_text() -> Seq<char> {
    "文件锁仅支持 macOS / Windows"@
}

/// Said where the home directory is not known.
pub open spec fn no_home_text() -> Seq<char> {
    "无法定位用户目录"@
}

/// Said where the lock had no effect.
pub open spec fn no_effect_text() -> Seq<char> {
    "锁定未生效（写入探测仍成功），请检查目录权限"@
}

/// A round is never lost nor counted twice: while a lock that is remembered lasts, looks at more
/// and more calls add up to as many rounds as there were calls.
pub proof fn lemma_rounds_add_up(file: GuardFile, last_calls: u64, a: u64, b: u64, now: i64, later: i64)
    requires
        file.locked_since_ms is Some,
        file.calls_baseline is Some,
        last_calls <= a <= b,
        file.blocked_rounds + (b - last_calls) <= u64::MAX,
    ensures
        ({
            let once = watched(file, last_calls, true, a, now).0;
            let twice = watched(once, a, true, b, later).0;
            twice == watched(file, last_calls, true, b, later).0
        }),
{
}

/// What is remembered over a restart is what the rounds go on from: a guard that starts again
/// counts only the calls that came since.
pub proof fn lemma_restart_goes_on(
    file: GuardFile,
    last_calls: u64,
    a: u64,
    b: u64,
    now: i64,
    later: i64,
)
    requires
        file.locked_since_ms is Some,
        file.calls_baseline is Some,
        countable_rounds(file, last_calls, a),
        b >= a,
        watched(file, last_calls, true, a, now).0.blocked_rounds + (b - a) <= u64::MAX,
    ensures
        ({
            let saved = watched(file, last_calls, true, a, now).0;
            watched(saved, saved.calls_seen, true, b, later).0.blocked_rounds
                == saved.blocked_rounds + (b - a)
        }),
{
}

/// What is to be done next on the way to a locked directory.
#[derive(Clone, Copy, Debug, PartialEq, Eq, Structural)]
pub enum ApplyStep {
    /// Find out whether the directory is locked.
    Probe,
    /// Unlock it with all that is in it.
    Unlock,
    /// Read the state files in it.
    List,
    /// Save the rows of what was uploaded before.
    SaveHistory,
    /// Remove it, where it is there.
    Clear,
    /// Make it.
    Create,
    /// Lock it with all that is in it.
    LockTree,
    /// Lock it.
    LockRoot,
    /// Find out whether it is locked now.
    Check,
    /// Look through it.
    Rescan,
    /// Save what is remembered.
    SaveFile,
}

/// How a step went.
#[derive(Debug, PartialEq)]
pub enum GuardReply {
    Locked(bool),
    Done,
    Failed(String),
    Listing(CkptListing),
    Scan(ScanSummary),
}

/// The reply is one that the step can have.
pub open spec fn answers(step: ApplyStep, reply: GuardReply) -> bool {
    match step {
        ApplyStep::Probe | ApplyStep::Check => reply is Locked,
        ApplyStep::List => reply is Listing,
        ApplyStep::Rescan => reply is Scan,
        ApplyStep::SaveHistory | ApplyStep::SaveFile => true,
        _ => reply is Done || reply is Failed,
    }
}

/// A guard that is being set up.
#[derive(Clone, Copy, Debug, PartialEq, Eq, Structural)]
pub struct ApplyRun {
    pub keep_files: bool,
    pub calls_today: u64,
    pub now_ms: i64,
    pub step: ApplyStep,
}

/// What follows a step.
#[derive(Debug, PartialEq)]
pub enum ApplyNext {
    Next(ApplyRun),
    Failed(String),
    Done(SnapshotGuardStatus),
}

/// What is remembered of a lock that was just set up.
pub open spec fn guarded_from(run: ApplyRun) -> GuardFile {
    GuardFile {
        locked_since_ms: Some(run.now_ms),
        calls_baseline: Some(run.calls_today),
        blocked_rounds: 0,
        calls_seen: run.calls_today,
    }
}

/// There is something to archive before the directory is cleared.
pub open spec fn to_archive(listing: CkptListing, history: Seq<CkptStat>) -> bool {
    observed(Map::empty(), listing.obs()).dom().len() > 0 || history.len() > 0
}

/// The step that follows, where none fails.
pub open spec fn step_after(
    run: ApplyRun,
    reply: GuardReply,
    history: Seq<CkptStat>,
) -> Option<ApplyStep> {
    let begin = if run.keep_files {
        ApplyStep::Create
    } else {
        ApplyStep::List
    };
    match run.step {
        ApplyStep::Probe => Some(
            if reply == GuardReply::Locked(true) {
                ApplyStep::Unlock
            } else {
                begin
            },
        ),
        ApplyStep::Unlock => if reply is Done {
            Some(begin)
        } else {
            None
        },
        ApplyStep::List => Some(
            if to_archive(reply->Listing_0, history) {
                ApplyStep::SaveHistory
            } else {
                ApplyStep::Clear
            },
        ),
        ApplyStep::SaveHistory => Some(ApplyStep::Clear),
        ApplyStep::Clear => if reply is Done {
            Some(ApplyStep::Create)
        } else {
            None
        },
        ApplyStep::Create => if reply is Done {
            Some(
                if run.keep_files {
                    ApplyStep::LockTree
                } else {
                    ApplyStep::LockRoot
                },
            )
        } else {
            None
        },
        ApplyStep::LockTree | ApplyStep::LockRoot => if reply is Done {
            Some(ApplyStep::Check)
        } else {
            None
        },
        ApplyStep::Check => if reply == GuardReply::Locked(true) {
            Some(
                if run.keep_files {
                    ApplyStep::Rescan
                } else {
                    ApplyStep::SaveFile
                },
            )
        } else {
            None
        },
        ApplyStep::Rescan => Some(ApplyStep::SaveFile),
        ApplyStep::SaveFile => None,
    }
}

/// What is said where a step failed.
pub open spec fn failure_text(step: ApplyStep, reply: GuardReply) -> Seq<char> {
    match step {
        ApplyStep::Check => no_effect_text(),
        ApplyStep::Clear => "清空 checkpoints 失败: "@ + reply->Failed_0@,
        ApplyStep::Create => "重建 checkpoints 目录失败: "@ + reply->Failed_0@,
        _ => reply->Failed_0@,
    }
}

/// The history after a step: what was found is put to it before the directory is cleared.
pub open spec fn history_after(
    run: ApplyRun,
    reply: GuardReply,
    before: Seq<CkptStat>,
    after: Seq<CkptStat>,
) -> bool {
    if run.step is List && to_archive(reply->Listing_0, before) {
        exists|rows: Seq<CkptStat>| #[trigger]
            are_rows(rows, observed(Map::empty(), reply->Listing_0.obs())) && is_history(
                after,
                before + rows,
            )
    } else {
        after == before
    }
}

fn prefixed(prefix: &str, text: &String) -> (r: String)
    ensures
        r@ == prefix@ + text@,
{
    let mut s = prefix.to_owned();
    s.append(text.as_str());
    s
}

impl SnapshotGuard {
    /// Begins to set up the guard.
    pub fn apply(&self, calls_today: u64, now_ms: i64, keep_files: bool, dir_known: bool) -> (r:
        Result<ApplyRun, String>)
        ensures
            match r {
                Ok(run) => self.supported && dir_known && run == (ApplyRun {
                    keep_files,
                    calls_today,
                    now_ms,
                    step: ApplyStep::Probe,
                }),
                Err(e) => !(self.supported && dir_known) && e@ == if !self.supported {
                    unsupported_text()
                } else {
                    no_home_text()
                },
            },
    {
        if !self.supported {
            return Err("文件锁仅支持 macOS / Windows".to_owned());
        }
        if !dir_known {
            return Err("无法定位用户目录".to_owned());
        }
        Ok(ApplyRun { keep_files, calls_today, now_ms, step: ApplyStep::Probe })
    }

    fn archive(&mut self, listing: &CkptListing) -> (r: bool)
        ensures
            final(self).supported == old(self).supported,
            final(self).file == old(self).file,
            final(self).last_calls == old(self).last_calls,
            final(self).scan == old(self).scan,
            final(self).last_scan == old(self).last_scan,
            r == to_archive(*listing, old(self).history@),
            !r ==> final(self).history@ == old(self).history@,
            r ==> exists|rows: Seq<CkptStat>| #[trigger]
                are_rows(rows, observed(Map::empty(), listing.obs())) && is_history(
                    final(self).history@,
                    old(self).history@ + rows,
                ),
    {
        let (_, obs) = scan_ckpt_states(listing);
        let mut states = CkptTable::new();
        apply_ckpt_obs(&mut states, obs, 0, false);
        let rows = ckpt_rows(&states);
        if rows.len() == 0 && self.history.len() == 0 {
            return false;
        }
        let ghost found = rows@;
        let ghost before = self.history@;
        let mut history: Vec<CkptStat> = Vec::new();
        std::mem::swap(&mut history, &mut self.history);
        self.history = merge_history(history, rows);
        assert(are_rows(found, observed(Map::empty(), listing.obs())));
        true
    }

    /// Takes in how a step went, and decides what follows.
    pub fn apply_next(&mut self, run: ApplyRun, reply: GuardReply, mono: u64) -> (r: ApplyNext)
        requires
            answers(run.step, reply),
        ensures
            final(self).supported == old(self).supported,
            history_after(run, reply, old(self).history@, final(self).history@),
            match step_after(run, reply, old(self).history@) {
                Some(step) => r == ApplyNext::Next(ApplyRun { step, ..run }),
                None => if run.step is SaveFile {
                    r matches ApplyNext::Done(s) && is_status(s, *final(self), true)
                } else {
                    r matches ApplyNext::Failed(e) && e@ == failure_text(run.step, reply)
                },
            },
            if run.step is Check && reply == GuardReply::Locked(true) {
                &&& final(self).file == guarded_from(run)
                &&& final(self).last_calls == run.calls_today
                &&& final(self).scan == empty_scan()
                &&& final(self).last_scan == Some(mono)
            } else {
                &&& final(self).file == old(self).file
                &&& final(self).last_calls == old(self).last_calls
                &&& final(self).last_scan == old(self).last_scan
                &&& final(self).scan == if run.step is Rescan {
                    reply->Scan_0
                } else {
                    old(self).scan
                }
            },
    {
        let begin = if run.keep_files {
            ApplyStep::Create
        } else {
            ApplyStep::List
        };
        let step = match run.step {
            ApplyStep::Probe => match reply {
                GuardReply::Locked(true) => ApplyStep::Unlock,
                _ => begin,
            },
            ApplyStep::Unlock => match reply {
                GuardReply::Failed(e) => return ApplyNext::Failed(e),
                _ => begin,
            },
            ApplyStep::List => match reply {
                GuardReply::Listing(listing) => if self.archive(&listing) {
                    ApplyStep::SaveHistory
                } else {
                    ApplyStep::Clear
                },
                _ => ApplyStep::Clear,
            },
            ApplyStep::SaveHistory => ApplyStep::Clear,
            ApplyStep::Clear => match reply {
                GuardReply::Failed(e) => return ApplyNext::Failed(
                    prefixed("清空 checkpoints 失败: ", &e),
                ),
                _ => ApplyStep::Create,
            },
            ApplyStep::Create => match reply {
                GuardReply::Failed(e) => return ApplyNext::Failed(
                    prefixed("重建 checkpoints 目录失败: ", &e),
                ),
                _ => if run.keep_files {
                    ApplyStep::LockTree
                } else {
                    ApplyStep::LockRoot
                },
            },
            ApplyStep::LockTree | ApplyStep::LockRoot => match reply {
                GuardReply::Failed(e) => return ApplyNext::Failed(e),
                _ => ApplyStep::Check,
            },
            ApplyStep::Check => match reply {
                GuardReply::Locked(true) => {
                    self.file = GuardFile {
                        locked_since_ms: Some(run.now_ms),
                        calls_baseline: Some(run.calls_today),
                        blocked_rounds: 0,
                        calls_seen: run.calls_today,
                    };
                    self.last_calls = run.calls_today;
                    self.scan = ScanSummary::default();
                    self.last_scan = Some(mono);
                    if run.keep_files {
                        ApplyStep::Rescan
                    } else {
                        ApplyStep::SaveFile
                    }
                },
                _ => return ApplyNext::Failed(
                    "锁定未生效（写入探测仍成功），请检查目录权限".to_owned(),
                ),
            },
            ApplyStep::Rescan => {
                if let GuardReply::Scan(s) = reply {
                    self.scan = s;
                }
                ApplyStep::SaveFile
            },
            ApplyStep::SaveFile => return ApplyNext::Done(self.status(true)),
        };
        ApplyNext::Next(
            ApplyRun {
                keep_files: run.keep_files,
                calls_today: run.calls_today,
                now_ms: run.now_ms,
                step,
            },
        )
    }
}

/// The directory is cleared only after what it held was archived, or when there was nothing to
/// archive; and never where its files are to be kept.
pub proof fn lemma_archived_before_cleared(run: ApplyRun, reply: GuardReply, history: Seq<CkptStat>)
    requires
        answers(run.step, reply),
        step_after(run, reply, history) == Some(ApplyStep::Clear),
    ensures
        run.step is SaveHistory || run.step is List && !to_archive(reply->Listing_0, history),
{
}

/// The step is one that is taken where the files are to be kept.
pub open spec fn keeps_files(step: ApplyStep) -> bool {
    !(step is List || step is SaveHistory || step is Clear)
}

/// Where the files are to be kept, the directory is never cleared.
pub proof fn lemma_kept_files_stay(run: ApplyRun, reply: GuardReply, history: Seq<CkptStat>)
    requires
        run.keep_files,
        keeps_files(run.step),
        answers(run.step, reply),
    ensures
        step_after(run, reply, history) matches Some(step) ==> keeps_files(step),
{
}

/// How many steps may still follow.
pub open spec fn steps_left(step: ApplyStep) -> nat {
    match step {
        ApplyStep::Probe => 9,
        ApplyStep::Unlock => 8,
        ApplyStep::List => 7,
        ApplyStep::SaveHistory => 6,
        ApplyStep::Clear => 5,
        ApplyStep::Create => 4,
        ApplyStep::LockTree | ApplyStep::LockRoot => 3,
        ApplyStep::Check => 2,
        ApplyStep::Rescan => 1,
        ApplyStep::SaveFile => 0,
    }
}

/// Whatever the replies are, setting up the guard comes to an end: no step is taken twice.
pub proof fn lemma_setup_comes_to_an_end(run: ApplyRun, reply: GuardReply, history: Seq<CkptStat>)
    requires
        answers(run.step, reply),
    ensures
        step_after(run, reply, history) matches Some(step) ==> steps_left(step) < steps_left(run.step),
{
}

/// The directory is locked only after it was unlocked where it was locked, and what is remembered
/// is saved only after the lock was seen to hold.
pub proof fn lemma_lock_is_checked(run: ApplyRun, reply: GuardReply, history: Seq<CkptStat>)
    requires
        answers(run.step, reply),
    ensures
        run.step is Probe && reply == GuardReply::Locked(true) ==> step_after(run, reply, history)
            == Some(ApplyStep::Unlock),
        step_after(run, reply, history) == Some(ApplyStep::SaveFile) ==> run.step is Rescan
            || run.step is Check && reply == GuardReply::Locked(true),
        step_after(run, reply, history) == Some(ApplyStep::Rescan) ==> run.step is Check && reply
            == GuardReply::Locked(true),
{
}

/// A file counts as an artifact where its name says that it is encrypted and its size is known.
pub proof fn lemma_encrypted_files_are_artifacts(
    files: Seq<(String, Option<u64>)>,
    f: (String, Option<u64>),
    stem: Seq<char>,
)
    ensures
        f.0@ == stem + ".enc"@ && f.1 is Some ==> artifact_sizes(files.push(f)) == artifact_sizes(
            files,
        ).push(f.1->0),
        f.1 is None ==> artifact_sizes(files.push(f)) == artifact_sizes(files),
        !finishes_with(f.0@, ".enc"@) ==> artifact_sizes(files.push(f)) == artifact_sizes(files),
{
    assert(files.push(f).drop_last() =~= files);
    lemma_text_is_found_where_it_stands(stem, ".enc"@, Seq::empty());
}

/// One more artifact adds its size.
pub proof fn lemma_sizes_push(s: Seq<u64>, n: u64)
    ensures
        sum_sizes(s.push(n)) == sum_sizes(s) + n,
{
    assert(s.push(n).drop_last() =~= s);
}

/// Every directory adds one workspace to what is shown, its artifacts with their sizes, and the
/// failures that its state file tells; what is no directory adds nothing.
pub proof fn lemma_workspace_adds_to_the_sums(dirs: Seq<WorkspaceDir>, d: WorkspaceDir)
    requires
        sums_fit(scan_sums(scans_in(dirs.push(d)))),
    ensures
        ({
            let (a, b) = (summary_of(scans_in(dirs)), summary_of(scans_in(dirs.push(d))));
            let sizes = artifact_sizes(d.pending@);
            &&& !d.is_dir ==> a == b
            &&& d.is_dir ==> {
                &&& b.workspace_count == a.workspace_count + 1
                &&& b.artifact_count == a.artifact_count + sizes.len()
                &&& b.artifact_bytes == a.artifact_bytes + sum_sizes(sizes)
                &&& d.state is None ==> b.failure_count == a.failure_count
                &&& d.state matches Some(t) ==> match json_of(t@) {
                    Some(v) => match as_natural(member(v, "failureCount"@)) {
                        Some(n) => b.failure_count == a.failure_count + n,
                        None => b.failure_count == a.failure_count,
                    },
                    None => b.failure_count == a.failure_count,
                }
            }
        }),
        summary_of(scans_in(Seq::empty())) == (ScanSummary {
            artifact_count: 0,
            artifact_bytes: 0,
            workspace_count: 0,
            failure_count: 0,
        }),
        sum_sizes(Seq::empty()) == 0,
{
    assert(dirs.push(d).drop_last() =~= dirs);
    let (x, y) = (scans_in(dirs), scans_in(dirs.push(d)));
    if d.is_dir {
        assert(y.drop_last() =~= x);
        assert(y.last() == scan_in(d));
        assert(y.take(x.len() as int) =~= x);
        lemma_scans_grow(y, x.len() as int);
    }
}

/// While a remembered lock lasts, every call that came since the last look is a round that was
/// blocked; fewer calls than at the last look, as on a new day, take none away.
pub proof fn lemma_calls_under_lock_are_rounds(
    file: GuardFile,
    last_calls: u64,
    calls: u64,
    now: i64,
)
    requires
        file.locked_since_ms is Some,
        file.calls_baseline is Some,
        countable_rounds(file, last_calls, calls),
    ensures
        ({
            let (after, save) = watched(file, last_calls, true, calls, now);
            &&& calls >= last_calls ==> after.blocked_rounds == file.blocked_rounds + (calls
                - last_calls)
            &&& calls < last_calls ==> after.blocked_rounds == file.blocked_rounds
            &&& after.calls_seen == calls
            &&& after.locked_since_ms == file.locked_since_ms
            &&& after.calls_baseline == file.calls_baseline
            &&& save == (after != file)
        }),
{
}

/// A lock that is not remembered is remembered from now on, with the calls of now to count from; one
/// that is gone is forgotten, with its rounds; and where there was none and is none, nothing changes.
pub proof fn lemma_lock_is_remembered_and_forgotten(
    file: GuardFile,
    last_calls: u64,
    calls: u64,
    now: i64,
)
    ensures
        file.locked_since_ms is None ==> {
            let (after, save) = watched(file, last_calls, true, calls, now);
            &&& after.locked_since_ms == Some(now)
            &&& after.calls_baseline == Some(calls)
            &&& after.calls_seen == calls
            &&& after.blocked_rounds == file.blocked_rounds
            &&& save
        },
        file.locked_since_ms is Some ==> {
            let (after, save) = watched(file, last_calls, false, calls, now);
            &&& after.locked_since_ms is None
            &&& after.calls_baseline is None
            &&& after.blocked_rounds == 0
            &&& save
        },
        file.locked_since_ms is None ==> watched(file, last_calls, false, calls, now) == (
            file,
            false,
        ),
{
}

/// The name of a directory is let through where it has a hundred and twenty-eight characters at
/// most, one at least, and they are letters and digits without marks, dashes and underlines.
pub proof fn lemma_who_is_let_through(name: Seq<char>)
    ensures
        plain_name(name) == (1 <= name.len() <= 128 && forall|i: int|
            0 <= i < name.len() ==> {
                let c = #[trigger] name[i];
                ||| 48 <= c as int <= 57
                ||| 65 <= c as int <= 90
                ||| 97 <= c as int <= 122
                ||| c == '-'
                ||| c == '_'
            }),
{
    if plain_name(name) {
        assert forall|i: int| 0 <= i < name.len() implies {
            let c = #[trigger] name[i];
            ||| 48 <= c as int <= 57
            ||| 65 <= c as int <= 90
            ||| 97 <= c as int <= 122
            ||| c == '-'
            ||| c == '_'
        } by {
            assert(plain_char(name[i]));
        }
    }
}

/// What is archived takes the place of what was archived before of the same workspace; what was
/// archived of other workspaces stays; and five hundred rows are kept, the latest ones first.
pub proof fn lemma_new_row_replaces_the_old(
    rows: Seq<CkptStat>,
    before: Seq<CkptStat>,
    found: Seq<CkptStat>,
    i: int,
    k: int,
)
    requires
        is_history(rows, before + found),
        forall|a: int, b: int|
            #![trigger found[a], found[b]]
            0 <= a < b < found.len() ==> found[a].workspace@ != found[b].workspace@,
        0 <= i < found.len(),
        0 <= k < rows.len(),
    ensures
        rows.len() <= 500,
        rows[k].workspace@ == found[i].workspace@ ==> rows[k] == found[i],
        rows.len() < 500 ==> exists|j: int| 0 <= j < rows.len() && #[trigger] rows[j] == found[i],
        forall|j: int| k < j < rows.len() ==> rows[k].recorded_ms >= (#[trigger] rows[j]).recorded_ms,
{
    let all = before + found;
    let n = before.len() + i;
    assert(all[n] == found[i]);
    assert forall|j: int| n < j < all.len() implies (#[trigger] all[j]).workspace@
        != all[n].workspace@ by {
        assert(all[j] == found[j - before.len()]);
        assert(found[i].workspace@ != found[j - before.len()].workspace@);
    }
    assert(is_latest(all, n));
    assert(is_kept(rows[k], all));
    let m = choose|m: int| #[trigger] is_latest(all, m) && all[m] == rows[k];
    if rows[k].workspace@ == found[i].workspace@ {
        if m < n {
            assert(all[n].workspace@ != all[m].workspace@);
        } else if n < m {
            assert(all[m].workspace@ != all[n].workspace@);
        }
    }
    if rows.len() < 500 {
        assert(rows.contains(all[n]));
        let j = choose|j: int| 0 <= j < rows.len() && rows[j] == all[n];
        assert(rows[j] == found[i]);
    }
    assert forall|j: int| k < j < rows.len() implies rows[k].recorded_ms >= (
    #[trigger] rows[j]).recorded_ms by {
        assert(rows[k].recorded_ms >= rows[j].recorded_ms);
    }
}

/// The directory is looked through at once, and then every five seconds.
pub proof fn lemma_when_the_directory_is_looked_through(last: Option<u64>, mono: u64)
    ensures
        scan_is_due(last, mono) == (last matches Some(t) ==> mono > t + 5_000_000_000),
{
}

/// What is shown of the guard is what it knows, each number for what it is.
pub proof fn lemma_status_tells_what_is_known(
    s: SnapshotGuardStatus,
    g: SnapshotGuard,
    locked: bool,
)
    requires
        is_status(s, g, locked),
    ensures
        s.locked == locked,
        s.supported == g.supported,
        s.locked_since_ms == g.file.locked_since_ms,
        s.blocked_rounds == g.file.blocked_rounds,
        (ScanSummary {
            artifact_count: s.artifact_count,
            artifact_bytes: s.artifact_bytes,
            workspace_count: s.workspace_count,
            failure_count: s.failure_count,
        }) == g.scan,
        s.history@ == g.history@,
{
}

/// The steps on the way to a locked directory where all goes well: a locked one is unlocked; one
/// whose files are not kept is archived, where there is something to archive, then cleared and made
/// again, and locked; one whose files are kept is locked with all that is in it, and looked through.
/// A step that fails ends the way.
pub proof fn lemma_way_to_a_locked_directory(run: ApplyRun, reply: GuardReply, history: Seq<CkptStat>)
    requires
        answers(run.step, reply),
    ensures
        ({
            let next = step_after(run, reply, history);
            match run.step {
                ApplyStep::Probe => next == Some(
                    if reply == GuardReply::Locked(true) {
                        ApplyStep::Unlock
                    } else if run.keep_files {
                        ApplyStep::Create
                    } else {
                        ApplyStep::List
                    },
                ),
                ApplyStep::Unlock => reply is Done ==> next == Some(
                    if run.keep_files {
                        ApplyStep::Create
                    } else {
                        ApplyStep::List
                    },
                ),
                ApplyStep::List => history.len() > 0 || observed(
                    Map::empty(),
                    (reply->Listing_0).obs(),
                ).dom().len() > 0 <==> next == Some(ApplyStep::SaveHistory),
                ApplyStep::SaveHistory => next == Some(ApplyStep::Clear),
                ApplyStep::Clear => reply is Done ==> next == Some(ApplyStep::Create),
                ApplyStep::Create => reply is Done ==> next == Some(
                    if run.keep_files {
                        ApplyStep::LockTree
                    } else {
                        ApplyStep::LockRoot
                    },
                ),
                ApplyStep::LockTree => reply is Done ==> next == Some(ApplyStep::Check),
                ApplyStep::LockRoot => reply is Done ==> next == Some(ApplyStep::Check),
                ApplyStep::Check => reply == GuardReply::Locked(true) ==> next == Some(
                    if run.keep_files {
                        ApplyStep::Rescan
                    } else {
                        ApplyStep::SaveFile
                    },
                ),
                ApplyStep::Rescan => next == Some(ApplyStep::SaveFile),
                ApplyStep::SaveFile => next is None,
            }
        }),
        reply is Failed && !(run.step is SaveHistory) ==> step_after(run, reply, history) is None,
        run.step is Check && reply == GuardReply::Locked(false) ==> step_after(
            run,
            reply,
            history,
        ) is None,
        reply matches GuardReply::Failed(e) ==> (run.step is Unlock || run.step is LockTree
            || run.step is LockRoot ==> failure_text(run.step, reply) == e@),
{
}

/// What a state file tells of failures.
pub proof fn lemma_failures_are_told(v: JsonView)
    ensures
        !(v is Object) ==> summary_in(v) is None,
        v is Object ==> summary_in(v) is Some,
        v is Object ==> (as_natural(member(v, "failureCount"@)) matches Some(n) ==> summary_in(
            v,
        )->0.failure_count == n),
        v is Object && as_natural(member(v, "failureCount"@)) is None ==> summary_in(
            v,
        )->0.failure_count == 0,
{
}

/// The steps with their replies are a way from the start, each step the one that follows.
pub open spec fn is_way(
    keep_files: bool,
    steps: Seq<ApplyRun>,
    replies: Seq<GuardReply>,
    histories: Seq<Seq<CkptStat>>,
) -> bool {
    &&& steps.len() > 0
    &&& replies.len() == steps.len()
    &&& histories.len() == steps.len()
    &&& steps[0].step is Probe
    &&& forall|i: int|
        #![trigger steps[i]]
        0 <= i < steps.len() ==> steps[i].keep_files == keep_files && answers(
            steps[i].step,
            replies[i],
        )
    &&& forall|i: int|
        #![trigger steps[i]]
        0 < i < steps.len() ==> step_after(steps[i - 1], replies[i - 1], histories[i - 1]) == Some(
            steps[i].step,
        )
}

/// Who comes to where what is remembered is saved has seen the lock hold, after locking a directory
/// that was there: with all that was in it where the files are kept, and otherwise after it was
/// cleared of them. Where the files are kept it was looked through.
pub proof fn lemma_whole_way(
    keep_files: bool,
    steps: Seq<ApplyRun>,
    replies: Seq<GuardReply>,
    histories: Seq<Seq<CkptStat>>,
)
    requires
        is_way(keep_files, steps, replies, histories),
        steps.last().step is SaveFile,
    ensures
        ({
            let n = steps.len();
            if keep_files {
                &&& n >= 6
                &&& steps[n - 2].step is Rescan
                &&& steps[n - 3].step is Check && replies[n - 3] == GuardReply::Locked(true)
                &&& steps[n - 4].step is LockTree && replies[n - 4] is Done
                &&& steps[n - 5].step is Create && replies[n - 5] is Done
                &&& forall|i: int| 0 <= i < n ==> !((#[trigger] steps[i]).step is Clear)
            } else {
                &&& n >= 7
                &&& steps[n - 2].step is Check && replies[n - 2] == GuardReply::Locked(true)
                &&& steps[n - 3].step is LockRoot && replies[n - 3] is Done
                &&& steps[n - 4].step is Create && replies[n - 4] is Done
                &&& steps[n - 5].step is Clear && replies[n - 5] is Done
            }
        }),
{
    let n = steps.len();
    if keep_files {
        lemma_way_keeps_files(steps, replies, histories, n - 1);
        assert(steps[n - 1].step is SaveFile);
        assert(steps[n - 2].step is Rescan);
        assert(steps[n - 3].step is Check);
        assert(steps[n - 4].step is LockTree);
        assert(steps[n - 5].step is Create);
    } else {
        assert(steps[n - 1].step is SaveFile);
        assert(!(steps[n - 2].step is Rescan)) by {
            if steps[n - 2].step is Rescan {
                assert(steps[n - 3].step is Check);
            }
        }
        assert(steps[n - 2].step is Check);
        assert(steps[n - 3].step is LockRoot);
        assert(steps[n - 4].step is Create);
        assert(steps[n - 5].step is Clear);
        assert(!(steps[0].step is Clear));
        assert(steps[n - 6].step is SaveHistory || steps[n - 6].step is List);
        assert(!(steps[0].step is List));
    }
}

proof fn lemma_way_keeps_files(
    steps: Seq<ApplyRun>,
    replies: Seq<GuardReply>,
    histories: Seq<Seq<CkptStat>>,
    at: int,
)
    requires
        is_way(true, steps, replies, histories),
        0 <= at < steps.len(),
    ensures
        forall|i: int| 0 <= i <= at ==> keeps_files((#[trigger] steps[i]).step),
    decreases at,
{
    if at > 0 {
        lemma_way_keeps_files(steps, replies, histories, at - 1);
        assert(keeps_files(steps[at - 1].step));
        assert(step_after(steps[at - 1], replies[at - 1], histories[at - 1]) == Some(
            steps[at].step,
        ));
        lemma_kept_files_stay(steps[at - 1], replies[at - 1], histories[at - 1]);
    }
}

/// What was found counts where the directory is looked through, which is at once and then every five
/// seconds; in between what was found before goes on to count.
pub proof fn lemma_found_counts_for_five_seconds(
    known: ScanSummary,
    found: ScanSummary,
    later: ScanSummary,
    last: Option<u64>,
    mono: u64,
    then: u64,
)
    requires
        mono <= then,
    ensures
        scan_after(known, None, found, mono) == (found, Some(mono)),
        then <= mono + 5_000_000_000 ==> scan_after(found, Some(mono), later, then) == (
            found,
            Some(mono),
        ),
        then > mono + 5_000_000_000 ==> scan_after(found, Some(mono), later, then) == (
            later,
            Some(then),
        ),
{
}

/// Rounds count from when the lock was set up: so many calls later so many rounds were blocked, and
/// the lock is as old as its set-up.
pub proof fn lemma_rounds_count_from_the_lock(run: ApplyRun, calls: u64, later: i64)
    requires
        calls >= run.calls_today,
    ensures
        ({
            let after = watched(guarded_from(run), run.calls_today, true, calls, later).0;
            &&& after.blocked_rounds == calls - run.calls_today
            &&& after.locked_since_ms == Some(run.now_ms)
            &&& after.calls_baseline == Some(run.calls_today)
            &&& after.calls_seen == calls
        }),
{
}

/// Where there is nothing to guard, nothing is shown but whether directories can be locked.
pub proof fn lemma_nothing_to_guard_shows_nothing(s: SnapshotGuardStatus, g: SnapshotGuard)
    requires
        is_blank_status(s, g.supported),
        g.file == unguarded(),
        g.scan == empty_scan(),
        g.history@.len() == 0,
    ensures
        is_status(s, g, false),
        s.blocked_rounds == 0 && s.artifact_bytes == 0 && s.artifact_count == 0,
        s.workspace_count == 0 && s.failure_count == 0,
{
    assert(s.history@ =~= g.history@);
}

/// A lock that is remembered without the calls to count from is taken for a new one, with its rounds.
pub proof fn lemma_lock_without_calls_is_new(file: GuardFile, last_calls: u64, calls: u64, now: i64)
    requires
        file.calls_baseline is None,
    ensures
        ({
            let (after, save) = watched(file, last_calls, true, calls, now);
            &&& save
            &&& after.locked_since_ms == Some(now)
            &&& after.calls_baseline == Some(calls)
            &&& after.calls_seen == calls
            &&& after.blocked_rounds == file.blocked_rounds
        }),
{
}

/// Of what a directory held nothing is lost before it is cleared: after a look at it, the history
/// holds a row of every workspace that was found, unless it is full.
pub proof fn lemma_found_workspaces_are_archived(
    run: ApplyRun,
    reply: GuardReply,
    before: Seq<CkptStat>,
    after: Seq<CkptStat>,
)
    requires
        run.step is List,
        reply is Listing,
        history_after(run, reply, before, after),
        after.len() < 500,
    ensures
        forall|k: Seq<char>| #[trigger]
            observed(Map::empty(), (reply->Listing_0).obs()).dom().contains(k) ==> exists|i: int|
                0 <= i < after.len() && (#[trigger] after[i]).workspace@ == archived_name(
                    observed(Map::empty(), (reply->Listing_0).obs())[k],
                ),
{
    let states = observed(Map::empty(), (reply->Listing_0).obs());
    lemma_observed_is_finite((reply->Listing_0).obs());
    if !to_archive(reply->Listing_0, before) {
        assert(states.dom() =~= Set::empty());
    } else {
        let rows = choose|rows: Seq<CkptStat>| #[trigger]
            are_rows(rows, states) && is_history(after, before + rows);
        let all = before + rows;
        assert forall|k: Seq<char>| #[trigger] states.dom().contains(k) implies exists|i: int|
            0 <= i < after.len() && (#[trigger] after[i]).workspace@ == archived_name(states[k]) by {
            let i = choose|i: int| 0 <= i < rows.len() && (#[trigger] rows[i])@.hash == Some(k);
            assert(is_row(rows[i], states));
            assert(all[before.len() + i] == rows[i]);
            let m = lemma_some_latest(all, before.len() + i);
            assert(after.contains(all[m]));
            let j = choose|j: int| 0 <= j < after.len() && after[j] == all[m];
            assert(after[j].workspace@ == archived_name(states[k]));
        }
    }
}

/// The name under which a workspace is archived.
pub open spec fn archived_name(s: CkptStateView) -> Seq<char> {
    if s.workspace.len() > 0 {
        s.workspace
    } else {
        "?"@
    }
}

proof fn lemma_observed_is_finite(obs: Seq<(Seq<char>, CkptStateView)>)
    ensures
        observed(Map::empty(), obs).dom().finite(),
    decreases obs.len(),
{
    if obs.len() > 0 {
        lemma_observed_is_finite(obs.drop_last());
    }
}

proof fn lemma_some_latest(all: Seq<CkptStat>, i: int) -> (m: int)
    requires
        0 <= i < all.len(),
    ensures
        is_latest(all, m),
        all[m].workspace@ == all[i].workspace@,
    decreases all.len() - i,
{
    if exists|j: int| i < j < all.len() && (#[trigger] all[j]).workspace@ == all[i].workspace@ {
        let j = choose|j: int|
            i < j < all.len() && (#[trigger] all[j]).workspace@ == all[i].workspace@;
        lemma_some_latest(all, j)
    } else {
        i
    }
}

} // verus!
