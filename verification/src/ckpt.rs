//! Checkpoints of workspaces: what their state files say, and what changes from look to look.

use vstd::prelude::*;
use crate::json::{
    as_integer, as_natural, as_text, integer_in, json_of, member, natural_in, parse, text_in, Json,
    JsonView,
};
use crate::metrics::{optional_text, CkptStat, CkptStatView};
use crate::order::{lemma_permuted, sort, sorted, Ordered};
use crate::text::{chars_of, text_of};

verus! {

/// What the state file of one workspace says.
#[derive(Debug, PartialEq)]
pub struct CkptState {
    /// The name by which the workspace is shown.
    pub workspace: String,
    /// Size of the latest artifact.
    pub artifact_bytes: u64,
    pub artifact_hash: Option<String>,
    /// The artifact that the server has accepted.
    pub accepted_hash: Option<String>,
    pub uploading: bool,
    pub recorded_at: Option<i64>,
}

/// What a [`CkptState`] holds.
pub ghost struct CkptStateView {
    pub workspace: Seq<char>,
    pub artifact_bytes: u64,
    pub artifact_hash: Option<Seq<char>>,
    pub accepted_hash: Option<Seq<char>>,
    pub uploading: bool,
    pub recorded_at: Option<i64>,
}

impl View for CkptState {
    type V = CkptStateView;

    open spec fn view(&self) -> CkptStateView {
        CkptStateView {
            workspace: self.workspace@,
            artifact_bytes: self.artifact_bytes,
            artifact_hash: optional_text(self.artifact_hash),
            accepted_hash: optional_text(self.accepted_hash),
            uploading: self.uploading,
            recorded_at: self.recorded_at,
        }
    }
}

fn copy_text(s: &Option<String>) -> (r: Option<String>)
    ensures
        r == *s,
{
    match s {
        Some(t) => Some(t.clone()),
        None => None,
    }
}

impl Clone for CkptState {
    fn clone(&self) -> (r: Self)
        ensures
            r == *self,
    {
        CkptState {
            workspace: self.workspace.clone(),
            artifact_bytes: self.artifact_bytes,
            artifact_hash: copy_text(&self.artifact_hash),
            accepted_hash: copy_text(&self.accepted_hash),
            uploading: self.uploading,
            recorded_at: self.recorded_at,
        }
    }
}

/// The character parts a path.
pub open spec fn parts_path(c: char) -> bool {
    c == '\\' || c == '/'
}

/// The path without the separators at its end.
pub open spec fn without_tail(p: Seq<char>) -> Seq<char>
    decreases p.len(),
{
    if p.len() > 0 && parts_path(p.last()) {
        without_tail(p.drop_last())
    } else {
        p
    }
}

/// What follows the last separator.
pub open spec fn last_part(p: Seq<char>) -> Seq<char>
    decreases p.len(),
{
    if p.len() == 0 || parts_path(p.last()) {
        Seq::empty()
    } else {
        last_part(p.drop_last()).push(p.last())
    }
}

/// The name by which a workspace is shown: the last part of its path that is not empty, or the
/// whole path where there is none.
pub open spec fn shown_name(p: Seq<char>) -> Seq<char> {
    let q = without_tail(p);
    if q.len() == 0 {
        p
    } else {
        last_part(q)
    }
}

/// Finds the name by which a workspace is shown.
pub fn workspace_name(path: &str) -> (r: String)
    ensures
        r@ == shown_name(path@),
{
    let p = chars_of(path);
    let mut end: usize = p.len();
    assert(p@.take(end as int) =~= p@);
    while end > 0 && (p[end - 1] == '\\' || p[end - 1] == '/')
        invariant
            end <= p.len(),
            without_tail(p@) == without_tail(p@.take(end as int)),
        decreases end,
    {
        assert(p@.take(end as int).drop_last() =~= p@.take(end - 1));
        end -= 1;
    }
    assert(without_tail(p@) == p@.take(end as int)) by {
        assert(end > 0 ==> p@.take(end as int).last() == p@[end - 1]);
    }
    if end == 0 {
        return text_of(p.as_slice());
    }
    let ghost q = p@.take(end as int);
    let mut start: usize = end;
    let ghost mut tail: Seq<char> = Seq::empty();
    assert(last_part(q.take(start as int)) + tail =~= last_part(q)) by {
        assert(q.take(start as int) =~= q);
    }
    while start > 0 && p[start - 1] != '\\' && p[start - 1] != '/'
        invariant
            start <= end <= p.len(),
            q == p@.take(end as int),
            tail == p@.subrange(start as int, end as int),
            last_part(q.take(start as int)) + tail == last_part(q),
        decreases start,
    {
        proof {
            let here = q.take(start as int);
            assert(here.drop_last() =~= q.take(start - 1));
            assert(here.last() == p@[start - 1]);
            let more = p@.subrange(start - 1, end as int);
            assert(more =~= seq![p@[start - 1]] + tail);
            assert(last_part(q.take(start - 1)) + more =~= last_part(here) + tail);
            tail = more;
        }
        start -= 1;
    }
    proof {
        assert(start > 0 ==> q.take(start as int).last() == p@[start - 1]);
        assert(last_part(q.take(start as int)) =~= Seq::empty());
        assert(last_part(q) =~= p@.subrange(start as int, end as int));
    }
    let mut name: Vec<char> = Vec::new();
    let mut i: usize = start;
    while i < end
        invariant
            start <= i <= end <= p.len(),
            name@ == p@.subrange(start as int, i as int),
        decreases end - i,
    {
        assert(p@.subrange(start as int, i + 1) =~= p@.subrange(start as int, i as int).push(
            p@[i as int],
        ));
        name.push(p[i]);
        i += 1;
    }
    text_of(name.as_slice())
}

/// A text that is there and not empty.
pub open spec fn filled(t: Option<Seq<char>>) -> Option<Seq<char>> {
    match t {
        Some(s) if s.len() > 0 => Some(s),
        _ => None,
    }
}

/// What a state file says, where it speaks of an artifact at all.
pub open spec fn state_in(v: JsonView) -> Option<CkptStateView> {
    match member(v, "lastCompressedSize"@) {
        None => None,
        Some(lc) => Some(
            CkptStateView {
                workspace: match as_text(member(v, "workspacePath"@)) {
                    Some(p) => shown_name(p),
                    None => Seq::empty(),
                },
                artifact_bytes: match as_natural(member(lc, "encryptedSizeBytes"@)) {
                    Some(n) => n,
                    None => 0,
                },
                artifact_hash: as_text(member(lc, "manifestHash"@)),
                accepted_hash: filled(as_text(member(v, "lastAcceptedManifestHash"@))),
                uploading: match member(v, "activeUpload"@) {
                    Some(u) => u != JsonView::Null,
                    None => false,
                },
                recorded_at: as_integer(member(lc, "recordedAt"@)),
            },
        ),
    }
}

/// Takes from a state file what it says of the latest artifact.
pub fn ckpt_state_from(v: &Json) -> (r: Option<CkptState>)
    ensures
        match r {
            Some(s) => state_in(v@) == Some(s@),
            None => state_in(v@) is None,
        },
{
    let lc = match v.get("lastCompressedSize") {
        Some(lc) => lc,
        None => return None,
    };
    let workspace = match text_in(v.get("workspacePath")) {
        Some(p) => workspace_name(p.as_str()),
        None => String::new(),
    };
    let artifact_bytes: u64 = match natural_in(lc.get("encryptedSizeBytes")) {
        Some(n) => n,
        None => 0,
    };
    let artifact_hash = text_in(lc.get("manifestHash"));
    let accepted_hash = match text_in(v.get("lastAcceptedManifestHash")) {
        Some(h) => if h.as_str().is_empty() {
            None
        } else {
            Some(h)
        },
        None => None,
    };
    let uploading = match v.get("activeUpload") {
        Some(u) => !u.is_null(),
        None => false,
    };
    let recorded_at = integer_in(lc.get("recordedAt"));
    Some(
        CkptState {
            workspace,
            artifact_bytes,
            artifact_hash,
            accepted_hash,
            uploading,
            recorded_at,
        },
    )
}

/// Reads a state file. One that is damaged, or speaks of no artifact, gives nothing.
pub fn parse_ckpt_state(json: &str) -> (r: Option<CkptState>)
    ensures
        match r {
            Some(s) => json_of(json@) matches Some(v) && state_in(v) == Some(s@),
            None => json_of(json@) matches Some(v) ==> state_in(v) is None,
        },
{
    match parse(json) {
        Some(v) => ckpt_state_from(&v),
        None => None,
    }
}

/// The states of all workspaces, by the names of their directories.
pub struct CkptTable {
    pub entries: Vec<(String, CkptState)>,
}

/// The states in a list of entries; of several with one name the first counts.
pub open spec fn table_of(entries: Seq<(String, CkptState)>) -> Map<Seq<char>, CkptStateView>
    decreases entries.len(),
{
    if entries.len() == 0 {
        Map::empty()
    } else {
        table_of(entries.drop_first()).insert(entries[0].0@, entries[0].1@)
    }
}

impl View for CkptTable {
    type V = Map<Seq<char>, CkptStateView>;

    open spec fn view(&self) -> Map<Seq<char>, CkptStateView> {
        table_of(self.entries@)
    }
}

/// No name occurs twice.
pub open spec fn unique_names(entries: Seq<(String, CkptState)>) -> bool {
    forall|i: int, j: int|
        #![trigger entries[i], entries[j]]
        0 <= i < entries.len() && 0 <= j < entries.len() && i != j ==> entries[i].0@
            != entries[j].0@
}

proof fn lemma_table(entries: Seq<(String, CkptState)>)
    requires
        unique_names(entries),
    ensures
        forall|i: int|
            0 <= i < entries.len() ==> table_of(entries).dom().contains(
                (#[trigger] entries[i]).0@,
            ) && table_of(entries)[entries[i].0@] == entries[i].1@,
        forall|k: Seq<char>| #[trigger]
            table_of(entries).dom().contains(k) ==> exists|i: int|
                0 <= i < entries.len() && (#[trigger] entries[i]).0@ == k,
        table_of(entries).dom().finite(),
        table_of(entries).dom().len() == entries.len(),
    decreases entries.len(),
{
    if entries.len() > 0 {
        let rest = entries.drop_first();
        assert forall|i: int, j: int|
            #![trigger rest[i], rest[j]]
            0 <= i < rest.len() && 0 <= j < rest.len() && i != j implies rest[i].0@
            != rest[j].0@ by {
            assert(rest[i] == entries[i + 1] && rest[j] == entries[j + 1]);
        }
        lemma_table(rest);
        assert forall|i: int| 0 <= i < entries.len() implies table_of(entries).dom().contains(
            (#[trigger] entries[i]).0@,
        ) && table_of(entries)[entries[i].0@] == entries[i].1@ by {
            if i > 0 {
                assert(rest[i - 1] == entries[i]);
                assert(entries[0].0@ != entries[i].0@);
            }
        }
        assert forall|k: Seq<char>| #[trigger] table_of(entries).dom().contains(k) implies exists|
            i: int,
        |
            0 <= i < entries.len() && (#[trigger] entries[i]).0@ == k by {
            if k == entries[0].0@ {
            } else {
                assert(table_of(rest).dom().contains(k));
                let j = choose|j: int| 0 <= j < rest.len() && (#[trigger] rest[j]).0@ == k;
                assert(entries[j + 1] == rest[j]);
            }
        }
        assert(!table_of(rest).dom().contains(entries[0].0@)) by {
            if table_of(rest).dom().contains(entries[0].0@) {
                let j = choose|j: int|
                    0 <= j < rest.len() && (#[trigger] rest[j]).0@ == entries[0].0@;
                assert(entries[j + 1] == rest[j]);
            }
        }
        assert(table_of(entries).dom() =~= table_of(rest).dom().insert(entries[0].0@));
    }
}

proof fn lemma_same_table(a: Seq<(String, CkptState)>, m: Map<Seq<char>, CkptStateView>)
    requires
        unique_names(a),
        forall|i: int|
            0 <= i < a.len() ==> m.dom().contains((#[trigger] a[i]).0@) && m[a[i].0@] == a[i].1@,
        forall|k: Seq<char>| #[trigger]
            m.dom().contains(k) ==> exists|i: int| 0 <= i < a.len() && (#[trigger] a[i]).0@ == k,
    ensures
        table_of(a) == m,
{
    lemma_table(a);
    assert forall|k: Seq<char>| #[trigger] table_of(a).dom().contains(k) == m.dom().contains(k) by {
        if table_of(a).dom().contains(k) {
            let i = choose|i: int| 0 <= i < a.len() && (#[trigger] a[i]).0@ == k;
        }
        if m.dom().contains(k) {
            let i = choose|i: int| 0 <= i < a.len() && (#[trigger] a[i]).0@ == k;
        }
    }
    assert forall|k: Seq<char>| #[trigger] table_of(a).dom().contains(k) implies table_of(a)[k]
        == m[k] by {
        let i = choose|i: int| 0 <= i < a.len() && (#[trigger] a[i]).0@ == k;
    }
    assert(table_of(a) =~= m);
}

impl CkptTable {
    /// No directory occurs twice.
    pub open spec fn wf(self) -> bool {
        unique_names(self.entries@)
    }

    /// No workspace is known.
    pub fn new() -> (r: Self)
        ensures
            r.wf(),
            r@ == Map::<Seq<char>, CkptStateView>::empty(),
    {
        CkptTable { entries: Vec::new() }
    }

    /// Copies the states.
    pub fn copy(&self) -> (r: Self)
        ensures
            r.entries@ == self.entries@,
    {
        let mut entries: Vec<(String, CkptState)> = Vec::new();
        let mut i: usize = 0;
        while i < self.entries.len()
            invariant
                i <= self.entries.len(),
                entries@ == self.entries@.take(i as int),
            decreases self.entries.len() - i,
        {
            let e = &self.entries[i];
            entries.push((e.0.clone(), e.1.clone()));
            i += 1;
        }
        CkptTable { entries }
    }

    /// Finds the state of a workspace.
    pub fn get(&self, key: &str) -> (r: Option<&CkptState>)
        requires
            self.wf(),
        ensures
            match r {
                Some(s) => self@.dom().contains(key@) && self@[key@] == s@,
                None => !self@.dom().contains(key@),
            },
    {
        proof {
            lemma_table(self.entries@);
        }
        let wanted = key.to_owned();
        let mut i: usize = 0;
        while i < self.entries.len()
            invariant
                i <= self.entries.len(),
                wanted@ == key@,
                self.wf(),
                forall|j: int| 0 <= j < i ==> (#[trigger] self.entries@[j]).0@ != key@,
            decreases self.entries.len() - i,
        {
            if self.entries[i].0 == wanted {
                proof {
                    lemma_table(self.entries@);
                    assert(self.entries@[i as int].0@ == key@);
                }
                return Some(&self.entries[i].1);
            }
            i += 1;
        }
        None
    }

    /// Puts in the state of a workspace; its last state, where there was one, comes back.
    pub fn insert(&mut self, key: String, state: CkptState) -> (r: Option<CkptState>)
        requires
            old(self).wf(),
        ensures
            final(self).wf(),
            final(self)@ == old(self)@.insert(key@, state@),
            match r {
                Some(s) => old(self)@.dom().contains(key@) && old(self)@[key@] == s@,
                None => !old(self)@.dom().contains(key@),
            },
    {
        let ghost start = self.entries@;
        let ghost m = self@.insert(key@, state@);
        proof {
            lemma_table(start);
        }
        let mut i: usize = 0;
        while i < self.entries.len()
            invariant
                i <= self.entries.len(),
                self.entries@ == start,
                start == old(self).entries@,
                unique_names(start),
                m == table_of(start).insert(key@, state@),
                forall|j: int| 0 <= j < i ==> (#[trigger] start[j]).0@ != key@,
            decreases self.entries.len() - i,
        {
            if self.entries[i].0 == key {
                let mut was = (key, state);
                std::mem::swap(&mut was, &mut self.entries[i]);
                proof {
                    let now = self.entries@;
                    assert(now == start.update(i as int, (key, state)));
                    assert(start[i as int].0@ == key@);
                    assert forall|a: int, b: int|
                        #![trigger now[a], now[b]]
                        0 <= a < now.len() && 0 <= b < now.len() && a != b implies now[a].0@
                        != now[b].0@ by {
                        assert(start[a].0@ != start[b].0@);
                    }
                    lemma_table(start);
                    assert forall|a: int| 0 <= a < now.len() implies m.dom().contains(
                        (#[trigger] now[a]).0@,
                    ) && m[now[a].0@] == now[a].1@ by {
                        if a != i {
                            assert(start[a] == now[a]);
                            assert(start[a].0@ != start[i as int].0@);
                        }
                    }
                    assert forall|k: Seq<char>| #[trigger] m.dom().contains(k) implies exists|a: int|
                        0 <= a < now.len() && (#[trigger] now[a]).0@ == k by {
                        if k == key@ {
                            assert(now[i as int].0@ == k);
                        } else {
                            let a = choose|a: int|
                                0 <= a < start.len() && (#[trigger] start[a]).0@ == k;
                            assert(now[a] == start[a]);
                        }
                    }
                    lemma_same_table(now, m);
                }
                return Some(was.1);
            }
            i += 1;
        }
        self.entries.push((key, state));
        proof {
            let now = self.entries@;
            assert forall|a: int, b: int|
                #![trigger now[a], now[b]]
                0 <= a < now.len() && 0 <= b < now.len() && a != b implies now[a].0@
                != now[b].0@ by {
                if a < start.len() {
                    assert(start[a] == now[a]);
                }
                if b < start.len() {
                    assert(start[b] == now[b]);
                }
            }
            lemma_table(start);
            assert(!table_of(start).dom().contains(key@)) by {
                if table_of(start).dom().contains(key@) {
                    let a = choose|a: int|
                        0 <= a < start.len() && (#[trigger] start[a]).0@ == key@;
                }
            }
            assert forall|a: int| 0 <= a < now.len() implies m.dom().contains(
                (#[trigger] now[a]).0@,
            ) && m[now[a].0@] == now[a].1@ by {
                if a < start.len() {
                    assert(start[a] == now[a]);
                }
            }
            assert forall|k: Seq<char>| #[trigger] m.dom().contains(k) implies exists|a: int|
                0 <= a < now.len() && (#[trigger] now[a]).0@ == k by {
                if k == key@ {
                    assert(now[start.len() as int].0@ == k);
                } else {
                    let a = choose|a: int| 0 <= a < start.len() && (#[trigger] start[a]).0@ == k;
                    assert(now[a] == start[a]);
                }
            }
            lemma_same_table(now, m);
        }
        None
    }
}

/// A change from one look to the next.
#[derive(Debug, PartialEq)]
pub struct CkptEvent {
    /// `accepted`, `upload_start` or `upload_end`.
    pub kind: &'static str,
    pub workspace: String,
    pub bytes: u64,
    /// When the accepted artifact was recorded; zero where that is unknown or beside the point.
    pub recorded_ms: i64,
}

/// What a [`CkptEvent`] holds.
pub ghost struct CkptEventView {
    pub kind: Seq<char>,
    pub workspace: Seq<char>,
    pub bytes: u64,
    pub recorded_ms: i64,
}

impl View for CkptEvent {
    type V = CkptEventView;

    open spec fn view(&self) -> CkptEventView {
        CkptEventView {
            kind: self.kind@,
            workspace: self.workspace@,
            bytes: self.bytes,
            recorded_ms: self.recorded_ms,
        }
    }
}

/// What a list of events holds.
pub open spec fn event_views(events: Seq<CkptEvent>) -> Seq<CkptEventView> {
    events.map_values(|e: CkptEvent| e@)
}

/// What a list of observations holds.
pub open spec fn obs_views(obs: Seq<(String, CkptState)>) -> Seq<(Seq<char>, CkptStateView)> {
    obs.map_values(|o: (String, CkptState)| (o.0@, o.1@))
}

/// The latest artifact was accepted, and was not recorded before the day began.
pub open spec fn accepted_today(s: CkptStateView, day_start: i64) -> bool {
    s.accepted_hash is Some && (s.recorded_at matches Some(t) ==> t >= day_start)
}

/// The number, or zero.
pub open spec fn or_zero(n: Option<i64>) -> i64 {
    match n {
        Some(n) => n,
        None => 0,
    }
}

pub open spec fn acceptance(s: CkptStateView) -> CkptEventView {
    CkptEventView {
        kind: "accepted"@,
        workspace: s.workspace,
        bytes: s.artifact_bytes,
        recorded_ms: or_zero(s.recorded_at),
    }
}

/// What one observation brings about. A workspace that is seen for the first time counts only
/// where the day is made up for.
pub open spec fn changes(
    before: Option<CkptStateView>,
    s: CkptStateView,
    day_start: i64,
    count: bool,
) -> Seq<CkptEventView> {
    match before {
        None => if count && accepted_today(s, day_start) {
            seq![acceptance(s)]
        } else {
            Seq::empty()
        },
        Some(b) => {
            let first = if b.accepted_hash != s.accepted_hash && accepted_today(s, day_start) {
                seq![acceptance(s)]
            } else {
                Seq::empty()
            };
            if !b.uploading && s.uploading {
                first.push(
                    CkptEventView {
                        kind: "upload_start"@,
                        workspace: s.workspace,
                        bytes: s.artifact_bytes,
                        recorded_ms: 0,
                    },
                )
            } else if b.uploading && !s.uploading {
                first.push(
                    CkptEventView {
                        kind: "upload_end"@,
                        workspace: s.workspace,
                        bytes: 0,
                        recorded_ms: 0,
                    },
                )
            } else {
                first
            }
        },
    }
}

/// The states after some observations.
pub open spec fn observed(
    states: Map<Seq<char>, CkptStateView>,
    obs: Seq<(Seq<char>, CkptStateView)>,
) -> Map<Seq<char>, CkptStateView>
    decreases obs.len(),
{
    if obs.len() == 0 {
        states
    } else {
        observed(states, obs.drop_last()).insert(obs.last().0, obs.last().1)
    }
}

/// The state of a workspace, where it is known.
pub open spec fn lookup(states: Map<Seq<char>, CkptStateView>, key: Seq<char>) -> Option<
    CkptStateView,
> {
    if states.dom().contains(key) {
        Some(states[key])
    } else {
        None
    }
}

/// What some observations bring about.
pub open spec fn all_changes(
    states: Map<Seq<char>, CkptStateView>,
    obs: Seq<(Seq<char>, CkptStateView)>,
    day_start: i64,
    count: bool,
) -> Seq<CkptEventView>
    decreases obs.len(),
{
    if obs.len() == 0 {
        Seq::empty()
    } else {
        let before = obs.drop_last();
        all_changes(states, before, day_start, count) + changes(
            lookup(observed(states, before), obs.last().0),
            obs.last().1,
            day_start,
            count,
        )
    }
}

fn same_hash(a: &Option<String>, b: &Option<String>) -> (r: bool)
    ensures
        r == (optional_text(*a) == optional_text(*b)),
{
    match (a, b) {
        (Some(x), Some(y)) => *x == *y,
        (None, None) => true,
        _ => false,
    }
}

fn push_changes(
    events: &mut Vec<CkptEvent>,
    before: &Option<CkptState>,
    s: &CkptState,
    day_start_ms: i64,
    count: bool,
)
    ensures
        event_views(final(events)@) == event_views(old(events)@) + changes(
            (match *before {
                Some(b) => Some(b@),
                None => None,
            }),
            s@,
            day_start_ms,
            count,
        ),
{
    let ghost start = event_views(events@);
    let recorded_ms: i64 = match s.recorded_at {
        Some(t) => t,
        None => 0,
    };
    let today = s.accepted_hash.is_some() && match s.recorded_at {
        Some(t) => t >= day_start_ms,
        None => true,
    };
    let news = match before {
        None => count,
        Some(b) => !same_hash(&b.accepted_hash, &s.accepted_hash),
    };
    if news && today {
        events.push(
            CkptEvent {
                kind: "accepted",
                workspace: s.workspace.clone(),
                bytes: s.artifact_bytes,
                recorded_ms,
            },
        );
        assert(event_views(events@) =~= start.push(acceptance(s@)));
    }
    let ghost mid = event_views(events@);
    assert(mid =~= start + if news && today {
        seq![acceptance(s@)]
    } else {
        Seq::empty()
    });
    if let Some(b) = before {
        if !b.uploading && s.uploading {
            events.push(
                CkptEvent {
                    kind: "upload_start",
                    workspace: s.workspace.clone(),
                    bytes: s.artifact_bytes,
                    recorded_ms: 0,
                },
            );
            assert(event_views(events@) =~= mid.push(event_views(events@).last()));
        } else if b.uploading && !s.uploading {
            events.push(
                CkptEvent {
                    kind: "upload_end",
                    workspace: s.workspace.clone(),
                    bytes: 0,
                    recorded_ms: 0,
                },
            );
            assert(event_views(events@) =~= mid.push(event_views(events@).last()));
        }
    }
    assert(event_views(events@) =~= start + changes(
        (match *before {
            Some(b) => Some(b@),
            None => None,
        }),
        s@,
        day_start_ms,
        count,
    ));
}

/// Takes in what was observed of some workspaces, and returns what changed. An artifact counts as
/// accepted when the hash that the server accepted changes.
pub fn apply_ckpt_obs(
    states: &mut CkptTable,
    obs: Vec<(String, CkptState)>,
    day_start_ms: i64,
    count: bool,
) -> (r: Vec<CkptEvent>)
    requires
        old(states).wf(),
    ensures
        final(states).wf(),
        final(states)@ == observed(old(states)@, obs_views(obs@)),
        event_views(r@) == all_changes(old(states)@, obs_views(obs@), day_start_ms, count),
{
    let ghost start = states@;
    let ghost all = obs_views(obs@);
    let mut events: Vec<CkptEvent> = Vec::new();
    proof {
        assert(all.take(0) =~= Seq::empty());
        assert(event_views(events@) =~= Seq::empty());
    }
    for o in it: obs
        invariant
            it.seq() == obs@,
            all == obs_views(obs@),
            states.wf(),
            states@ == observed(start, all.take(it.index() as int)),
            event_views(events@) == all_changes(
                start,
                all.take(it.index() as int),
                day_start_ms,
                count,
            ),
    {
        proof {
            let n = it.index() as int;
            assert(all.take(n + 1).drop_last() =~= all.take(n));
            assert(all[n] == (o.0@, o.1@));
        }
        let (key, new) = o;
        let kept = new.clone();
        let before = states.insert(key, new);
        push_changes(&mut events, &before, &kept, day_start_ms, count);
    }
    assert(all.take(all.len() as int) =~= all);
    events
}

/// The row of a workspace.
pub open spec fn row_of(key: Seq<char>, s: CkptStateView) -> CkptStatView {
    CkptStatView {
        workspace: if s.workspace.len() == 0 {
            "?"@
        } else {
            s.workspace
        },
        bytes: s.artifact_bytes,
        recorded_ms: or_zero(s.recorded_at),
        accepted: s.accepted_hash is Some,
        uploading: s.uploading,
        hash: Some(key),
    }
}

impl Ordered for CkptStat {
    /// What is being uploaded stands first, then what waits, then what was accepted; of equals the
    /// latest.
    open spec fn le(&self, other: &Self) -> bool {
        if self.uploading != other.uploading {
            self.uploading
        } else if self.accepted != other.accepted {
            other.accepted
        } else {
            self.recorded_ms >= other.recorded_ms
        }
    }

    proof fn lemma_total(a: &Self, b: &Self) {
    }

    proof fn lemma_transitive(a: &Self, b: &Self, c: &Self) {
    }

    fn precedes(&self, other: &Self) -> (r: bool) {
        if self.uploading != other.uploading {
            self.uploading
        } else if self.accepted != other.accepted {
            other.accepted
        } else {
            self.recorded_ms >= other.recorded_ms
        }
    }
}

/// `rows` are the rows of all workspaces, one for each, in order.
pub open spec fn are_rows(rows: Seq<CkptStat>, states: Map<Seq<char>, CkptStateView>) -> bool {
    &&& rows.len() == states.dom().len()
    &&& sorted(rows)
    &&& forall|i: int|
        0 <= i < rows.len() ==> is_row(#[trigger] rows[i], states)
    &&& forall|k: Seq<char>| #[trigger]
        states.dom().contains(k) ==> exists|i: int|
            0 <= i < rows.len() && (#[trigger] rows[i])@.hash == Some(k)
    &&& forall|i: int, j: int|
        #![trigger rows[i], rows[j]]
        0 <= i < rows.len() && 0 <= j < rows.len() && i != j ==> rows[i]@.hash != rows[j]@.hash
}

/// The row is that of a workspace.
pub open spec fn is_row(row: CkptStat, states: Map<Seq<char>, CkptStateView>) -> bool {
    row@.hash matches Some(k) && states.dom().contains(k) && row@ == row_of(k, states[k])
}

fn row(key: &String, s: &CkptState) -> (r: CkptStat)
    ensures
        r@ == row_of(key@, s@),
{
    CkptStat {
        workspace: if s.workspace.as_str().is_empty() {
            "?".to_owned()
        } else {
            s.workspace.clone()
        },
        bytes: s.artifact_bytes,
        recorded_ms: match s.recorded_at {
            Some(t) => t,
            None => 0,
        },
        accepted: s.accepted_hash.is_some(),
        uploading: s.uploading,
        hash: Some(key.clone()),
    }
}

/// Lists all workspaces, whatever their number.
pub fn ckpt_rows(states: &CkptTable) -> (r: Vec<CkptStat>)
    requires
        states.wf(),
    ensures
        are_rows(r@, states@),
{
    let ghost entries = states.entries@;
    let mut rows: Vec<CkptStat> = Vec::new();
    let mut i: usize = 0;
    while i < states.entries.len()
        invariant
            i <= states.entries.len(),
            entries == states.entries@,
            rows@.len() == i,
            forall|j: int|
                0 <= j < i ==> (#[trigger] rows@[j])@ == row_of(entries[j].0@, entries[j].1@),
        decreases states.entries.len() - i,
    {
        let e = &states.entries[i];
        rows.push(row(&e.0, &e.1));
        i += 1;
    }
    let ghost mid = rows@;
    let r = sort(rows);
    proof {
        lemma_table(entries);
        assert forall|a: int, b: int|
            #![trigger mid[a], mid[b]]
            0 <= a < mid.len() && 0 <= b < mid.len() && a != b implies mid[a]@.hash
            != mid[b]@.hash by {
            assert(entries[a].0@ != entries[b].0@);
        }
        lemma_permuted(mid, r@, |x: CkptStat, y: CkptStat| x@.hash != y@.hash);
        assert forall|k: int| 0 <= k < r@.len() implies is_row(#[trigger] r@[k], states@) by {
            assert(r@.contains(r@[k]));
            assert(mid.contains(r@[k]));
            let j = choose|j: int| 0 <= j < mid.len() && mid[j] == r@[k];
            assert(mid[j]@ == row_of(entries[j].0@, entries[j].1@));
            assert(table_of(entries).dom().contains(entries[j].0@));
        }
        assert forall|k: Seq<char>| #[trigger] states@.dom().contains(k) implies exists|i: int|
            0 <= i < r@.len() && (#[trigger] r@[i])@.hash == Some(k) by {
            let j = choose|j: int| 0 <= j < entries.len() && (#[trigger] entries[j]).0@ == k;
            assert(mid[j]@.hash == Some(k));
            assert(mid.contains(mid[j]));
            assert(r@.contains(mid[j]));
            let i = choose|i: int| 0 <= i < r@.len() && r@[i] == mid[j];
            assert(r@[i]@.hash == Some(k));
        }
    }
    r
}

/// Tests whether a checkpoint of any workspace is being uploaded.
pub fn any_uploading(states: &CkptTable) -> (r: bool)
    requires
        states.wf(),
    ensures
        r == exists|k: Seq<char>| #[trigger] states@.dom().contains(k) && states@[k].uploading,
{
    proof {
        lemma_table(states.entries@);
    }
    let mut i: usize = 0;
    while i < states.entries.len()
        invariant
            i <= states.entries.len(),
            states.wf(),
            forall|j: int| 0 <= j < i ==> !(#[trigger] states.entries@[j]).1.uploading,
        decreases states.entries.len() - i,
    {
        if states.entries[i].1.uploading {
            proof {
                lemma_table(states.entries@);
                assert(states@.dom().contains(states.entries@[i as int].0@));
            }
            return true;
        }
        i += 1;
    }
    assert forall|k: Seq<char>| #[trigger] states@.dom().contains(k) implies !states@[k].uploading by {
        lemma_table(states.entries@);
        let j = choose|j: int|
            0 <= j < states.entries@.len() && (#[trigger] states.entries@[j]).0@ == k;
    }
    false
}

/// What a look into the directory of all checkpoints gave.
#[derive(Debug, PartialEq)]
pub enum CkptListing {
    /// There is no such directory.
    Missing,
    /// It cannot be read.
    Blocked,
    /// The names in it, each with the text of its state file where that could be read.
    Entries(Vec<(String, Option<String>)>),
}

impl CkptListing {
    /// How the look went.
    pub open spec fn status(self) -> Seq<char> {
        match self {
            CkptListing::Missing => "missing"@,
            CkptListing::Blocked => "blocked"@,
            CkptListing::Entries(_) => "ok"@,
        }
    }

    /// What was observed.
    pub open spec fn obs(self) -> Seq<(Seq<char>, CkptStateView)> {
        match self {
            CkptListing::Entries(v) => obs_in(v@),
            _ => Seq::empty(),
        }
    }
}

/// What a text says, where it is a state file.
pub open spec fn state_in_text(text: Option<String>) -> Option<CkptStateView> {
    match text {
        Some(t) => match json_of(t@) {
            Some(v) => state_in(v),
            None => None,
        },
        None => None,
    }
}

/// What the entries of a directory say.
pub open spec fn obs_in(entries: Seq<(String, Option<String>)>) -> Seq<(Seq<char>, CkptStateView)>
    decreases entries.len(),
{
    if entries.len() == 0 {
        Seq::empty()
    } else {
        let before = obs_in(entries.drop_last());
        let e = entries.last();
        match state_in_text(e.1) {
            Some(s) => before.push((e.0@, s)),
            None => before,
        }
    }
}

/// Makes observations of what a look into the directory gave.
pub fn scan_ckpt_states(listing: &CkptListing) -> (r: (String, Vec<(String, CkptState)>))
    ensures
        r.0@ == listing.status(),
        obs_views(r.1@) == listing.obs(),
{
    let mut obs: Vec<(String, CkptState)> = Vec::new();
    assert(obs_views(obs@) =~= Seq::empty());
    match listing {
        CkptListing::Missing => ("missing".to_owned(), obs),
        CkptListing::Blocked => ("blocked".to_owned(), obs),
        CkptListing::Entries(entries) => {
            let mut i: usize = 0;
            while i < entries.len()
                invariant
                    i <= entries.len(),
                    obs_views(obs@) == obs_in(entries@.take(i as int)),
                decreases entries.len() - i,
            {
                let ghost before = obs@;
                assert(entries@.take(i + 1).drop_last() =~= entries@.take(i as int));
                let e = &entries[i];
                let state = match &e.1 {
                    Some(t) => parse_ckpt_state(t.as_str()),
                    None => None,
                };
                if let Some(s) = state {
                    let ghost shown = (e.0@, s@);
                    obs.push((e.0.clone(), s));
                    assert(obs_views(obs@) =~= obs_views(before).push(shown));
                }
                i += 1;
            }
            assert(entries@.take(i as int) =~= entries@);
            ("ok".to_owned(), obs)
        },
    }
}

/// No workspace is observed twice.
pub open spec fn each_once(obs: Seq<(Seq<char>, CkptStateView)>) -> bool {
    forall|i: int, j: int|
        #![trigger obs[i], obs[j]]
        0 <= i < obs.len() && 0 <= j < obs.len() && i != j ==> obs[i].0 != obs[j].0
}

proof fn lemma_observed(states: Map<Seq<char>, CkptStateView>, obs: Seq<(Seq<char>, CkptStateView)>)
    requires
        each_once(obs),
    ensures
        forall|i: int|
            0 <= i < obs.len() ==> observed(states, obs).dom().contains((#[trigger] obs[i]).0)
                && observed(states, obs)[obs[i].0] == obs[i].1,
    decreases obs.len(),
{
    if obs.len() > 0 {
        let before = obs.drop_last();
        assert forall|i: int, j: int|
            #![trigger before[i], before[j]]
            0 <= i < before.len() && 0 <= j < before.len() && i != j implies before[i].0
            != before[j].0 by {
            assert(before[i] == obs[i] && before[j] == obs[j]);
        }
        lemma_observed(states, before);
        assert forall|i: int| 0 <= i < obs.len() implies observed(states, obs).dom().contains(
            (#[trigger] obs[i]).0,
        ) && observed(states, obs)[obs[i].0] == obs[i].1 by {
            if i < before.len() {
                assert(before[i] == obs[i]);
                assert(obs[i].0 != obs[obs.len() - 1].0);
            }
        }
    }
}

proof fn lemma_quiet(
    states: Map<Seq<char>, CkptStateView>,
    obs: Seq<(Seq<char>, CkptStateView)>,
    day_start: i64,
    count: bool,
)
    requires
        forall|i: int|
            0 <= i < obs.len() ==> states.dom().contains((#[trigger] obs[i]).0)
                && states[obs[i].0] == obs[i].1,
    ensures
        observed(states, obs) == states,
        all_changes(states, obs, day_start, count).len() == 0,
    decreases obs.len(),
{
    if obs.len() > 0 {
        let before = obs.drop_last();
        assert forall|i: int| 0 <= i < before.len() implies states.dom().contains(
            (#[trigger] before[i]).0,
        ) && states[before[i].0] == before[i].1 by {
            assert(before[i] == obs[i]);
        }
        lemma_quiet(states, before, day_start, count);
        let last = obs[obs.len() - 1];
        assert(states.insert(last.0, last.1) =~= states);
        assert(changes(Some(last.1), last.1, day_start, count) =~= Seq::empty());
    }
}

/// Looking again brings nothing about where nothing changed.
pub proof fn lemma_looking_again_is_quiet(
    states: Map<Seq<char>, CkptStateView>,
    obs: Seq<(Seq<char>, CkptStateView)>,
    day_start: i64,
    count: bool,
)
    requires
        each_once(obs),
    ensures
        observed(observed(states, obs), obs) == observed(states, obs),
        all_changes(observed(states, obs), obs, day_start, count).len() == 0,
{
    lemma_observed(states, obs);
    lemma_quiet(observed(states, obs), obs, day_start, count);
}

/// Nothing counts that was recorded before the day began: every acceptance that is reported is
/// that of an observed artifact of the day.
pub proof fn lemma_only_the_day_counts(
    states: Map<Seq<char>, CkptStateView>,
    obs: Seq<(Seq<char>, CkptStateView)>,
    day_start: i64,
    count: bool,
)
    ensures
        forall|i: int|
            0 <= i < all_changes(states, obs, day_start, count).len() && (
            #[trigger] all_changes(states, obs, day_start, count)[i]).kind == "accepted"@
                ==> counts_for(all_changes(states, obs, day_start, count)[i], obs, day_start),
    decreases obs.len(),
{
    reveal_strlit("accepted");
    reveal_strlit("upload_start");
    reveal_strlit("upload_end");
    if obs.len() > 0 {
        let before = obs.drop_last();
        let last = obs[obs.len() - 1];
        lemma_only_the_day_counts(states, before, day_start, count);
        let old_events = all_changes(states, before, day_start, count);
        let events = all_changes(states, obs, day_start, count);
        assert forall|i: int| 0 <= i < events.len() && (#[trigger] events[i]).kind
            == "accepted"@ implies counts_for(events[i], obs, day_start) by {
            if i < old_events.len() {
                assert(events[i] == old_events[i]);
                let j = choose|j: int|
                    0 <= j < before.len() && accepted_today((#[trigger] before[j]).1, day_start)
                        && old_events[i] == acceptance(before[j].1);
                assert(obs[j] == before[j]);
            } else {
                let prior = lookup(observed(states, before), last.0);
                let c = changes(prior, last.1, day_start, count);
                assert(events[i] == c[i - old_events.len()]);
                assert("accepted"@.len() != "upload_start"@.len());
                assert("accepted"@.len() != "upload_end"@.len());
            }
        }
    }
}

/// The event reports an observed artifact of the day.
pub open spec fn counts_for(
    e: CkptEventView,
    obs: Seq<(Seq<char>, CkptStateView)>,
    day_start: i64,
) -> bool {
    exists|j: int|
        0 <= j < obs.len() && accepted_today((#[trigger] obs[j]).1, day_start) && e == acceptance(
            obs[j].1,
        )
}

proof fn lemma_without_tail(p: Seq<char>, tail: Seq<char>)
    requires
        forall|i: int| 0 <= i < tail.len() ==> #[trigger] tail[i] == '/' || tail[i] == '\\',
        p.len() > 0 ==> p.last() != '/' && p.last() != '\\',
    ensures
        without_tail(p + tail) == p,
    decreases tail.len(),
{
    let s = p + tail;
    if tail.len() > 0 {
        let t = tail.drop_last();
        assert forall|i: int| 0 <= i < t.len() implies #[trigger] t[i] == '/' || t[i] == '\\' by {
            assert(t[i] == tail[i]);
        }
        lemma_without_tail(p, t);
        assert(s.last() == tail[tail.len() - 1]);
        assert(s.drop_last() =~= p + t);
    } else {
        assert(s =~= p);
    }
}

proof fn lemma_last_part(dir: Seq<char>, name: Seq<char>)
    requires
        forall|i: int| 0 <= i < name.len() ==> #[trigger] name[i] != '/' && name[i] != '\\',
        dir.len() > 0 ==> dir.last() == '/' || dir.last() == '\\',
    ensures
        last_part(dir + name) == name,
    decreases name.len(),
{
    let s = dir + name;
    if name.len() > 0 {
        let m = name.drop_last();
        assert forall|i: int| 0 <= i < m.len() implies #[trigger] m[i] != '/' && m[i] != '\\' by {
            assert(m[i] == name[i]);
        }
        lemma_last_part(dir, m);
        assert(s.last() == name[name.len() - 1]);
        assert(s.drop_last() =~= dir + m);
        assert(m.push(name.last()) =~= name);
    } else {
        assert(s =~= dir);
        assert(last_part(dir) =~= name);
    }
}

/// A workspace is named by the last part of its path, whichever way the path is written and however
/// many separators stand at its end.
pub proof fn lemma_workspace_is_named_by_its_last_part(
    dir: Seq<char>,
    name: Seq<char>,
    tail: Seq<char>,
)
    requires
        name.len() > 0,
        forall|i: int| 0 <= i < name.len() ==> #[trigger] name[i] != '/' && name[i] != '\\',
        dir.len() > 0 ==> dir.last() == '/' || dir.last() == '\\',
        forall|i: int| 0 <= i < tail.len() ==> #[trigger] tail[i] == '/' || tail[i] == '\\',
    ensures
        shown_name(dir + name + tail) == name,
        shown_name(tail) == tail,
{
    assert((dir + name).last() == name[name.len() - 1]);
    lemma_without_tail(dir + name, tail);
    lemma_last_part(dir, name);
    lemma_without_tail(Seq::empty(), tail);
    assert(Seq::<char>::empty() + tail =~= tail);
}

/// What a state file says: the name of its workspace, size, hash and time of the latest artifact,
/// the hash that was accepted, and whether something is being uploaded. Without an artifact it says
/// nothing, and an empty hash is none.
pub proof fn lemma_state_file_says(v: JsonView)
    ensures
        member(v, "lastCompressedSize"@) is None ==> state_in(v) is None,
        member(v, "lastCompressedSize"@) matches Some(lc) ==> {
            &&& state_in(v) is Some
            &&& state_in(v)->0.artifact_bytes == match as_natural(
                member(lc, "encryptedSizeBytes"@),
            ) {
                Some(n) => n,
                None => 0,
            }
            &&& state_in(v)->0.artifact_hash == as_text(member(lc, "manifestHash"@))
            &&& state_in(v)->0.recorded_at == as_integer(member(lc, "recordedAt"@))
            &&& state_in(v)->0.accepted_hash is Some == (as_text(
                member(v, "lastAcceptedManifestHash"@),
            ) matches Some(h) && h.len() > 0)
            &&& state_in(v)->0.accepted_hash is Some ==> state_in(v)->0.accepted_hash == as_text(
                member(v, "lastAcceptedManifestHash"@),
            )
            &&& state_in(v)->0.uploading == (member(v, "activeUpload"@) is Some && member(
                v,
                "activeUpload"@,
            ) != Some(JsonView::Null))
            &&& as_text(member(v, "workspacePath"@)) matches Some(p)
                ==> state_in(v)->0.workspace == shown_name(p)
        },
{
}

/// An acceptance is reported where, and only where, the hash that was accepted is another than at
/// the last look, or the workspace is new and the day is made up for, and the artifact was not
/// recorded before the day began. It tells the workspace, the size and the time.
pub proof fn lemma_acceptance_is_reported(
    before: Option<CkptStateView>,
    s: CkptStateView,
    day_start: i64,
    count: bool,
)
    ensures
        ({
            let c = changes(before, s, day_start, count);
            let news = match before {
                Some(b) => b.accepted_hash != s.accepted_hash,
                None => count,
            };
            let of_day = s.recorded_at is None || s.recorded_at->0 >= day_start;
            if s.accepted_hash is Some && news && of_day {
                &&& c.len() > 0
                &&& c[0].kind == "accepted"@
                &&& c[0].workspace == s.workspace
                &&& c[0].bytes == s.artifact_bytes
                &&& s.recorded_at matches Some(t) ==> c[0].recorded_ms == t
                &&& forall|i: int| 0 < i < c.len() ==> (#[trigger] c[i]).kind != "accepted"@
            } else {
                forall|i: int| 0 <= i < c.len() ==> (#[trigger] c[i]).kind != "accepted"@
            }
        }),
{
    reveal_strlit("accepted");
    reveal_strlit("upload_start");
    reveal_strlit("upload_end");
    assert("accepted"@.len() == 8 && "upload_start"@.len() == 12 && "upload_end"@.len() == 10);
}

/// The beginning of an upload is reported where one runs and none did at the last look, and its end
/// the other way round; of a workspace that is new neither is.
pub proof fn lemma_upload_is_reported(
    before: Option<CkptStateView>,
    s: CkptStateView,
    day_start: i64,
    count: bool,
)
    ensures
        ({
            let c = changes(before, s, day_start, count);
            let was = before matches Some(b) && b.uploading;
            let begun = before is Some && !was && s.uploading;
            let ended = before is Some && was && !s.uploading;
            &&& begun ==> c.len() > 0 && c.last().kind == "upload_start"@ && c.last().workspace
                == s.workspace && c.last().bytes == s.artifact_bytes
            &&& ended ==> c.len() > 0 && c.last().kind == "upload_end"@ && c.last().workspace
                == s.workspace
            &&& !begun ==> forall|i: int|
                0 <= i < c.len() ==> (#[trigger] c[i]).kind != "upload_start"@
            &&& !ended ==> forall|i: int|
                0 <= i < c.len() ==> (#[trigger] c[i]).kind != "upload_end"@
        }),
{
    reveal_strlit("accepted");
    reveal_strlit("upload_start");
    reveal_strlit("upload_end");
    assert("accepted"@.len() == 8 && "upload_start"@.len() == 12 && "upload_end"@.len() == 10);
}

/// A look leaves the state that was observed of each workspace, and the old state of all others.
pub proof fn lemma_look_leaves_what_was_observed(
    states: Map<Seq<char>, CkptStateView>,
    obs: Seq<(Seq<char>, CkptStateView)>,
    key: Seq<char>,
)
    requires
        each_once(obs),
    ensures
        forall|i: int|
            0 <= i < obs.len() ==> lookup(observed(states, obs), (#[trigger] obs[i]).0) == Some(
                obs[i].1,
            ),
        (forall|i: int| 0 <= i < obs.len() ==> (#[trigger] obs[i]).0 != key) ==> lookup(
            observed(states, obs),
            key,
        ) == lookup(states, key),
    decreases obs.len(),
{
    lemma_observed(states, obs);
    if obs.len() > 0 {
        let before = obs.drop_last();
        assert forall|i: int, j: int|
            #![trigger before[i], before[j]]
            0 <= i < before.len() && 0 <= j < before.len() && i != j implies before[i].0
            != before[j].0 by {
            assert(before[i] == obs[i] && before[j] == obs[j]);
        }
        lemma_look_leaves_what_was_observed(states, before, key);
        if forall|i: int| 0 <= i < obs.len() ==> (#[trigger] obs[i]).0 != key {
            assert(obs[obs.len() - 1].0 != key);
            assert forall|i: int| 0 <= i < before.len() implies (#[trigger] before[i]).0 != key by {
                assert(before[i] == obs[i]);
            }
        }
    }
}

/// A directory counts where its state file could be read and speaks of an artifact, and is left out
/// where not.
pub proof fn lemma_readable_state_is_observed(
    entries: Seq<(String, Option<String>)>,
    e: (String, Option<String>),
)
    ensures
        e.1 is None ==> obs_in(entries.push(e)) == obs_in(entries),
        e.1 matches Some(t) ==> {
            &&& json_of(t@) is None ==> obs_in(entries.push(e)) == obs_in(entries)
            &&& json_of(t@) matches Some(v) ==> {
                &&& state_in(v) is None ==> obs_in(entries.push(e)) == obs_in(entries)
                &&& state_in(v) matches Some(s) ==> obs_in(entries.push(e)) == obs_in(entries).push(
                    (e.0@, s),
                )
            }
        },
{
    assert(entries.push(e).drop_last() =~= entries);
}

/// The list of workspaces has a row for each of them, with its size, its time, and whether it was
/// accepted or is being uploaded. What is being uploaded stands first, what was accepted last, and
/// of those that are alike the latest first.
pub proof fn lemma_rows_tell_the_states(
    rows: Seq<CkptStat>,
    states: Map<Seq<char>, CkptStateView>,
    key: Seq<char>,
)
    requires
        are_rows(rows, states),
        states.dom().contains(key),
    ensures
        exists|i: int|
            0 <= i < rows.len() && (#[trigger] rows[i])@.hash == Some(key) && rows[i].bytes
                == states[key].artifact_bytes && rows[i].accepted == states[key].accepted_hash is Some
                && rows[i].uploading == states[key].uploading && (
            states[key].recorded_at matches Some(t) ==> rows[i].recorded_ms == t) && (
            states[key].workspace.len() > 0 ==> rows[i].workspace@ == states[key].workspace),
        forall|i: int, j: int|
            #![trigger rows[i], rows[j]]
            0 <= i < j < rows.len() ==> {
                &&& rows[j].uploading ==> rows[i].uploading
                &&& rows[i].uploading == rows[j].uploading && rows[i].accepted ==> rows[j].accepted
                &&& rows[i].uploading == rows[j].uploading && rows[i].accepted == rows[j].accepted
                    ==> rows[i].recorded_ms >= rows[j].recorded_ms
            },
{
    let i = choose|i: int| 0 <= i < rows.len() && (#[trigger] rows[i])@.hash == Some(key);
    assert(is_row(rows[i], states));
    assert forall|i: int, j: int| #![trigger rows[i], rows[j]] 0 <= i < j < rows.len() implies {
        &&& rows[j].uploading ==> rows[i].uploading
        &&& rows[i].uploading == rows[j].uploading && rows[i].accepted ==> rows[j].accepted
        &&& rows[i].uploading == rows[j].uploading && rows[i].accepted == rows[j].accepted
            ==> rows[i].recorded_ms >= rows[j].recorded_ms
    } by {
        assert(rows[i].le(&rows[j]));
    }
}

/// What is not known of a workspace is shown as such: one without a name by a question mark, and one
/// without a time of record as the oldest of all.
pub proof fn lemma_unknown_is_shown_as_such(
    rows: Seq<CkptStat>,
    states: Map<Seq<char>, CkptStateView>,
    i: int,
)
    requires
        are_rows(rows, states),
        0 <= i < rows.len(),
    ensures
        rows.len() == states.dom().len(),
        rows[i]@.hash is Some,
        states.dom().contains(rows[i]@.hash->0),
        states[rows[i]@.hash->0].workspace.len() == 0 ==> rows[i].workspace@ == "?"@,
        states[rows[i]@.hash->0].recorded_at is None ==> rows[i].recorded_ms == 0,
{
    assert(is_row(rows[i], states));
}

/// A state file without a path names no workspace; and what was accepted without a time of record
/// counts for the day, with none.
pub proof fn lemma_unknown_is_reported_as_such(v: JsonView, s: CkptStateView, day_start: i64)
    ensures
        member(v, "lastCompressedSize"@) is Some && as_text(member(v, "workspacePath"@)) is None
            ==> state_in(v)->0.workspace.len() == 0,
        s.accepted_hash is Some && s.recorded_at is None ==> changes(None, s, day_start, true).len()
            == 1 && changes(None, s, day_start, true)[0].recorded_ms == 0,
        s.uploading ==> changes(None, s, day_start, false).len() == 0,
        CkptListing::Missing.status() == "missing"@,
        CkptListing::Blocked.status() == "blocked"@,
        CkptListing::Missing.obs().len() == 0,
        CkptListing::Blocked.obs().len() == 0,
{
}

/// No workspace has two rows.
pub proof fn lemma_each_workspace_has_one_row(
    rows: Seq<CkptStat>,
    states: Map<Seq<char>, CkptStateView>,
    i: int,
    j: int,
)
    requires
        are_rows(rows, states),
        0 <= i < j < rows.len(),
    ensures
        rows[i]@.hash != rows[j]@.hash,
{
}

} // verus!
