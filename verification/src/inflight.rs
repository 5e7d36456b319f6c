//! Which sessions have a call running, by the newest answer of each.

use vstd::prelude::*;
use crate::order::{lemma_permuted, sort, sorted, Ordered};
use crate::text::{contains, contains_text};

verus! {

/// An answer that was begun longer ago than this and never finished was left behind by a crash.
pub const ZOMBIE_MS: i64 = 600_000;

/// The newest messages of a session, newest first: when each was created, and how it begins.
#[derive(Debug, PartialEq)]
pub struct SessionRows {
    pub session: String,
    pub rows: Vec<(i64, String)>,
}

/// The message is an answer.
pub open spec fn is_answer(prefix: Seq<char>) -> bool {
    contains_text(prefix, "\"assistant\""@)
}

/// The message is complete.
pub open spec fn is_done(prefix: Seq<char>) -> bool {
    contains_text(prefix, "\"completed\""@)
}

/// The position of the first answer from `from` on.
pub open spec fn first_answer(rows: Seq<(i64, String)>, from: int) -> Option<int>
    decreases rows.len() - from,
{
    if from < 0 || from >= rows.len() {
        None
    } else if is_answer(rows[from].1@) {
        Some(from)
    } else {
        first_answer(rows, from + 1)
    }
}

/// A candidate: a session, when its newest answer was begun, and whether that is complete.
pub type Candidate = (String, i64, bool);

/// The candidate of a session, where it has an answer.
pub open spec fn candidate_of(s: SessionRows) -> Option<(Seq<char>, i64, bool)> {
    match first_answer(s.rows@, 0) {
        Some(i) => Some((s.session@, s.rows@[i].0, is_done(s.rows@[i].1@))),
        None => None,
    }
}

/// The candidates of some sessions, in their order.
pub open spec fn candidates_of(sessions: Seq<SessionRows>) -> Seq<(Seq<char>, i64, bool)>
    decreases sessions.len(),
{
    if sessions.len() == 0 {
        Seq::empty()
    } else {
        let before = candidates_of(sessions.drop_last());
        match candidate_of(sessions.last()) {
            Some(c) => before.push(c),
            None => before,
        }
    }
}

/// What a list of candidates holds.
pub open spec fn candidate_views(cands: Seq<Candidate>) -> Seq<(Seq<char>, i64, bool)> {
    cands.map_values(|c: Candidate| (c.0@, c.1, c.2))
}

fn candidate(s: &SessionRows) -> (r: Option<Candidate>)
    ensures
        r matches Some(c) ==> candidate_of(*s) == Some((c.0@, c.1, c.2)),
        r is None ==> candidate_of(*s) is None,
{
    let mut i: usize = 0;
    while i < s.rows.len()
        invariant
            i <= s.rows.len(),
            first_answer(s.rows@, 0) == first_answer(s.rows@, i as int),
        decreases s.rows.len() - i,
    {
        let row = &s.rows[i];
        if contains(row.1.as_str(), "\"assistant\"") {
            let done = contains(row.1.as_str(), "\"completed\"");
            return Some((s.session.clone(), row.0, done));
        }
        i += 1;
    }
    None
}

/// Finds the newest answer of each session.
pub fn candidates(sessions: &Vec<SessionRows>) -> (r: Vec<Candidate>)
    ensures
        candidate_views(r@) == candidates_of(sessions@),
{
    let mut r: Vec<Candidate> = Vec::new();
    let mut i: usize = 0;
    assert(candidate_views(r@) =~= candidates_of(sessions@.take(0)));
    while i < sessions.len()
        invariant
            i <= sessions.len(),
            candidate_views(r@) == candidates_of(sessions@.take(i as int)),
        decreases sessions.len() - i,
    {
        let ghost before = r@;
        assert(sessions@.take(i + 1).drop_last() =~= sessions@.take(i as int));
        match candidate(&sessions[i]) {
            Some(c) => {
                r.push(c);
                assert(candidate_views(r@) =~= candidate_views(before).push((c.0@, c.1, c.2)));
            },
            None => {},
        }
        i += 1;
    }
    assert(sessions@.take(i as int) =~= sessions@);
    r
}

/// Of the candidates of one session, the one at `i` is the newest, and the first of the newest.
pub open spec fn leads(cands: Seq<(Seq<char>, i64, bool)>, i: int) -> bool {
    forall|j: int|
        0 <= j < cands.len() && (#[trigger] cands[j]).0 == cands[i].0 ==> cands[j].1 < cands[i].1
            || cands[j].1 == cands[i].1 && i <= j
}

/// The candidate at `i` stands for a call that is running.
pub open spec fn running(cands: Seq<(Seq<char>, i64, bool)>, now: i64, i: int) -> bool {
    &&& 0 <= i < cands.len()
    &&& leads(cands, i)
    &&& !cands[i].2
    &&& now - cands[i].1 <= ZOMBIE_MS
}

/// A running call is that of the given session, and was begun at the given moment.
pub open spec fn runs(entry: (String, i64), cands: Seq<(Seq<char>, i64, bool)>, now: i64) -> bool {
    exists|i: int|
        #[trigger] running(cands, now, i) && entry.0@ == cands[i].0 && entry.1 == cands[i].1
}

/// `out` holds the candidates that stand for running calls, one for each session, the call that
/// was begun last in front.
pub open spec fn in_flight(
    out: Seq<(String, i64)>,
    cands: Seq<(Seq<char>, i64, bool)>,
    now: i64,
) -> bool {
    &&& forall|i: int|
        #[trigger] running(cands, now, i) ==> exists|k: int|
            0 <= k < out.len() && (#[trigger] out[k]).0@ == cands[i].0 && out[k].1 == cands[i].1
    &&& forall|k: int|
        0 <= k < out.len() ==> runs(#[trigger] out[k], cands, now)
    &&& forall|k: int, l: int|
        #![trigger out[k], out[l]]
        0 <= k < l < out.len() ==> out[k].0@ != out[l].0@ && out[k].1 >= out[l].1
}

impl Ordered for (String, i64) {
    /// What was begun later stands first.
    open spec fn le(&self, other: &Self) -> bool {
        self.1 >= other.1
    }

    proof fn lemma_total(a: &Self, b: &Self) {
    }

    proof fn lemma_transitive(a: &Self, b: &Self, c: &Self) {
    }

    fn precedes(&self, other: &Self) -> (r: bool) {
        self.1 >= other.1
    }
}

fn is_running(cands: &[Candidate], now: i64, i: usize) -> (r: bool)
    requires
        i < cands@.len(),
    ensures
        r == running(candidate_views(cands@), now, i as int),
{
    let ghost v = candidate_views(cands@);
    let c = &cands[i];
    if c.2 || now as i128 - c.1 as i128 > ZOMBIE_MS as i128 {
        return false;
    }
    let mut j: usize = 0;
    while j < cands.len()
        invariant
            j <= cands.len(),
            i < cands.len(),
            v == candidate_views(cands@),
            *c == cands@[i as int],
            forall|k: int|
                0 <= k < j && (#[trigger] v[k]).0 == v[i as int].0 ==> v[k].1 < v[i as int].1
                    || v[k].1 == v[i as int].1 && i <= k,
        decreases cands.len() - j,
    {
        let d = &cands[j];
        if d.0 == c.0 && (d.1 > c.1 || d.1 == c.1 && j < i) {
            assert(v[j as int].0 == v[i as int].0);
            return false;
        }
        j += 1;
    }
    true
}

/// Finds the sessions that have a call running: of each session only the newest answer counts,
/// and it must be neither complete nor too old.
pub fn inflight_from_rows(cands: &[Candidate], now_ms: i64) -> (r: Vec<(String, i64)>)
    ensures
        in_flight(r@, candidate_views(cands@), now_ms),
{
    let ghost v = candidate_views(cands@);
    let mut out: Vec<(String, i64)> = Vec::new();
    let ghost mut from: Seq<int> = Seq::empty();
    let mut i: usize = 0;
    while i < cands.len()
        invariant
            i <= cands.len(),
            v == candidate_views(cands@),
            from.len() == out.len(),
            forall|k: int|
                #![trigger from[k]]
                0 <= k < from.len() ==> from[k] < i && running(v, now_ms, from[k])
                    && out@[k].0@ == v[from[k]].0 && out@[k].1 == v[from[k]].1,
            forall|k: int, l: int|
                #![trigger from[k], from[l]]
                0 <= k < l < from.len() ==> from[k] < from[l],
            forall|n: int|
                0 <= n < i && #[trigger] running(v, now_ms, n) ==> exists|k: int|
                    0 <= k < from.len() && #[trigger] from[k] == n,
        decreases cands.len() - i,
    {
        let ghost before = from;
        if is_running(cands, now_ms, i) {
            out.push((cands[i].0.clone(), cands[i].1));
            proof {
                from = from.push(i as int);
                assert forall|n: int| 0 <= n < i + 1 && #[trigger] running(v, now_ms, n) implies exists|
                    k: int,
                |
                    0 <= k < from.len() && #[trigger] from[k] == n by {
                    if n < i {
                        let k = choose|k: int| 0 <= k < before.len() && #[trigger] before[k] == n;
                        assert(from[k] == n);
                    } else {
                        assert(from[from.len() - 1] == n);
                    }
                }
            }
        }
        i += 1;
    }
    let ghost mid = out@;
    proof {
        assert forall|k: int, l: int|
            #![trigger mid[k], mid[l]]
            0 <= k < mid.len() && 0 <= l < mid.len() && k != l implies mid[k].0@ != mid[l].0@ by {
            assert(from[k] != from[l]) by {
                if k < l {
                    assert(from[k] < from[l]);
                } else {
                    assert(from[l] < from[k]);
                }
            }
            let (a, b) = (from[k], from[l]);
            assert(leads(v, a) && leads(v, b));
            if v[a].0 == v[b].0 {
                assert(v[a].1 == v[b].1);
            }
        }
    }
    let r = sort(out);
    proof {
        lemma_sorted_in_flight(r@, mid, from, v, now_ms);
    }
    r
}

proof fn lemma_sorted_in_flight(
    r: Seq<(String, i64)>,
    mid: Seq<(String, i64)>,
    from: Seq<int>,
    v: Seq<(Seq<char>, i64, bool)>,
    now: i64,
)
    requires
        sorted(r),
        r.to_multiset() == mid.to_multiset(),
        from.len() == mid.len(),
        forall|k: int|
            #![trigger from[k]]
            0 <= k < from.len() ==> running(v, now, from[k]) && mid[k].0@ == v[from[k]].0
                && mid[k].1 == v[from[k]].1,
        forall|n: int|
            #[trigger] running(v, now, n) ==> exists|k: int|
                0 <= k < from.len() && #[trigger] from[k] == n,
        forall|k: int, l: int|
            #![trigger mid[k], mid[l]]
            0 <= k < mid.len() && 0 <= l < mid.len() && k != l ==> mid[k].0@ != mid[l].0@,
    ensures
        in_flight(r, v, now),
{
    lemma_permuted(mid, r, |x: (String, i64), y: (String, i64)| x.0@ != y.0@);
    assert forall|i: int| #[trigger] running(v, now, i) implies exists|k: int|
        0 <= k < r.len() && (#[trigger] r[k]).0@ == v[i].0 && r[k].1 == v[i].1 by {
        let k = choose|k: int| 0 <= k < from.len() && #[trigger] from[k] == i;
        assert(mid.contains(mid[k]));
        let l = choose|l: int| 0 <= l < r.len() && r[l] == mid[k];
        assert(r[l].0@ == v[i].0);
    }
    assert forall|k: int| 0 <= k < r.len() implies runs(#[trigger] r[k], v, now) by {
        assert(r.contains(r[k]));
        assert(mid.contains(r[k]));
        let l = choose|l: int| 0 <= l < mid.len() && mid[l] == r[k];
        assert(running(v, now, from[l]));
    }
    assert forall|k: int, l: int| #![trigger r[k], r[l]] 0 <= k < l < r.len() implies r[k].0@
        != r[l].0@ && r[k].1 >= r[l].1 by {
        assert(Ordered::le(&r[k], &r[l]));
    }
}

/// A session whose newest answer is complete has no call running, whatever older answers a crash
/// may have left behind.
pub proof fn lemma_finished_session_is_not_running(
    out: Seq<(String, i64)>,
    cands: Seq<(Seq<char>, i64, bool)>,
    now: i64,
    i: int,
)
    requires
        in_flight(out, cands, now),
        0 <= i < cands.len(),
        leads(cands, i),
        cands[i].2,
    ensures
        forall|k: int| 0 <= k < out.len() ==> (#[trigger] out[k]).0@ != cands[i].0,
{
    assert forall|k: int| 0 <= k < out.len() implies (#[trigger] out[k]).0@ != cands[i].0 by {
        assert(runs(out[k], cands, now));
        let j = choose|j: int|
            #[trigger] running(cands, now, j) && out[k].0@ == cands[j].0 && out[k].1 == cands[j].1;
        if cands[j].0 == cands[i].0 {
            assert(leads(cands, j));
        }
    }
}

/// The newest answer of a session decides whether a call of it is running: one that is not
/// complete and was begun within the last ten minutes is listed, with the moment at which it was
/// begun; one that is complete, or was begun longer ago, is not.
pub proof fn lemma_newest_answer_decides(
    out: Seq<(String, i64)>,
    cands: Seq<(Seq<char>, i64, bool)>,
    now: i64,
    i: int,
)
    requires
        in_flight(out, cands, now),
        0 <= i < cands.len(),
        forall|j: int|
            0 <= j < cands.len() && (#[trigger] cands[j]).0 == cands[i].0 && j != i ==> cands[i].1
                > cands[j].1 || cands[i].1 == cands[j].1 && i < j,
    ensures
        !cands[i].2 && now - cands[i].1 <= 600_000 ==> exists|k: int|
            0 <= k < out.len() && (#[trigger] out[k]).0@ == cands[i].0 && out[k].1 == cands[i].1,
        cands[i].2 || now - cands[i].1 > 600_000 ==> forall|k: int|
            0 <= k < out.len() ==> (#[trigger] out[k]).0@ != cands[i].0,
{
    assert(leads(cands, i));
    if !cands[i].2 && now - cands[i].1 <= 600_000 {
        assert(running(cands, now, i));
    } else {
        assert forall|k: int| 0 <= k < out.len() implies (#[trigger] out[k]).0@ != cands[i].0 by {
            assert(runs(out[k], cands, now));
            let j = choose|j: int|
                #[trigger] running(cands, now, j) && out[k].0@ == cands[j].0 && out[k].1
                    == cands[j].1;
            if cands[j].0 == cands[i].0 {
                assert(leads(cands, j));
                assert(cands[i].0 == cands[j].0);
                assert(j == i);
            }
        }
    }
}

/// Only sessions that have an answer are listed, each once, and the one whose call was begun last
/// comes first.
pub proof fn lemma_listed_sessions_have_answers(
    out: Seq<(String, i64)>,
    cands: Seq<(Seq<char>, i64, bool)>,
    now: i64,
)
    requires
        in_flight(out, cands, now),
    ensures
        forall|k: int|
            #![trigger out[k]]
            0 <= k < out.len() ==> cands.contains((out[k].0@, out[k].1, false)),
        forall|k: int, l: int|
            #![trigger out[k], out[l]]
            0 <= k < l < out.len() ==> out[k].0@ != out[l].0@ && out[k].1 >= out[l].1,
{
    assert forall|k: int| #![trigger out[k]] 0 <= k < out.len() implies cands.contains(
        (out[k].0@, out[k].1, false),
    ) by {
        assert(runs(out[k], cands, now));
        let j = choose|j: int|
            #[trigger] running(cands, now, j) && out[k].0@ == cands[j].0 && out[k].1 == cands[j].1;
        assert(cands[j] == (out[k].0@, out[k].1, false));
    }
}

/// The newest message that is an answer is what counts of a session, whatever the user wrote since.
pub proof fn lemma_newest_answer_counts(s: SessionRows, j: int)
    requires
        0 <= j < s.rows@.len(),
        contains_text(s.rows@[j].1@, "\"assistant\""@),
        forall|i: int|
            0 <= i < j ==> !contains_text((#[trigger] s.rows@[i]).1@, "\"assistant\""@),
    ensures
        candidate_of(s) == Some(
            (s.session@, s.rows@[j].0, contains_text(s.rows@[j].1@, "\"completed\""@)),
        ),
{
    lemma_first_answer_is_at(s.rows@, 0, j);
}

proof fn lemma_first_answer_is_at(rows: Seq<(i64, String)>, from: int, j: int)
    requires
        0 <= from <= j < rows.len(),
        contains_text(rows[j].1@, "\"assistant\""@),
        forall|i: int| from <= i < j ==> !contains_text((#[trigger] rows[i]).1@, "\"assistant\""@),
    ensures
        first_answer(rows, from) == Some(j),
    decreases j - from,
{
    if from < j {
        assert(!contains_text(rows[from].1@, "\"assistant\""@));
        lemma_first_answer_is_at(rows, from + 1, j);
    }
}

/// A session without an answer does not count.
pub proof fn lemma_session_without_answer(s: SessionRows)
    requires
        forall|i: int|
            0 <= i < s.rows@.len() ==> !contains_text((#[trigger] s.rows@[i]).1@, "\"assistant\""@),
    ensures
        candidate_of(s) is None,
{
    lemma_no_answer_from(s.rows@, 0);
}

proof fn lemma_no_answer_from(rows: Seq<(i64, String)>, from: int)
    requires
        0 <= from <= rows.len(),
        forall|i: int|
            0 <= i < rows.len() ==> !contains_text((#[trigger] rows[i]).1@, "\"assistant\""@),
    ensures
        first_answer(rows, from) is None,
    decreases rows.len() - from,
{
    if from < rows.len() {
        assert(!contains_text(rows[from].1@, "\"assistant\""@));
        lemma_no_answer_from(rows, from + 1);
    }
}

/// No two sessions have the same name.
pub open spec fn each_session_once(sessions: Seq<SessionRows>) -> bool {
    forall|i: int, j: int|
        #![trigger sessions[i], sessions[j]]
        0 <= i < j < sessions.len() ==> sessions[i].session@ != sessions[j].session@
}

proof fn lemma_candidates_are_of_sessions(sessions: Seq<SessionRows>)
    ensures
        forall|k: int|
            #![trigger candidates_of(sessions)[k]]
            0 <= k < candidates_of(sessions).len() ==> exists|i: int|
                0 <= i < sessions.len() && candidate_of(#[trigger] sessions[i]) == Some(
                    candidates_of(sessions)[k],
                ),
        forall|i: int|
            0 <= i < sessions.len() && candidate_of(#[trigger] sessions[i]) is Some ==> exists|k: int|
                0 <= k < candidates_of(sessions).len() && Some(
                    #[trigger] candidates_of(sessions)[k],
                ) == candidate_of(sessions[i]),
        each_session_once(sessions) ==> forall|k: int, l: int|
            #![trigger candidates_of(sessions)[k], candidates_of(sessions)[l]]
            0 <= k < l < candidates_of(sessions).len() ==> candidates_of(sessions)[k].0
                != candidates_of(sessions)[l].0,
    decreases sessions.len(),
{
    if sessions.len() > 0 {
        let before = sessions.drop_last();
        let last = sessions[sessions.len() - 1];
        lemma_candidates_are_of_sessions(before);
        let (p, c) = (candidates_of(before), candidates_of(sessions));
        assert forall|k: int| #![trigger c[k]] 0 <= k < c.len() implies exists|i: int|
            0 <= i < sessions.len() && candidate_of(#[trigger] sessions[i]) == Some(c[k]) by {
            if k < p.len() {
                assert(c[k] == p[k]);
                let i = choose|i: int|
                    0 <= i < before.len() && candidate_of(#[trigger] before[i]) == Some(p[k]);
                assert(sessions[i] == before[i]);
            } else {
                assert(candidate_of(last) == Some(c[k]));
            }
        }
        assert forall|i: int|
            0 <= i < sessions.len() && candidate_of(
                #[trigger] sessions[i],
            ) is Some implies exists|k: int|
            0 <= k < c.len() && Some(#[trigger] c[k]) == candidate_of(sessions[i]) by {
            if i < before.len() {
                assert(before[i] == sessions[i]);
                let k = choose|k: int|
                    0 <= k < p.len() && Some(#[trigger] p[k]) == candidate_of(before[i]);
                assert(c[k] == p[k]);
            } else {
                assert(c[p.len() as int] == candidate_of(last)->0);
            }
        }
        if each_session_once(sessions) {
            assert forall|i: int, j: int|
                #![trigger before[i], before[j]]
                0 <= i < j < before.len() implies before[i].session@ != before[j].session@ by {
                assert(before[i] == sessions[i] && before[j] == sessions[j]);
            }
            assert forall|k: int, l: int| #![trigger c[k], c[l]] 0 <= k < l < c.len() implies c[k].0
                != c[l].0 by {
                assert(c[k] == p[k]);
                if l < p.len() {
                    assert(c[l] == p[l]);
                } else {
                    let i = choose|i: int|
                        0 <= i < before.len() && candidate_of(#[trigger] before[i]) == Some(p[k]);
                    assert(sessions[i] == before[i]);
                    assert(sessions[i].session@ != sessions[sessions.len() - 1].session@);
                }
            }
        }
    }
}

/// What the messages of a session tell is what is listed of it: where its newest answer is not
/// complete and was begun within the last ten minutes, a call is running since then; where it is
/// complete, or older, none is.
pub proof fn lemma_messages_decide(
    out: Seq<(String, i64)>,
    sessions: Seq<SessionRows>,
    now: i64,
    n: int,
    j: int,
)
    requires
        in_flight(out, candidates_of(sessions), now),
        each_session_once(sessions),
        0 <= n < sessions.len(),
        0 <= j < sessions[n].rows@.len(),
        contains_text(sessions[n].rows@[j].1@, "\"assistant\""@),
        forall|i: int|
            0 <= i < j ==> !contains_text((#[trigger] sessions[n].rows@[i]).1@, "\"assistant\""@),
    ensures
        ({
            let (begun, text) = sessions[n].rows@[j];
            if !contains_text(text@, "\"completed\""@) && now - begun <= 600_000 {
                exists|k: int|
                    0 <= k < out.len() && (#[trigger] out[k]).0@ == sessions[n].session@ && out[k].1
                        == begun
            } else {
                forall|k: int|
                    0 <= k < out.len() ==> (#[trigger] out[k]).0@ != sessions[n].session@
            }
        }),
{
    lemma_newest_answer_counts(sessions[n], j);
    lemma_candidates_are_of_sessions(sessions);
    let c = candidates_of(sessions);
    let i = choose|i: int| 0 <= i < c.len() && Some(#[trigger] c[i]) == candidate_of(sessions[n]);
    assert forall|l: int|
        0 <= l < c.len() && (#[trigger] c[l]).0 == c[i].0 && l != i implies c[i].1 > c[l].1
        || c[i].1 == c[l].1 && i < l by {
        if l < i {
            assert(c[l].0 != c[i].0);
        } else {
            assert(c[i].0 != c[l].0);
        }
    }
    lemma_newest_answer_decides(out, c, now, i);
}

} // verus!
