//! How a directory is locked against writing, system by system.

use vstd::prelude::*;
use crate::text::{
    begins_with, chars_of, contains_text, decimal, decimal_text, finishes_with, is_white,
    lemma_text_is_found_where_it_stands, starts_with, text_of, trim, trimmed,
};

verus! {

/// What the system locks directories with.
#[derive(Clone, Copy, Debug, PartialEq, Eq, Structural)]
pub enum LockSystem {
    /// A flag on a directory and, where it is to hold for all that is in it, on all of that too.
    Chflags,
    /// An entry in the list of rights of a directory, which denies to create and to write. All that
    /// is in the directory inherits it.
    Icacls,
}

/// An argument of a command.
#[derive(Debug, PartialEq)]
pub enum LockArg {
    /// The directory.
    Dir,
    Text(String),
}

/// What a [`LockArg`] stands for.
pub ghost enum ArgView {
    Dir,
    Text(Seq<char>),
}

impl View for LockArg {
    type V = ArgView;

    open spec fn view(&self) -> ArgView {
        match self {
            LockArg::Dir => ArgView::Dir,
            LockArg::Text(s) => ArgView::Text(s@),
        }
    }
}

/// What some arguments stand for.
pub open spec fn arg_views(v: Seq<LockArg>) -> Seq<ArgView> {
    v.map_values(|a: LockArg| a@)
}

impl LockSystem {
    /// The name of the command.
    pub open spec fn name(self) -> Seq<char> {
        match self {
            LockSystem::Chflags => "chflags"@,
            LockSystem::Icacls => "icacls"@,
        }
    }

    /// Names the command.
    pub fn program(self) -> (r: &'static str)
        ensures
            r@ == self.name(),
    {
        match self {
            LockSystem::Chflags => "chflags",
            LockSystem::Icacls => "icacls",
        }
    }
}

/// What the command is told to do.
pub open spec fn action_of(system: LockSystem, locking: bool) -> Seq<char> {
    match (system, locking) {
        (LockSystem::Chflags, true) => "uchg"@,
        (LockSystem::Chflags, false) => "nouchg"@,
        (LockSystem::Icacls, true) => "/deny"@,
        (LockSystem::Icacls, false) => "/remove:d"@,
    }
}

fn action(system: LockSystem, locking: bool) -> (r: &'static str)
    ensures
        r@ == action_of(system, locking),
{
    match system {
        LockSystem::Chflags => if locking {
            "uchg"
        } else {
            "nouchg"
        },
        LockSystem::Icacls => if locking {
            "/deny"
        } else {
            "/remove:d"
        },
    }
}

/// The arguments that lock or unlock a directory. Rights are denied to the user, who is told by the
/// number `sid`: to create and to write, but not to remove.
pub open spec fn args_of(system: LockSystem, locking: bool, recursive: bool, sid: Seq<char>) -> Seq<
    ArgView,
> {
    match system {
        LockSystem::Chflags => if recursive {
            seq![ArgView::Text("-R"@), ArgView::Text(action_of(system, locking)), ArgView::Dir]
        } else {
            seq![ArgView::Text(action_of(system, locking)), ArgView::Dir]
        },
        LockSystem::Icacls => seq![
            ArgView::Dir,
            ArgView::Text(action_of(system, locking)),
            ArgView::Text(
                if locking {
                    "*"@ + sid + ":(OI)(CI)(WD,AD)"@
                } else {
                    "*"@ + sid
                },
            ),
        ],
    }
}

/// Puts together the arguments that lock or unlock a directory.
pub fn lock_args(system: LockSystem, locking: bool, recursive: bool, sid: &str) -> (r: Vec<LockArg>)
    ensures
        arg_views(r@) == args_of(system, locking, recursive, sid@),
{
    let mut v: Vec<LockArg> = Vec::new();
    match system {
        LockSystem::Chflags => {
            if recursive {
                v.push(LockArg::Text("-R".to_owned()));
            }
            v.push(LockArg::Text(action(system, locking).to_owned()));
            v.push(LockArg::Dir);
        },
        LockSystem::Icacls => {
            let mut who = "*".to_owned();
            who.append(sid);
            if locking {
                who.append(":(OI)(CI)(WD,AD)");
            }
            v.push(LockArg::Dir);
            v.push(LockArg::Text(action(system, locking).to_owned()));
            v.push(LockArg::Text(who));
        },
    }
    assert(arg_views(v@) =~= args_of(system, locking, recursive, sid@));
    v
}

/// How the command went.
#[derive(Debug, PartialEq)]
pub enum LockRun {
    /// It could not be started.
    NotStarted(String),
    Succeeded,
    /// It ended with this code, where there is one.
    Ended(Option<i32>),
}

/// A number in decimal, with its sign.
pub open spec fn signed_decimal(n: int) -> Seq<char> {
    if n < 0 {
        "-"@ + decimal((-n) as nat)
    } else {
        decimal(n as nat)
    }
}

/// How the code is written with which a command ended.
pub open spec fn code_text(code: Option<i32>) -> Seq<char> {
    match code {
        Some(n) => "Some("@ + signed_decimal(n as int) + ")"@,
        None => "None"@,
    }
}

fn written_code(code: Option<i32>) -> (r: String)
    ensures
        r@ == code_text(code),
{
    match code {
        Some(n) => {
            let mut s = "Some(".to_owned();
            if n < 0 {
                s.append("-");
                s.append(decimal_text((-(n as i64)) as u64).as_str());
                s.append(")");
                assert(s@ =~= code_text(code));
            } else {
                s.append(decimal_text(n as u64).as_str());
                s.append(")");
            }
            s
        },
        None => "None".to_owned(),
    }
}

/// What is said where a directory could not be locked or unlocked.
pub open spec fn lock_failure(
    system: LockSystem,
    locking: bool,
    recursive: bool,
    run: LockRun,
) -> Option<Seq<char>> {
    match run {
        LockRun::NotStarted(e) => Some("执行 "@ + system.name() + " 失败: "@ + e@),
        LockRun::Succeeded => None,
        LockRun::Ended(code) => Some(
            system.name() + " "@ + if recursive && system is Chflags {
                "-R "@
            } else {
                Seq::empty()
            } + action_of(system, locking) + " 未成功（exit "@ + code_text(code) + "）"@,
        ),
    }
}

/// Tells whether a directory was locked or unlocked.
pub fn set_immutable(system: LockSystem, locking: bool, recursive: bool, run: LockRun) -> (r: Result<
    (),
    String,
>)
    ensures
        match r {
            Ok(_) => lock_failure(system, locking, recursive, run) is None,
            Err(e) => lock_failure(system, locking, recursive, run) == Some(e@),
        },
{
    match run {
        LockRun::NotStarted(e) => {
            let mut s = "执行 ".to_owned();
            s.append(system.program());
            s.append(" 失败: ");
            s.append(e.as_str());
            Err(s)
        },
        LockRun::Succeeded => Ok(()),
        LockRun::Ended(code) => {
            let mut s = system.program().to_owned();
            s.append(" ");
            if recursive && system == LockSystem::Chflags {
                s.append("-R ");
            }
            assert(s@ =~= system.name() + " "@ + if recursive && system is Chflags {
                "-R "@
            } else {
                Seq::empty()
            });
            s.append(action(system, locking));
            s.append(" 未成功（exit ");
            s.append(written_code(code).as_str());
            s.append("）");
            Err(s)
        },
    }
}

/// The fields of a line that are parted by commas.
pub open spec fn fields(s: Seq<char>) -> Seq<Seq<char>>
    decreases s.len(),
{
    if s.len() == 0 {
        seq![Seq::empty()]
    } else {
        let before = fields(s.drop_last());
        if s.last() == ',' {
            before.push(Seq::empty())
        } else {
            before.drop_last().push(before.last().push(s.last()))
        }
    }
}

/// A field without the marks around it.
pub open spec fn bare(field: Seq<char>) -> Seq<char> {
    let t = trimmed(field);
    let t = if t.len() > 0 && t[0] == '"' {
        t.skip(1)
    } else {
        t
    };
    if t.len() > 0 && t.last() == '"' {
        t.drop_last()
    } else {
        t
    }
}

/// The first field, from `at` on, that is the number of a user.
pub open spec fn sid_from(f: Seq<Seq<char>>, at: int) -> Option<Seq<char>>
    decreases f.len() - at,
{
    if at < 0 || at >= f.len() {
        None
    } else if begins_with(bare(f[at]), "S-1-"@) {
        Some(bare(f[at]))
    } else {
        sid_from(f, at + 1)
    }
}

fn bare_text(field: &Vec<char>) -> (r: String)
    ensures
        r@ == bare(field@),
{
    let t = chars_of(trim(text_of(field.as_slice()).as_str()).as_str());
    let mut from: usize = 0;
    let mut to: usize = t.len();
    if t.len() > 0 && t[0] == '"' {
        from = 1;
    }
    if to > from && t[to - 1] == '"' {
        to = to - 1;
    }
    let mut out: Vec<char> = Vec::new();
    let mut i: usize = from;
    while i < to
        invariant
            from <= i <= to <= t.len(),
            out@ == t@.subrange(from as int, i as int),
        decreases to - i,
    {
        out.push(t[i]);
        i += 1;
    }
    assert(out@ =~= bare(field@));
    text_of(out.as_slice())
}

/// Finds the number of the user in the line that tells who the user is.
pub fn parse_whoami_sid(line: &str) -> (r: Option<String>)
    ensures
        match r {
            Some(s) => sid_from(fields(line@), 0) == Some(s@),
            None => sid_from(fields(line@), 0) is None,
        },
{
    let chars = chars_of(line);
    let mut done: Vec<Vec<char>> = Vec::new();
    let mut cur: Vec<char> = Vec::new();
    let mut i: usize = 0;
    assert(fields(chars@.take(0)) =~= seq![Seq::empty()]);
    while i < chars.len()
        invariant
            i <= chars.len(),
            fields(chars@.take(i as int)).len() == done@.len() + 1,
            fields(chars@.take(i as int)).last() == cur@,
            forall|k: int|
                0 <= k < done@.len() ==> fields(chars@.take(i as int))[k] == (#[trigger] done@[k])@,
        decreases chars.len() - i,
    {
        let ghost was = done@;
        let c: char = chars[i];
        proof {
            let now = chars@.take(i + 1);
            assert(now.drop_last() =~= chars@.take(i as int));
            assert(now.last() == c);
        }
        if c == ',' {
            let mut field: Vec<char> = Vec::new();
            std::mem::swap(&mut field, &mut cur);
            done.push(field);
            assert(cur@ =~= Seq::empty());
        } else {
            cur.push(c);
        }
        i += 1;
    }
    done.push(cur);
    assert(chars@.take(i as int) =~= line@);
    let ghost f = fields(line@);
    let mut k: usize = 0;
    while k < done.len()
        invariant
            k <= done.len(),
            f == fields(line@),
            f.len() == done@.len(),
            forall|j: int| 0 <= j < done@.len() ==> f[j] == (#[trigger] done@[j])@,
            sid_from(f, 0) == sid_from(f, k as int),
        decreases done.len() - k,
    {
        let s = bare_text(&done[k]);
        assert(f[k as int] == done@[k as int]@);
        if starts_with(s.as_str(), "S-1-") {
            return Some(s);
        }
        k += 1;
    }
    None
}

/// A directory is unlocked by what undoes its lock: the same flag or the same entry of the same user
/// is taken away, with all that is in the directory where it was set on all of that. What is denied
/// is to create and to write, to the user whose number is given.
pub proof fn lemma_unlocking_undoes_locking(recursive: bool, sid: Seq<char>)
    ensures
        ({
            let (on, off) = (
                args_of(LockSystem::Chflags, true, recursive, sid),
                args_of(LockSystem::Chflags, false, recursive, sid),
            );
            let n = if recursive {
                1int
            } else {
                0
            };
            &&& on.len() == n + 2
            &&& off.len() == n + 2
            &&& recursive ==> on[0] == ArgView::Text("-R"@) && off[0] == on[0]
            &&& on[n] == ArgView::Text("uchg"@)
            &&& off[n] == ArgView::Text("no"@ + "uchg"@)
            &&& on.last() == ArgView::Dir && off.last() == ArgView::Dir
        }),
        ({
            let (on, off) = (
                args_of(LockSystem::Icacls, true, recursive, sid),
                args_of(LockSystem::Icacls, false, recursive, sid),
            );
            &&& on.len() == 3 && off.len() == 3
            &&& on[0] == ArgView::Dir && off[0] == ArgView::Dir
            &&& on[1] == ArgView::Text("/deny"@) && off[1] == ArgView::Text("/remove:d"@)
            &&& off[2] == ArgView::Text(seq!['*'] + sid)
            &&& on[2] == ArgView::Text(seq!['*'] + sid + ":(OI)(CI)(WD,AD)"@)
        }),
        LockSystem::Chflags.name() == "chflags"@,
        LockSystem::Icacls.name() == "icacls"@,
{
    reveal_strlit("uchg");
    reveal_strlit("no");
    reveal_strlit("nouchg");
    reveal_strlit("*");
    assert("nouchg"@ =~= "no"@ + "uchg"@);
    assert("*"@ =~= seq!['*']);
}

/// A command that succeeded is no failure, and every other is one.
pub proof fn lemma_only_success_is_no_failure(
    system: LockSystem,
    locking: bool,
    recursive: bool,
    run: LockRun,
)
    ensures
        lock_failure(system, locking, recursive, run) is None <==> run is Succeeded,
        run matches LockRun::NotStarted(e) ==> finishes_with(
            lock_failure(system, locking, recursive, run)->0,
            e@,
        ),
{
    if let LockRun::NotStarted(e) = run {
        lemma_text_is_found_where_it_stands(
            "执行 "@ + system.name() + " 失败: "@,
            e@,
            Seq::empty(),
        );
    }
}

/// Fields with commas between them.
pub open spec fn joined(f: Seq<Seq<char>>) -> Seq<char>
    decreases f.len(),
{
    if f.len() == 0 {
        Seq::empty()
    } else if f.len() == 1 {
        f[0]
    } else {
        joined(f.drop_last()) + seq![','] + f.last()
    }
}

/// The fields of a line, with commas between them, are the line again, and no field has a comma.
pub proof fn lemma_fields_make_the_line(s: Seq<char>)
    ensures
        fields(s).len() > 0,
        joined(fields(s)) == s,
        forall|i: int| 0 <= i < fields(s).len() ==> !(#[trigger] fields(s)[i]).contains(','),
    decreases s.len(),
{
    if s.len() > 0 {
        let t = s.drop_last();
        lemma_fields_make_the_line(t);
        let (a, b) = (fields(t), fields(s));
        let c = s.last();
        assert(s =~= t.push(c));
        if c == ',' {
            assert(b.drop_last() =~= a);
            assert(joined(b) =~= s);
            assert forall|i: int| 0 <= i < b.len() implies !(#[trigger] b[i]).contains(',') by {
                if i < a.len() {
                    assert(b[i] == a[i]);
                }
            }
        } else {
            let last = a.last().push(c);
            assert(b.drop_last() =~= a.drop_last());
            assert(b.last() == last);
            if a.len() == 1 {
                assert(b[0] == last && a[0] == a.last());
                assert(joined(b) =~= s);
            } else {
                assert(joined(b) =~= s);
            }
            assert forall|i: int| 0 <= i < b.len() implies !(#[trigger] b[i]).contains(',') by {
                if i < a.len() - 1 {
                    assert(b[i] == a[i]);
                } else {
                    assert(!a[a.len() - 1].contains(','));
                    if last.contains(',') {
                        let k = choose|k: int| 0 <= k < last.len() && last[k] == ',';
                        assert(a.last()[k] == ',');
                    }
                }
            }
        }
    } else {
        assert(joined(fields(s)) =~= s);
    }
}

/// The number of the user is the first field that begins as such numbers do, without the marks
/// around it.
pub proof fn lemma_first_number_is_that_of_the_user(f: Seq<Seq<char>>, at: int, k: int)
    requires
        0 <= at <= k < f.len(),
        begins_with(bare(f[k]), "S-1-"@),
        forall|i: int| at <= i < k ==> !begins_with(bare(#[trigger] f[i]), "S-1-"@),
    ensures
        sid_from(f, at) == Some(bare(f[k])),
    decreases k - at,
{
    if at < k {
        assert(!begins_with(bare(f[at]), "S-1-"@));
        lemma_first_number_is_that_of_the_user(f, at + 1, k);
    }
}

/// Without such a field the number of the user is not known.
pub proof fn lemma_no_number_of_the_user(f: Seq<Seq<char>>, at: int)
    requires
        0 <= at <= f.len(),
        forall|i: int| at <= i < f.len() ==> !begins_with(bare(#[trigger] f[i]), "S-1-"@),
    ensures
        sid_from(f, at) is None,
    decreases f.len() - at,
{
    if at < f.len() {
        assert(!begins_with(bare(f[at]), "S-1-"@));
        lemma_no_number_of_the_user(f, at + 1);
    }
}

/// Marks around a field are taken away, one on each side, and nothing else.
pub proof fn lemma_marks_are_taken_away(text: Seq<char>)
    requires
        text.len() > 0,
        text[0] != '"',
        text.last() != '"',
        !is_white(text[0]),
        !is_white(text.last()),
    ensures
        bare(seq!['"'] + text + seq!['"']) == text,
        bare(text) == text,
{
    let quoted = seq!['"'] + text + seq!['"'];
    assert(trimmed(text) == text);
    assert(quoted[0] == '"' && quoted.last() == '"');
    assert(trimmed(quoted) == quoted);
    assert(quoted.skip(1).drop_last() =~= text);
    assert(quoted.skip(1).last() == '"');
}

/// A failure tells the program and the code with which it ended, whatever the code is.
pub proof fn lemma_failure_tells_the_code(
    system: LockSystem,
    locking: bool,
    recursive: bool,
    code: Option<i32>,
)
    ensures
        ({
            let said = lock_failure(system, locking, recursive, LockRun::Ended(code));
            &&& said is Some
            &&& begins_with(said->0, system.name())
            &&& contains_text(said->0, action_of(system, locking))
            &&& code matches Some(n) ==> {
                &&& n >= 0 ==> contains_text(said->0, decimal(n as nat))
                &&& n < 0 ==> contains_text(said->0, seq!['-'] + decimal((-n) as nat))
            }
            &&& code is None ==> contains_text(said->0, "None"@)
        }),
{
    reveal_strlit("-");
    assert("-"@ =~= seq!['-']);
    let flag = if recursive && system is Chflags {
        "-R "@
    } else {
        Seq::empty()
    };
    let said = lock_failure(system, locking, recursive, LockRun::Ended(code))->0;
    let (name, act) = (system.name(), action_of(system, locking));
    let end = " 未成功（exit "@;
    let rest = " "@ + flag + act + end + code_text(code) + "）"@;
    assert(said =~= name + rest);
    lemma_text_is_found_where_it_stands(Seq::empty(), name, rest);
    assert(said =~= (name + " "@ + flag) + act + (end + code_text(code) + "）"@));
    lemma_text_is_found_where_it_stands(name + " "@ + flag, act, end + code_text(code) + "）"@);
    let front = name + " "@ + flag + act + end;
    match code {
        Some(n) => {
            let number = signed_decimal(n as int);
            assert(said =~= (front + "Some("@) + number + (")"@ + "）"@));
            lemma_text_is_found_where_it_stands(front + "Some("@, number, ")"@ + "）"@);
        },
        None => {
            assert(said =~= front + "None"@ + "）"@);
            lemma_text_is_found_where_it_stands(front, "None"@, "）"@);
        },
    }
}

} // verus!
