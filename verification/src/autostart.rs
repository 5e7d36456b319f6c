//! Starting with the system: at login, or with ZCode.

use vstd::prelude::*;
use crate::platform::{is_zcode, is_zcode_exe};
use crate::text::{
    begins_with, chars_of, contains, contains_text, ends_with, finishes_with, is_white,
    lemma_text_is_found_where_it_stands, occurs_at, same_but_for_case, trim, trimmed, trimmed_back,
    trimmed_front,
};

verus! {

/// The argument of a start that waits for ZCode.
pub const FOLLOW_ARG: &'static str = "--zcode-follow";

/// The name under which the start is registered.
pub const AUTOSTART_NAME: &'static str = "zcode-speed-panel";

/// Whether, and how, the panel starts with the system.
#[derive(Clone, Copy, Debug, PartialEq, Eq, Structural)]
pub enum AutostartMode {
    Off,
    /// At login.
    Boot,
    /// At login, but hidden until ZCode runs.
    Follow,
}

impl AutostartMode {
    /// The name of the mode.
    pub open spec fn name(self) -> Seq<char> {
        match self {
            AutostartMode::Off => "off"@,
            AutostartMode::Boot => "boot"@,
            AutostartMode::Follow => "follow"@,
        }
    }

    /// The mode of that name, with white space around it or not; every other name is that of no
    /// start.
    pub open spec fn named(s: Seq<char>) -> AutostartMode {
        if trimmed(s) == "boot"@ {
            AutostartMode::Boot
        } else if trimmed(s) == "follow"@ {
            AutostartMode::Follow
        } else {
            AutostartMode::Off
        }
    }

    /// Names the mode.
    pub fn as_str(self) -> (r: &'static str)
        ensures
            r@ == self.name(),
    {
        match self {
            AutostartMode::Off => "off",
            AutostartMode::Boot => "boot",
            AutostartMode::Follow => "follow",
        }
    }

    /// Reads the name of a mode.
    pub fn parse(s: &str) -> (r: AutostartMode)
        ensures
            r == AutostartMode::named(s@),
    {
        let name = trim(s);
        if name == "boot".to_owned() {
            AutostartMode::Boot
        } else if name == "follow".to_owned() {
            AutostartMode::Follow
        } else {
            AutostartMode::Off
        }
    }
}

/// The name of a mode reads as that mode.
pub proof fn lemma_name_reads_as_mode(m: AutostartMode)
    ensures
        AutostartMode::named(m.name()) == m,
{
    reveal_strlit("off");
    reveal_strlit("boot");
    reveal_strlit("follow");
    reveal_with_fuel(trimmed_front, 2);
    reveal_with_fuel(trimmed_back, 2);
    assert("off"@.len() == 3 && "boot"@.len() == 4 && "follow"@.len() == 6);
}

/// The argument of a start that waits is among some arguments.
pub open spec fn asks_to_follow(args: Seq<String>) -> bool {
    exists|i: int| 0 <= i < args.len() && (#[trigger] args[i])@ == FOLLOW_ARG@
}

/// Tests whether this start is to wait for ZCode.
pub fn follow_requested(args: &Vec<String>) -> (r: bool)
    ensures
        r == asks_to_follow(args@),
{
    let wanted = FOLLOW_ARG.to_owned();
    let mut i: usize = 0;
    while i < args.len()
        invariant
            i <= args.len(),
            wanted@ == FOLLOW_ARG@,
            forall|j: int| 0 <= j < i ==> (#[trigger] args@[j])@ != FOLLOW_ARG@,
        decreases args.len() - i,
    {
        if args[i] == wanted {
            return true;
        }
        i += 1;
    }
    false
}

/// The processes that the system lists.
#[derive(Debug, PartialEq)]
pub enum ProcessList {
    /// The names of their programs.
    Programs(Vec<String>),
    /// How each was called, and its arguments.
    Arguments(Vec<(String, String)>),
    /// None are listed.
    Unavailable,
}

/// The process is ZCode: the desktop, or the program that carries sessions.
pub open spec fn called_zcode(p: (String, String)) -> bool {
    finishes_with(p.0@, "/ZCode"@) || contains_text(p.1@, "zcode-cli"@)
}

/// One of the programs is ZCode.
pub open spec fn any_program(v: Seq<String>) -> bool {
    exists|i: int| 0 <= i < v.len() && is_zcode((#[trigger] v[i])@)
}

/// One of the processes was called as ZCode.
pub open spec fn any_call(v: Seq<(String, String)>) -> bool {
    exists|i: int| 0 <= i < v.len() && called_zcode(#[trigger] v[i])
}

/// One of the processes is ZCode.
pub open spec fn any_zcode(list: ProcessList) -> bool {
    match list {
        ProcessList::Programs(v) => any_program(v@),
        ProcessList::Arguments(v) => any_call(v@),
        ProcessList::Unavailable => false,
    }
}

/// Tests whether ZCode is running.
pub fn zcode_running(list: &ProcessList) -> (r: bool)
    ensures
        r == any_zcode(*list),
{
    match list {
        ProcessList::Programs(v) => {
            let mut i: usize = 0;
            while i < v.len()
                invariant
                    i <= v.len(),
                    *list == ProcessList::Programs(*v),
                    forall|j: int| 0 <= j < i ==> !is_zcode((#[trigger] v@[j])@),
                decreases v.len() - i,
            {
                if is_zcode_exe(v[i].as_str()) {
                    assert(is_zcode(v@[i as int]@));
                    return true;
                }
                i += 1;
            }
            false
        },
        ProcessList::Arguments(v) => {
            let mut i: usize = 0;
            while i < v.len()
                invariant
                    i <= v.len(),
                    *list == ProcessList::Arguments(*v),
                    forall|j: int| 0 <= j < i ==> !called_zcode(#[trigger] v@[j]),
                decreases v.len() - i,
            {
                let p = &v[i];
                if ends_with(p.0.as_str(), "/ZCode") || contains(p.1.as_str(), "zcode-cli") {
                    assert(called_zcode(v@[i as int]));
                    return true;
                }
                i += 1;
            }
            false
        },
        ProcessList::Unavailable => false,
    }
}

/// The mode that a registered command stands for.
pub open spec fn mode_of(registered: Option<Seq<char>>) -> AutostartMode {
    match registered {
        None => AutostartMode::Off,
        Some(cmd) => if contains_text(cmd, FOLLOW_ARG@) {
            AutostartMode::Follow
        } else {
            AutostartMode::Boot
        },
    }
}

/// Tells the mode from the command that is registered.
pub fn current_mode(registered: &Option<String>) -> (r: AutostartMode)
    ensures
        r == mode_of(
            (match *registered {
                Some(s) => Some(s@),
                None => None,
            }),
        ),
{
    match registered {
        None => AutostartMode::Off,
        Some(cmd) => if contains(cmd.as_str(), FOLLOW_ARG) {
            AutostartMode::Follow
        } else {
            AutostartMode::Boot
        },
    }
}

/// The command that is registered where one line is: the program in quotes, and the argument of a
/// start that waits.
pub open spec fn run_command(exe: Seq<char>, follow: bool) -> Seq<char> {
    let quoted = seq!['"'] + exe + seq!['"'];
    if follow {
        quoted + seq![' '] + FOLLOW_ARG@
    } else {
        quoted
    }
}

/// Puts together the command that is registered.
pub fn run_value(exe: &str, follow: bool) -> (r: String)
    ensures
        r@ == run_command(exe@, follow),
{
    let mut s = String::new();
    s.push('"');
    s.append(exe);
    s.push('"');
    assert(s@ =~= seq!['"'] + exe@ + seq!['"']);
    if follow {
        s.push(' ');
        s.append(FOLLOW_ARG);
        assert(s@ =~= run_command(exe@, follow));
    }
    s
}

/// A character as it stands in a property list.
pub open spec fn escaped_char(c: char) -> Seq<char> {
    if c == '&' {
        seq!['&', 'a', 'm', 'p', ';']
    } else if c == '<' {
        seq!['&', 'l', 't', ';']
    } else if c == '>' {
        seq!['&', 'g', 't', ';']
    } else {
        seq![c]
    }
}

/// A text as it stands in a property list.
pub open spec fn escaped(s: Seq<char>) -> Seq<char>
    decreases s.len(),
{
    if s.len() == 0 {
        Seq::empty()
    } else {
        escaped_char(s[0]) + escaped(s.skip(1))
    }
}

/// Writes a text as it stands in a property list.
pub fn xml_escape(s: &str) -> (r: String)
    ensures
        r@ == escaped(s@),
{
    let chars = chars_of(s);
    let mut r = String::new();
    let mut i: usize = 0;
    assert(r@ + escaped(s@.skip(0)) =~= escaped(s@)) by {
        assert(s@.skip(0) =~= s@);
    }
    while i < chars.len()
        invariant
            i <= chars.len(),
            chars@ == s@,
            r@ + escaped(s@.skip(i as int)) == escaped(s@),
        decreases chars.len() - i,
    {
        let c: char = chars[i];
        let ghost before = r@;
        if c == '&' {
            r.append("&amp;");
            proof {
                reveal_strlit("&amp;");
                assert("&amp;"@ =~= escaped_char(c));
            }
        } else if c == '<' {
            r.append("&lt;");
            proof {
                reveal_strlit("&lt;");
                assert("&lt;"@ =~= escaped_char(c));
            }
        } else if c == '>' {
            r.append("&gt;");
            proof {
                reveal_strlit("&gt;");
                assert("&gt;"@ =~= escaped_char(c));
            }
        } else {
            r.push(c);
        }
        proof {
            let rest = s@.skip(i as int);
            assert(rest.skip(1) =~= s@.skip(i + 1));
            assert(r@ =~= before + escaped_char(c));
            assert(r@ + escaped(s@.skip(i + 1)) =~= before + escaped(rest));
        }
        i += 1;
    }
    assert(escaped(s@.skip(i as int)) =~= Seq::empty());
    r
}

/// The pieces of the property list, each of which follows an opening bracket.
pub open spec fn plist_pieces(exe: Seq<char>, follow: bool) -> Seq<Seq<char>> {
    seq![
        "?xml version=\"1.0\" encoding=\"UTF-8\"?>\n"@,
        "!DOCTYPE plist PUBLIC \"-//Apple//DTD PLIST 1.0//EN\" \"http://www.apple.com/DTDs/PropertyList-1.0.dtd\">\n"@,
        "plist version=\"1.0\">"@,
        "dict>"@,
        "key>Label"@,
        "/key>"@,
        "string>com.zcode.speedpanel.autostart"@,
        "/string>"@,
        "key>ProgramArguments"@,
        "/key>"@,
        "array>"@,
        "string>"@ + escaped(exe),
        "/string>"@,
    ] + (if follow {
        seq!["string>"@ + FOLLOW_ARG@, "/string>"@]
    } else {
        Seq::empty()
    }) + seq![
        "/array>"@,
        "key>RunAtLoad"@,
        "/key>"@,
        "true/>"@,
        "/dict>"@,
        "/plist>\n"@,
    ]
}

/// Pieces with an opening bracket before each.
pub open spec fn bracketed(pieces: Seq<Seq<char>>) -> Seq<char>
    decreases pieces.len(),
{
    if pieces.len() == 0 {
        Seq::empty()
    } else {
        bracketed(pieces.drop_last()) + seq!['<'] + pieces.last()
    }
}

fn put_piece(s: &mut String, piece: &str, Ghost(before): Ghost<Seq<Seq<char>>>)
    requires
        old(s)@ == bracketed(before),
    ensures
        final(s)@ == bracketed(before.push(piece@)),
{
    let ghost start = s@;
    s.push('<');
    s.append(piece);
    proof {
        assert(before.push(piece@).drop_last() =~= before);
        assert(s@ =~= start + seq!['<'] + piece@);
    }
}

/// Puts together the property list that is registered.
pub fn plist(exe: &str, follow: bool) -> (r: String)
    ensures
        r@ == bracketed(plist_pieces(exe@, follow)),
{
    let mut s = String::new();
    let ghost mut p: Seq<Seq<char>> = Seq::empty();
    assert(s@ =~= bracketed(p));
    put_piece(&mut s, "?xml version=\"1.0\" encoding=\"UTF-8\"?>\n", Ghost(p));
    proof {
        p = p.push("?xml version=\"1.0\" encoding=\"UTF-8\"?>\n"@);
    }
    put_piece(
        &mut s,
        "!DOCTYPE plist PUBLIC \"-//Apple//DTD PLIST 1.0//EN\" \"http://www.apple.com/DTDs/PropertyList-1.0.dtd\">\n",
        Ghost(p),
    );
    proof {
        p = p.push(
            "!DOCTYPE plist PUBLIC \"-//Apple//DTD PLIST 1.0//EN\" \"http://www.apple.com/DTDs/PropertyList-1.0.dtd\">\n"@,
        );
    }
    put_piece(&mut s, "plist version=\"1.0\">", Ghost(p));
    proof {
        p = p.push("plist version=\"1.0\">"@);
    }
    put_piece(&mut s, "dict>", Ghost(p));
    proof {
        p = p.push("dict>"@);
    }
    put_piece(&mut s, "key>Label", Ghost(p));
    proof {
        p = p.push("key>Label"@);
    }
    put_piece(&mut s, "/key>", Ghost(p));
    proof {
        p = p.push("/key>"@);
    }
    put_piece(&mut s, "string>com.zcode.speedpanel.autostart", Ghost(p));
    proof {
        p = p.push("string>com.zcode.speedpanel.autostart"@);
    }
    put_piece(&mut s, "/string>", Ghost(p));
    proof {
        p = p.push("/string>"@);
    }
    put_piece(&mut s, "key>ProgramArguments", Ghost(p));
    proof {
        p = p.push("key>ProgramArguments"@);
    }
    put_piece(&mut s, "/key>", Ghost(p));
    proof {
        p = p.push("/key>"@);
    }
    put_piece(&mut s, "array>", Ghost(p));
    proof {
        p = p.push("array>"@);
    }
    let mut program = "string>".to_owned();
    program.append(xml_escape(exe).as_str());
    put_piece(&mut s, program.as_str(), Ghost(p));
    proof {
        p = p.push(program@);
    }
    put_piece(&mut s, "/string>", Ghost(p));
    proof {
        p = p.push("/string>"@);
    }
    if follow {
        let mut arg = "string>".to_owned();
        arg.append(FOLLOW_ARG);
        put_piece(&mut s, arg.as_str(), Ghost(p));
        proof {
            p = p.push(arg@);
        }
        put_piece(&mut s, "/string>", Ghost(p));
        proof {
            p = p.push("/string>"@);
        }
    }
    put_piece(&mut s, "/array>", Ghost(p));
    proof {
        p = p.push("/array>"@);
    }
    put_piece(&mut s, "key>RunAtLoad", Ghost(p));
    proof {
        p = p.push("key>RunAtLoad"@);
    }
    put_piece(&mut s, "/key>", Ghost(p));
    proof {
        p = p.push("/key>"@);
    }
    put_piece(&mut s, "true/>", Ghost(p));
    proof {
        p = p.push("true/>"@);
    }
    put_piece(&mut s, "/dict>", Ghost(p));
    proof {
        p = p.push("/dict>"@);
    }
    put_piece(&mut s, "/plist>\n", Ghost(p));
    proof {
        p = p.push("/plist>\n"@);
        assert(p =~= plist_pieces(exe@, follow));
    }
    s
}

/// Where the last opening bracket stands, or minus one.
pub open spec fn last_bracket(s: Seq<char>) -> int
    decreases s.len(),
{
    if s.len() == 0 {
        -1
    } else if s.last() == '<' {
        s.len() - 1
    } else {
        last_bracket(s.drop_last())
    }
}

/// What a piece adds: the text of a string element, and a space.
pub open spec fn string_in(piece: Seq<char>) -> Seq<char> {
    if begins_with(piece, "string>"@) {
        piece.skip("string>"@.len() as int).push(' ')
    } else {
        Seq::empty()
    }
}

/// The texts of all string elements, each with a space behind it.
pub open spec fn strings_in(s: Seq<char>) -> Seq<char>
    decreases s.len(),
    via strings_in_decreases
{
    let at = last_bracket(s);
    if at < 0 {
        Seq::empty()
    } else {
        strings_in(s.take(at)) + string_in(s.skip(at + 1))
    }
}

#[via_fn]
proof fn strings_in_decreases(s: Seq<char>) {
    lemma_last_bracket(s);
}

proof fn lemma_last_bracket(s: Seq<char>)
    ensures
        -1 <= last_bracket(s) < s.len(),
        last_bracket(s) >= 0 ==> s[last_bracket(s)] == '<',
        forall|i: int| last_bracket(s) < i < s.len() ==> s[i] != '<',
    decreases s.len(),
{
    if s.len() > 0 && s.last() != '<' {
        let t = s.drop_last();
        lemma_last_bracket(t);
        assert forall|i: int| last_bracket(s) < i < s.len() implies s[i] != '<' by {
            if i < t.len() {
                assert(t[i] == s[i]);
            }
        }
    }
}

proof fn lemma_bracket_at(s: Seq<char>, at: int)
    requires
        -1 <= at < s.len(),
        at >= 0 ==> s[at] == '<',
        forall|i: int| at < i < s.len() ==> s[i] != '<',
    ensures
        last_bracket(s) == at,
{
    lemma_last_bracket(s);
}

fn add_string(r: &mut String, chars: &Vec<char>, from: usize, to: usize)
    requires
        from <= to <= chars@.len(),
    ensures
        final(r)@ == old(r)@ + string_in(chars@.subrange(from as int, to as int)),
{
    let ghost start = r@;
    let ghost piece = chars@.subrange(from as int, to as int);
    let head = chars_of("string>");
    let n: usize = head.len();
    let mut same = to - from >= n;
    let mut i: usize = 0;
    while same && i < n
        invariant
            i <= n,
            head@ == "string>"@,
            n == head@.len(),
            from <= to <= chars@.len(),
            piece == chars@.subrange(from as int, to as int),
            same ==> to - from >= n,
            same ==> forall|k: int| 0 <= k < i ==> piece[k] == head@[k],
            !same ==> !begins_with(piece, "string>"@),
        decreases n - i, if same { 1int } else { 0int },
    {
        if chars[from + i] != head[i] {
            same = false;
            assert(piece[i as int] != head@[i as int]);
            assert(!begins_with(piece, "string>"@)) by {
                if begins_with(piece, "string>"@) {
                    assert(piece.take(n as int)[i as int] == head@[i as int]);
                }
            }
        } else {
            i += 1;
        }
    }
    if !same {
        assert(start + string_in(piece) =~= start);
        return;
    }
    assert(begins_with(piece, "string>"@)) by {
        assert(piece.take(n as int) =~= head@);
    }
    let mut k: usize = from + n;
    while k < to
        invariant
            from + n <= k <= to <= chars@.len(),
            piece == chars@.subrange(from as int, to as int),
            r@ == start + piece.subrange(n as int, k - from),
        decreases to - k,
    {
        r.push(chars[k]);
        assert(r@ =~= start + piece.subrange(n as int, k + 1 - from));
        k += 1;
    }
    r.push(' ');
    assert(r@ =~= start + string_in(piece));
}

/// Reads the command from a property list: the texts of all its string elements.
pub fn plist_command(content: &str) -> (r: String)
    ensures
        r@ == trimmed(strings_in(content@)),
{
    let chars = chars_of(content);
    let ghost c = content@;
    let mut out = String::new();
    let mut open = false;
    let mut at: usize = 0;
    let mut i: usize = 0;
    while i < chars.len()
        invariant
            i <= chars.len(),
            chars@ == c,
            open ==> at < i && c[at as int] == '<' && out@ == strings_in(c.take(at as int)),
            open ==> forall|k: int| at < k < i ==> c[k] != '<',
            !open ==> out@.len() == 0 && forall|k: int| 0 <= k < i ==> c[k] != '<',
        decreases chars.len() - i,
    {
        if chars[i] == '<' {
            if open {
                proof {
                    let t = c.take(i as int);
                    lemma_bracket_at(t, at as int);
                    assert(t.take(at as int) =~= c.take(at as int));
                    assert(t.skip(at + 1) =~= c.subrange(at + 1, i as int));
                }
                add_string(&mut out, &chars, at + 1, i);
            } else {
                proof {
                    lemma_bracket_at(c.take(i as int), -1);
                    assert(out@ =~= Seq::empty());
                }
            }
            open = true;
            at = i;
        }
        i += 1;
    }
    if open {
        proof {
            lemma_bracket_at(c, at as int);
            assert(c.skip(at + 1) =~= c.subrange(at + 1, c.len() as int));
        }
        add_string(&mut out, &chars, at + 1, i);
    } else {
        proof {
            lemma_bracket_at(c, -1);
            assert(out@ =~= Seq::empty());
        }
    }
    trim(out.as_str())
}

/// How the system registers a start.
#[derive(Clone, Copy, Debug, PartialEq, Eq, Structural)]
pub enum Registry {
    /// As one line.
    RunValue,
    /// As a property list in the home directory, where that is known.
    PropertyList { home_known: bool },
    /// Not at all.
    Unsupported,
}

/// What is to be done to register a start.
#[derive(Debug, PartialEq)]
pub enum Registration {
    /// Take away what is registered, where there is something.
    Remove,
    /// Register this.
    Write(String),
}

/// Why nothing can be registered.
pub open spec fn registry_problem(registry: Registry) -> Option<Seq<char>> {
    match registry {
        Registry::RunValue => None,
        Registry::PropertyList { home_known } => if home_known {
            None
        } else {
            Some("无法定位用户目录"@)
        },
        Registry::Unsupported => Some("当前平台不支持自动启动"@),
    }
}

/// What is registered for a program.
pub open spec fn registered_text(registry: Registry, exe: Seq<char>, follow: bool) -> Seq<char> {
    if registry is RunValue {
        run_command(exe, follow)
    } else {
        bracketed(plist_pieces(exe, follow))
    }
}

/// What is to be done for a mode, or what is said where that is impossible.
pub open spec fn is_registration(
    r: Result<Registration, String>,
    mode: AutostartMode,
    registry: Registry,
    exe: Result<String, String>,
) -> bool {
    if mode is Off {
        match registry_problem(registry) {
            None => r matches Ok(Registration::Remove),
            Some(e) => r matches Err(s) && s@ == e,
        }
    } else {
        match exe {
            Err(e) => r matches Err(s) && s@ == "无法定位程序路径: "@ + e@,
            Ok(path) => match registry_problem(registry) {
                None => r matches Ok(Registration::Write(t)) && t@ == registered_text(
                    registry,
                    path@,
                    mode is Follow,
                ),
                Some(e) => r matches Err(s) && s@ == e,
            },
        }
    }
}

fn problem(registry: Registry) -> (r: Option<String>)
    ensures
        match r {
            Some(s) => registry_problem(registry) == Some(s@),
            None => registry_problem(registry) is None,
        },
{
    match registry {
        Registry::RunValue => None,
        Registry::PropertyList { home_known } => if home_known {
            None
        } else {
            Some("无法定位用户目录".to_owned())
        },
        Registry::Unsupported => Some("当前平台不支持自动启动".to_owned()),
    }
}

/// Decides what is to be done for a mode.
pub fn set_mode(mode: AutostartMode, registry: Registry, exe: Result<String, String>) -> (r: Result<
    Registration,
    String,
>)
    ensures
        is_registration(r, mode, registry, exe),
{
    let follow = match mode {
        AutostartMode::Off => {
            return match problem(registry) {
                Some(e) => Err(e),
                None => Ok(Registration::Remove),
            };
        },
        AutostartMode::Boot => false,
        AutostartMode::Follow => true,
    };
    let path = match exe {
        Ok(path) => path,
        Err(e) => {
            let mut s = "无法定位程序路径: ".to_owned();
            s.append(e.as_str());
            return Err(s);
        },
    };
    if let Some(e) = problem(registry) {
        return Err(e);
    }
    match registry {
        Registry::RunValue => Ok(Registration::Write(run_value(path.as_str(), follow))),
        _ => Ok(Registration::Write(plist(path.as_str(), follow))),
    }
}

proof fn lemma_occurs_in_part(a: Seq<char>, sep: char, b: Seq<char>, pat: Seq<char>)
    requires
        contains_text(a + seq![sep] + b, pat),
        pat.len() > 0,
        !pat.contains(sep),
    ensures
        contains_text(a, pat) || contains_text(b, pat),
{
    let s = a + seq![sep] + b;
    let at = choose|at: int| #[trigger] occurs_at(s, pat, at);
    if at <= a.len() < at + pat.len() {
        assert(s.subrange(at, at + pat.len())[a.len() - at] == sep);
        assert(pat[a.len() - at] == sep);
    } else if at + pat.len() <= a.len() {
        assert(a.subrange(at, at + pat.len()) =~= s.subrange(at, at + pat.len()));
        assert(occurs_at(a, pat, at));
    } else {
        let m = at - a.len() - 1;
        assert(b.subrange(m, m + pat.len()) =~= s.subrange(at, at + pat.len()));
        assert(occurs_at(b, pat, m));
    }
}

proof fn lemma_occurs_in_whole(a: Seq<char>, b: Seq<char>, c: Seq<char>, pat: Seq<char>)
    requires
        contains_text(b, pat),
    ensures
        contains_text(a + b + c, pat),
{
    let at = choose|at: int| #[trigger] occurs_at(b, pat, at);
    let s = a + b + c;
    let m = at + a.len();
    assert(s.subrange(m, m + pat.len()) =~= b.subrange(at, at + pat.len()));
    assert(occurs_at(s, pat, m));
}

proof fn lemma_trimmed_front_contains(s: Seq<char>, pat: Seq<char>)
    requires
        pat.len() > 0,
        forall|i: int| 0 <= i < pat.len() ==> !is_white(#[trigger] pat[i]),
    ensures
        contains_text(trimmed_front(s), pat) == contains_text(s, pat),
    decreases s.len(),
{
    if s.len() > 0 && is_white(s[0]) {
        let t = s.skip(1);
        lemma_trimmed_front_contains(t, pat);
        if contains_text(s, pat) {
            let at = choose|at: int| #[trigger] occurs_at(s, pat, at);
            if at == 0 {
                assert(s.subrange(0, pat.len() as int)[0] == s[0]);
                assert(pat[0] == s[0]);
            }
            assert(t.subrange(at - 1, at - 1 + pat.len()) =~= s.subrange(at, at + pat.len()));
            assert(occurs_at(t, pat, at - 1));
        }
        if contains_text(t, pat) {
            let at = choose|at: int| #[trigger] occurs_at(t, pat, at);
            assert(s.subrange(at + 1, at + 1 + pat.len()) =~= t.subrange(at, at + pat.len()));
            assert(occurs_at(s, pat, at + 1));
        }
    }
}

proof fn lemma_trimmed_back_contains(s: Seq<char>, pat: Seq<char>)
    requires
        pat.len() > 0,
        forall|i: int| 0 <= i < pat.len() ==> !is_white(#[trigger] pat[i]),
    ensures
        contains_text(trimmed_back(s), pat) == contains_text(s, pat),
    decreases s.len(),
{
    if s.len() > 0 && is_white(s.last()) {
        let t = s.drop_last();
        lemma_trimmed_back_contains(t, pat);
        if contains_text(s, pat) {
            let at = choose|at: int| #[trigger] occurs_at(s, pat, at);
            if at + pat.len() == s.len() {
                assert(s.subrange(at, at + pat.len())[pat.len() - 1] == s.last());
                assert(pat[pat.len() - 1] == s.last());
            }
            assert(t.subrange(at, at + pat.len()) =~= s.subrange(at, at + pat.len()));
            assert(occurs_at(t, pat, at));
        }
        if contains_text(t, pat) {
            let at = choose|at: int| #[trigger] occurs_at(t, pat, at);
            assert(s.subrange(at, at + pat.len()) =~= t.subrange(at, at + pat.len()));
            assert(occurs_at(s, pat, at));
        }
    }
}

proof fn lemma_escaped_begins(s: Seq<char>, pat: Seq<char>)
    requires
        !pat.contains('&'),
        begins_with(escaped(s), pat),
    ensures
        begins_with(s, pat),
    decreases pat.len(),
{
    if pat.len() > 0 {
        let e = escaped(s);
        assert(e.take(pat.len() as int)[0] == pat[0]);
        assert(s.len() > 0);
        let c = s[0];
        assert(e[0] == escaped_char(c)[0]);
        assert(pat[0] != '&');
        assert(escaped_char(c) =~= seq![c]);
        let (rest, tail) = (s.skip(1), pat.skip(1));
        assert(e.skip(1) =~= escaped(rest));
        assert(e.take(pat.len() as int).skip(1) =~= escaped(rest).take(tail.len() as int));
        assert forall|x: char| tail.contains(x) implies pat.contains(x) by {
            let k = choose|k: int| 0 <= k < tail.len() && tail[k] == x;
            assert(pat[k + 1] == x);
        }
        lemma_escaped_begins(rest, tail);
        assert(rest.take(tail.len() as int) =~= tail);
        assert(s.take(pat.len() as int) =~= seq![c] + rest.take(tail.len() as int));
        assert(pat =~= seq![c] + tail);
    } else {
        assert(s.take(0) =~= pat);
    }
}

proof fn lemma_escaped_contains(s: Seq<char>, pat: Seq<char>)
    requires
        pat.len() > 5,
        !pat.contains('&'),
        !pat.contains(';'),
        contains_text(escaped(s), pat),
    ensures
        contains_text(s, pat),
    decreases s.len(),
{
    let e = escaped(s);
    let at = choose|at: int| #[trigger] occurs_at(e, pat, at);
    assert(s.len() > 0);
    let c = s[0];
    let head = escaped_char(c);
    let rest = s.skip(1);
    let n = head.len() as int;
    if at >= n {
        assert(escaped(rest).subrange(at - n, at - n + pat.len()) =~= e.subrange(
            at,
            at + pat.len(),
        ));
        assert(occurs_at(escaped(rest), pat, at - n));
        lemma_escaped_contains(rest, pat);
        let m = choose|m: int| #[trigger] occurs_at(rest, pat, m);
        assert(s.subrange(m + 1, m + 1 + pat.len()) =~= rest.subrange(m, m + pat.len()));
        assert(occurs_at(s, pat, m + 1));
    } else if n > 1 {
        assert(e[n - 1] == ';');
        assert(e.subrange(at, at + pat.len())[n - 1 - at] == ';');
        assert(pat[n - 1 - at] == ';');
    } else {
        assert(at == 0);
        assert(e.take(pat.len() as int) =~= e.subrange(0, pat.len() as int));
        lemma_escaped_begins(s, pat);
        assert(s.subrange(0, pat.len() as int) =~= s.take(pat.len() as int));
        assert(occurs_at(s, pat, 0));
    }
}

/// There is no opening bracket in the text.
spec fn clean(s: Seq<char>) -> bool {
    forall|i: int| 0 <= i < s.len() ==> #[trigger] s[i] != '<'
}

spec fn all_clean(pieces: Seq<Seq<char>>) -> bool {
    forall|i: int| 0 <= i < pieces.len() ==> clean(#[trigger] pieces[i])
}

/// What some pieces add.
spec fn strings_of(pieces: Seq<Seq<char>>) -> Seq<char>
    decreases pieces.len(),
{
    if pieces.len() == 0 {
        Seq::empty()
    } else {
        strings_of(pieces.drop_last()) + string_in(pieces.last())
    }
}

proof fn lemma_strings_of(pieces: Seq<Seq<char>>)
    requires
        all_clean(pieces),
    ensures
        strings_in(bracketed(pieces)) == strings_of(pieces),
    decreases pieces.len(),
{
    let s = bracketed(pieces);
    if pieces.len() > 0 {
        let before = pieces.drop_last();
        let last = pieces.last();
        assert forall|i: int| 0 <= i < before.len() implies clean(#[trigger] before[i]) by {
            assert(before[i] == pieces[i]);
        }
        lemma_strings_of(before);
        let at = bracketed(before).len() as int;
        assert(clean(pieces[pieces.len() - 1]));
        assert forall|i: int| at < i < s.len() implies s[i] != '<' by {
            assert(s[i] == last[i - at - 1]);
        }
        lemma_bracket_at(s, at);
        assert(s.take(at) =~= bracketed(before));
        assert(s.skip(at + 1) =~= last);
    } else {
        lemma_bracket_at(s, -1);
    }
}

proof fn lemma_add_piece(pieces: Seq<Seq<char>>, x: Seq<char>)
    requires
        all_clean(pieces),
        clean(x),
    ensures
        all_clean(pieces.push(x)),
        strings_of(pieces.push(x)) == strings_of(pieces) + string_in(x),
{
    assert(pieces.push(x).drop_last() =~= pieces);
}

proof fn lemma_other_piece(pieces: Seq<Seq<char>>, x: Seq<char>)
    requires
        all_clean(pieces),
        clean(x),
        x.len() > 0,
        x[0] != 's',
    ensures
        all_clean(pieces.push(x)),
        strings_of(pieces.push(x)) == strings_of(pieces),
{
    lemma_add_piece(pieces, x);
    reveal_strlit("string>");
    if begins_with(x, "string>"@) {
        assert(x.take("string>"@.len() as int)[0] == 's');
    }
    assert(strings_of(pieces) + string_in(x) =~= strings_of(pieces));
}

proof fn lemma_string_piece(pieces: Seq<Seq<char>>, text: Seq<char>)
    requires
        all_clean(pieces),
        clean(text),
    ensures
        all_clean(pieces.push("string>"@ + text)),
        strings_of(pieces.push("string>"@ + text)) == strings_of(pieces) + text.push(' '),
{
    reveal_strlit("string>");
    let x = "string>"@ + text;
    assert(clean(x)) by {
        assert forall|i: int| 0 <= i < x.len() implies #[trigger] x[i] != '<' by {
            if i >= 7 {
                assert(x[i] == text[i - 7]);
            }
        }
    }
    lemma_add_piece(pieces, x);
    assert(x.take(7) =~= "string>"@);
    assert(x.skip(7) =~= text);
}

proof fn lemma_escaped_is_clean(s: Seq<char>)
    ensures
        clean(escaped(s)),
    decreases s.len(),
{
    if s.len() > 0 {
        lemma_escaped_is_clean(s.skip(1));
        let (h, t) = (escaped_char(s[0]), escaped(s.skip(1)));
        assert forall|i: int| 0 <= i < escaped(s).len() implies #[trigger] escaped(s)[i]
            != '<' by {
            if i >= h.len() {
                assert(escaped(s)[i] == t[i - h.len()]);
            }
        }
    }
}

/// A piece that is no string element, and opens nothing.
spec fn is_other(s: Seq<char>) -> bool {
    clean(s) && s.len() > 0 && s[0] != 's'
}

proof fn lemma_other_pieces()
    ensures
        is_other("?xml version=\"1.0\" encoding=\"UTF-8\"?>\n"@),
        is_other("!DOCTYPE plist PUBLIC \"-//Apple//DTD PLIST 1.0//EN\" \"http://www.apple.com/DTDs/PropertyList-1.0.dtd\">\n"@),
        is_other("plist version=\"1.0\">"@),
        is_other("dict>"@),
        is_other("key>Label"@),
        is_other("/key>"@),
        is_other("/string>"@),
        is_other("key>ProgramArguments"@),
        is_other("array>"@),
        is_other("/array>"@),
        is_other("key>RunAtLoad"@),
        is_other("true/>"@),
        is_other("/dict>"@),
        is_other("/plist>\n"@),
{
    assert(is_other("?xml version=\"1.0\" encoding=\"UTF-8\"?>\n"@)) by {
        reveal_strlit("?xml version=\"1.0\" encoding=\"UTF-8\"?>\n");
    }
    assert(is_other("!DOCTYPE plist PUBLIC \"-//Apple//DTD PLIST 1.0//EN\" \"http://www.apple.com/DTDs/PropertyList-1.0.dtd\">\n"@)) by {
        reveal_strlit("!DOCTYPE plist PUBLIC \"-//Apple//DTD PLIST 1.0//EN\" \"http://www.apple.com/DTDs/PropertyList-1.0.dtd\">\n");
    }
    assert(is_other("plist version=\"1.0\">"@)) by {
        reveal_strlit("plist version=\"1.0\">");
    }
    assert(is_other("dict>"@)) by {
        reveal_strlit("dict>");
    }
    assert(is_other("key>Label"@)) by {
        reveal_strlit("key>Label");
    }
    assert(is_other("/key>"@)) by {
        reveal_strlit("/key>");
    }
    assert(is_other("/string>"@)) by {
        reveal_strlit("/string>");
    }
    assert(is_other("key>ProgramArguments"@)) by {
        reveal_strlit("key>ProgramArguments");
    }
    assert(is_other("array>"@)) by {
        reveal_strlit("array>");
    }
    assert(is_other("/array>"@)) by {
        reveal_strlit("/array>");
    }
    assert(is_other("key>RunAtLoad"@)) by {
        reveal_strlit("key>RunAtLoad");
    }
    assert(is_other("true/>"@)) by {
        reveal_strlit("true/>");
    }
    assert(is_other("/dict>"@)) by {
        reveal_strlit("/dict>");
    }
    assert(is_other("/plist>\n"@)) by {
        reveal_strlit("/plist>\n");
    }
}

/// What a property list says: the label, the program, and the argument of a start that waits.
proof fn lemma_plist_strings(exe: Seq<char>, follow: bool)
    ensures
        strings_in(bracketed(plist_pieces(exe, follow))) == "com.zcode.speedpanel.autostart"@.push(' ')
            + escaped(exe).push(' ') + if follow {
            FOLLOW_ARG@.push(' ')
        } else {
            Seq::empty()
        },
{
    lemma_other_pieces();
    lemma_escaped_is_clean(exe);
    let label = "com.zcode.speedpanel.autostart"@;
    reveal_strlit("com.zcode.speedpanel.autostart");
    reveal_strlit("string>com.zcode.speedpanel.autostart");
    reveal_strlit("string>");
    reveal_strlit("--zcode-follow");
    assert(clean(label));
    assert(clean(FOLLOW_ARG@));
    assert("string>com.zcode.speedpanel.autostart"@ =~= "string>"@ + label);
    let p = Seq::<Seq<char>>::empty();
    assert(strings_of(p) =~= Seq::empty());
    lemma_other_piece(p, "?xml version=\"1.0\" encoding=\"UTF-8\"?>\n"@);
    let p = p.push("?xml version=\"1.0\" encoding=\"UTF-8\"?>\n"@);
    lemma_other_piece(p, "!DOCTYPE plist PUBLIC \"-//Apple//DTD PLIST 1.0//EN\" \"http://www.apple.com/DTDs/PropertyList-1.0.dtd\">\n"@);
    let p = p.push("!DOCTYPE plist PUBLIC \"-//Apple//DTD PLIST 1.0//EN\" \"http://www.apple.com/DTDs/PropertyList-1.0.dtd\">\n"@);
    lemma_other_piece(p, "plist version=\"1.0\">"@);
    let p = p.push("plist version=\"1.0\">"@);
    lemma_other_piece(p, "dict>"@);
    let p = p.push("dict>"@);
    lemma_other_piece(p, "key>Label"@);
    let p = p.push("key>Label"@);
    lemma_other_piece(p, "/key>"@);
    let p = p.push("/key>"@);
    lemma_string_piece(p, label);
    let p = p.push("string>"@ + label);
    lemma_other_piece(p, "/string>"@);
    let p = p.push("/string>"@);
    lemma_other_piece(p, "key>ProgramArguments"@);
    let p = p.push("key>ProgramArguments"@);
    lemma_other_piece(p, "/key>"@);
    let p = p.push("/key>"@);
    lemma_other_piece(p, "array>"@);
    let p = p.push("array>"@);
    lemma_string_piece(p, escaped(exe));
    let p = p.push("string>"@ + escaped(exe));
    lemma_other_piece(p, "/string>"@);
    let p = p.push("/string>"@);
    let p = if follow {
        lemma_string_piece(p, FOLLOW_ARG@);
        let q = p.push("string>"@ + FOLLOW_ARG@);
        lemma_other_piece(q, "/string>"@);
        q.push("/string>"@)
    } else {
        p
    };
    lemma_other_piece(p, "/array>"@);
    let p = p.push("/array>"@);
    lemma_other_piece(p, "key>RunAtLoad"@);
    let p = p.push("key>RunAtLoad"@);
    lemma_other_piece(p, "/key>"@);
    let p = p.push("/key>"@);
    lemma_other_piece(p, "true/>"@);
    let p = p.push("true/>"@);
    lemma_other_piece(p, "/dict>"@);
    let p = p.push("/dict>"@);
    lemma_other_piece(p, "/plist>\n"@);
    let p = p.push("/plist>\n"@);
    assert(p =~= plist_pieces(exe, follow));
    lemma_strings_of(p);
    assert(strings_of(p) =~= label.push(' ') + escaped(exe).push(' ') + if follow {
        FOLLOW_ARG@.push(' ')
    } else {
        Seq::empty()
    });
}

/// The command as it is read back where a start is registered.
pub open spec fn read_back(registry: Registry, text: Seq<char>) -> Seq<char> {
    if registry is RunValue {
        text
    } else {
        trimmed(strings_in(text))
    }
}

/// What is registered for a mode reads back as that mode, for every program whose path does not
/// hold the argument of a start that waits.
pub proof fn lemma_mode_reads_back(registry: Registry, exe: Seq<char>, follow: bool)
    requires
        !contains_text(exe, FOLLOW_ARG@),
    ensures
        mode_of(Some(read_back(registry, registered_text(registry, exe, follow)))) == if follow {
            AutostartMode::Follow
        } else {
            AutostartMode::Boot
        },
{
    reveal_strlit("--zcode-follow");
    let arg = FOLLOW_ARG@;
    assert(arg.len() == 14);
    assert forall|i: int| 0 <= i < arg.len() implies !is_white(#[trigger] arg[i]) && arg[i] != '"'
        && arg[i] != ' ' && arg[i] != '&' && arg[i] != ';' by {}
    assert(occurs_at(arg, arg, 0)) by {
        assert(arg.subrange(0, 14) =~= arg);
    }
    if registry is RunValue {
        let quoted = seq!['"'] + exe + seq!['"'];
        if follow {
            lemma_occurs_in_whole(quoted + seq![' '], arg, Seq::empty(), arg);
            assert(run_command(exe, follow) =~= quoted + seq![' '] + arg + Seq::empty());
        } else if contains_text(quoted, arg) {
            assert(quoted =~= seq!['"'] + exe + seq!['"'] + Seq::<char>::empty());
            assert(quoted =~= (seq!['"'] + exe) + seq!['"'] + Seq::<char>::empty());
            lemma_occurs_in_part(seq!['"'] + exe, '"', Seq::empty(), arg);
            lemma_none_in_empty(arg);
            assert(seq!['"'] + exe =~= Seq::<char>::empty() + seq!['"'] + exe);
            lemma_occurs_in_part(Seq::empty(), '"', exe, arg);
        }
    } else {
        lemma_plist_strings(exe, follow);
        let label = "com.zcode.speedpanel.autostart"@;
        let body = label.push(' ') + escaped(exe).push(' ');
        let s = strings_in(bracketed(plist_pieces(exe, follow)));
        lemma_trimmed_front_contains(s, arg);
        lemma_trimmed_back_contains(trimmed_front(s), arg);
        if follow {
            lemma_occurs_in_whole(body, arg, seq![' '], arg);
            assert(s =~= body + arg + seq![' ']);
        } else if contains_text(s, arg) {
            assert(s =~= (label + seq![' '] + escaped(exe)) + seq![' '] + Seq::<char>::empty());
            lemma_occurs_in_part(label + seq![' '] + escaped(exe), ' ', Seq::empty(), arg);
            lemma_none_in_empty(arg);
            lemma_occurs_in_part(label, ' ', escaped(exe), arg);
            if contains_text(label, arg) {
                reveal_strlit("com.zcode.speedpanel.autostart");
                let at = choose|at: int| #[trigger] occurs_at(label, arg, at);
                assert(label.subrange(at, at + 14)[0] == '-');
                assert(label[at] == '-');
            } else {
                lemma_escaped_contains(exe, arg);
            }
        }
    }
}

proof fn lemma_none_in_empty(pat: Seq<char>)
    requires
        pat.len() > 0,
    ensures
        !contains_text(Seq::empty(), pat),
{
}

/// ZCode is running where a process was called by a path to its desktop, whatever its arguments
/// are, or where the program that carries sessions is among its arguments, whatever it was called
/// by; and it is not where neither holds of any process.
pub proof fn lemma_desktop_or_sessions_are_zcode(
    list: ProcessList,
    i: int,
    dir: Seq<char>,
    front: Seq<char>,
    back: Seq<char>,
)
    requires
        list is Arguments,
    ensures
        ({
            let v = list->Arguments_0@;
            &&& 0 <= i < v.len() && v[i].0@ == dir + "/ZCode"@ ==> any_zcode(list)
            &&& 0 <= i < v.len() && v[i].1@ == front + "zcode-cli"@ + back ==> any_zcode(list)
            &&& (forall|k: int|
                0 <= k < v.len() ==> !finishes_with((#[trigger] v[k]).0@, "/ZCode"@)
                    && !contains_text(v[k].1@, "zcode-cli"@)) ==> !any_zcode(list)
        }),
{
    let v = list->Arguments_0@;
    lemma_text_is_found_where_it_stands(dir, "/ZCode"@, Seq::empty());
    lemma_text_is_found_where_it_stands(front, "zcode-cli"@, back);
    if 0 <= i < v.len() && v[i].0@ == dir + "/ZCode"@ {
        assert(called_zcode(v[i]));
    }
    if 0 <= i < v.len() && v[i].1@ == front + "zcode-cli"@ + back {
        assert(called_zcode(v[i]));
    }
}

/// Where programs are listed by name, ZCode is running where one of them is named after it, in
/// capitals or not; and where nothing is listed, it is not.
pub proof fn lemma_program_of_that_name_is_zcode(list: ProcessList)
    ensures
        list matches ProcessList::Programs(v) ==> any_zcode(list) == exists|i: int|
            0 <= i < v@.len() && same_but_for_case((#[trigger] v@[i])@, "zcode.exe"@),
        list is Unavailable ==> !any_zcode(list),
{
    if let ProcessList::Programs(v) = list {
        if exists|i: int| 0 <= i < v@.len() && same_but_for_case((#[trigger] v@[i])@, "zcode.exe"@) {
            let i = choose|i: int|
                0 <= i < v@.len() && same_but_for_case((#[trigger] v@[i])@, "zcode.exe"@);
            assert(is_zcode(v@[i]@));
        }
        if any_zcode(list) {
            let i = choose|i: int| 0 <= i < v@.len() && is_zcode((#[trigger] v@[i])@);
            assert(same_but_for_case(v@[i]@, "zcode.exe"@));
        }
    }
}

/// A start waits for ZCode where, and only where, its arguments say so.
pub proof fn lemma_argument_makes_a_start_wait(args: Seq<String>, i: int)
    ensures
        0 <= i < args.len() && args[i]@ == "--zcode-follow"@ ==> asks_to_follow(args),
        (forall|k: int| 0 <= k < args.len() ==> (#[trigger] args[k])@ != "--zcode-follow"@)
            ==> !asks_to_follow(args),
{
}

/// The command that is registered calls the program, in quotes, and has one more argument where the
/// start is to wait.
pub proof fn lemma_command_calls_the_program(exe: Seq<char>)
    ensures
        run_command(exe, false) == seq!['"'] + exe + seq!['"'],
        run_command(exe, true) == run_command(exe, false) + seq![' '] + "--zcode-follow"@,
{
    assert(run_command(exe, true) =~= run_command(exe, false) + seq![' '] + "--zcode-follow"@);
}

/// The property list says what is to be started: its label, the program, and the argument of a start
/// that waits.
pub proof fn lemma_property_list_calls_the_program(exe: Seq<char>, follow: bool)
    ensures
        strings_in(bracketed(plist_pieces(exe, follow))) == "com.zcode.speedpanel.autostart"@ + seq![
            ' ',
        ] + escaped(exe) + seq![' '] + if follow {
            "--zcode-follow"@ + seq![' ']
        } else {
            Seq::empty()
        },
{
    lemma_plist_strings(exe, follow);
    assert(strings_in(bracketed(plist_pieces(exe, follow)))
        =~= "com.zcode.speedpanel.autostart"@ + seq![' '] + escaped(exe) + seq![' '] + if follow {
        "--zcode-follow"@ + seq![' ']
    } else {
        Seq::empty()
    });
}

/// No two texts stand in a property list in the same way; brackets do not stand in it as they are,
/// and a text without brackets and without the sign that marks what stands for them is kept.
pub proof fn lemma_escaped_texts_are_told_apart(a: Seq<char>, b: Seq<char>)
    ensures
        escaped(a) == escaped(b) ==> a == b,
        !escaped(a).contains('<'),
        !escaped(a).contains('>'),
        !a.contains('<') && !a.contains('>') && !a.contains('&') ==> escaped(a) == a,
    decreases a.len(),
{
    let (x, y) = (escaped(a), escaped(b));
    if a.len() > 0 {
        let (h, t) = (escaped_char(a[0]), escaped(a.skip(1)));
        if b.len() > 0 {
            lemma_escaped_texts_are_told_apart(a.skip(1), b.skip(1));
            let (g, u) = (escaped_char(b[0]), escaped(b.skip(1)));
            if x == y {
                assert(x[0] == h[0] && y[0] == g[0]);
                if a[0] == '&' || a[0] == '<' || a[0] == '>' {
                    assert(b[0] == '&' || b[0] == '<' || b[0] == '>');
                    assert(x[1] == h[1] && y[1] == g[1]);
                }
                assert(a[0] == b[0]);
                assert(x.skip(h.len() as int) =~= t);
                assert(y.skip(h.len() as int) =~= u);
                assert(a =~= seq![a[0]] + a.skip(1));
                assert(b =~= seq![b[0]] + b.skip(1));
            }
        } else {
            lemma_escaped_texts_are_told_apart(a.skip(1), b);
            assert(x[0] == h[0]);
        }
        assert forall|i: int| 0 <= i < x.len() implies x[i] != '<' && x[i] != '>' by {
            if i < h.len() {
                assert(x[i] == h[i]);
            } else {
                assert(x[i] == t[i - h.len()]);
                assert(t.contains(t[i - h.len()]));
            }
        }
        if !a.contains('<') && !a.contains('>') && !a.contains('&') {
            assert(a.contains(a[0]));
            assert forall|c: char| a.skip(1).contains(c) implies a.contains(c) by {
                let i = choose|i: int| 0 <= i < a.skip(1).len() && a.skip(1)[i] == c;
                assert(a[i + 1] == c);
            }
            assert(h =~= seq![a[0]]);
            assert(x =~= a);
        }
    } else {
        assert(x =~= Seq::empty());
        assert(a =~= Seq::empty());
        if b.len() > 0 {
            assert(y.len() >= escaped_char(b[0]).len());
        } else {
            assert(b =~= Seq::empty());
        }
    }
}

/// What is done for a mode brings that mode about: to start with the system a command is
/// registered that reads back as the mode, and not to start takes it away. Without a place to
/// register it, or without knowing the program, nothing is done.
pub proof fn lemma_registration_brings_the_mode_about(
    r: Result<Registration, String>,
    mode: AutostartMode,
    registry: Registry,
    exe: Result<String, String>,
)
    requires
        is_registration(r, mode, registry, exe),
    ensures
        r matches Ok(Registration::Write(t)) ==> {
            &&& mode != AutostartMode::Off
            &&& exe is Ok
            &&& !contains_text((exe->Ok_0)@, "--zcode-follow"@) ==> mode_of(
                Some(read_back(registry, t@)),
            ) == mode
        },
        r matches Ok(Registration::Remove) ==> mode == AutostartMode::Off && mode_of(None) == mode,
        r is Ok == ((registry is RunValue || registry == (Registry::PropertyList {
            home_known: true,
        })) && (mode == AutostartMode::Off || exe is Ok)),
{
    if let Ok(Registration::Write(t)) = r {
        let path = exe->Ok_0;
        if !contains_text(path@, "--zcode-follow"@) {
            lemma_mode_reads_back(registry, path@, mode is Follow);
        }
    }
}

/// What names no mode stands for none; white around a name does not matter. Without a command
/// nothing is registered, and every command is.
pub proof fn lemma_other_names_are_off(s: Seq<char>)
    ensures
        AutostartMode::named(s) == AutostartMode::Boot ==> trimmed(s) == "boot"@,
        AutostartMode::named(s) == AutostartMode::Follow ==> trimmed(s) == "follow"@,
        trimmed(s) != "boot"@ && trimmed(s) != "follow"@ ==> AutostartMode::named(s)
            == AutostartMode::Off,
        mode_of(None) == AutostartMode::Off,
        mode_of(Some(s)) != AutostartMode::Off,
        mode_of(Some(s)) == AutostartMode::Follow ==> contains_text(s, "--zcode-follow"@),
        contains_text(s, "--zcode-follow"@) ==> mode_of(Some(s)) == AutostartMode::Follow,
{
}

} // verus!
