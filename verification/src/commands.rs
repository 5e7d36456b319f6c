//! What the panel may ask for: files to be written, links and directories to be opened.

use vstd::prelude::*;
use crate::metrics::Snapshot;
use crate::snapshot_guard::{plain_name, valid_hash_name};
use crate::text::{begins_with, chars_of, starts_with, text_of};

verus! {

/// A text may be this long, in bytes.
pub const MAX_TEXT: u64 = 4_194_304;

/// The character may stand in the name of a file.
pub open spec fn name_char(c: char) -> bool {
    ||| '0' <= c <= '9'
    ||| 'a' <= c <= 'z'
    ||| 'A' <= c <= 'Z'
    ||| c == '.'
    ||| c == '-'
    ||| c == '_'
}

/// A name in which every character may stand: the others are replaced.
pub open spec fn cleaned(name: Seq<char>) -> Seq<char> {
    name.map_values(
        |c: char|
            if name_char(c) {
                c
            } else {
                '_'
            },
    )
}

/// The file cannot be written: its name is empty, or hides it.
pub open spec fn bad_name(name: Seq<char>) -> bool {
    name.len() == 0 || name[0] == '.'
}

/// The text is too large to be written.
pub open spec fn too_large(bytes: u64) -> bool {
    bytes > MAX_TEXT
}

/// Finds the name under which a text is written.
pub fn export_name(file_name: &str, text_bytes: u64) -> (r: Result<String, String>)
    ensures
        match r {
            Ok(name) => !too_large(text_bytes) && !bad_name(cleaned(file_name@)) && name@ == cleaned(
                file_name@,
            ),
            Err(e) => if too_large(text_bytes) {
                e@ == "内容过大"@
            } else {
                bad_name(cleaned(file_name@)) && e@ == "文件名无效"@
            },
        },
{
    if text_bytes > MAX_TEXT {
        return Err("内容过大".to_owned());
    }
    let chars = chars_of(file_name);
    let mut out: Vec<char> = Vec::new();
    let mut i: usize = 0;
    while i < chars.len()
        invariant
            i <= chars.len(),
            chars@ == file_name@,
            out@ == cleaned(file_name@).take(i as int),
        decreases chars.len() - i,
    {
        let c: char = chars[i];
        let keep = '0' <= c && c <= '9' || 'a' <= c && c <= 'z' || 'A' <= c && c <= 'Z' || c == '.'
            || c == '-' || c == '_';
        if keep {
            out.push(c);
        } else {
            out.push('_');
        }
        assert(out@ =~= cleaned(file_name@).take(i + 1));
        i += 1;
    }
    assert(out@ =~= cleaned(file_name@));
    if out.len() == 0 || out[0] == '.' {
        Err("文件名无效".to_owned())
    } else {
        Ok(text_of(out.as_slice()))
    }
}

/// A file that is written lies in the directory it is meant for: its name parts no path, and is
/// neither of the two names by which a directory leads to itself or upwards.
pub proof fn lemma_export_stays_inside(name: Seq<char>)
    requires
        !bad_name(cleaned(name)),
    ensures
        !cleaned(name).contains('/'),
        !cleaned(name).contains('\\'),
        !cleaned(name).contains(':'),
        cleaned(name) != "."@,
        cleaned(name) != ".."@,
{
    reveal_strlit(".");
    reveal_strlit("..");
    assert forall|i: int| 0 <= i < cleaned(name).len() implies name_char(
        #[trigger] cleaned(name)[i],
    ) by {}
    if cleaned(name).contains('/') {
        let i = choose|i: int| 0 <= i < cleaned(name).len() && cleaned(name)[i] == '/';
        assert(name_char(cleaned(name)[i]));
    }
    if cleaned(name).contains('\\') {
        let i = choose|i: int| 0 <= i < cleaned(name).len() && cleaned(name)[i] == '\\';
        assert(name_char(cleaned(name)[i]));
    }
    if cleaned(name).contains(':') {
        let i = choose|i: int| 0 <= i < cleaned(name).len() && cleaned(name)[i] == ':';
        assert(name_char(cleaned(name)[i]));
    }
    assert("."@[0] == '.' && ".."@[0] == '.');
}

/// A name in which every character may stand is kept.
pub proof fn lemma_clean_name_is_kept(name: Seq<char>)
    requires
        forall|i: int| 0 <= i < name.len() ==> name_char(#[trigger] name[i]),
    ensures
        cleaned(name) == name,
{
    assert(cleaned(name) =~= name);
}

/// Lets a link through: only those that lead to the web over a secured connection.
pub fn open_url(url: &str) -> (r: Result<(), String>)
    ensures
        match r {
            Ok(_) => begins_with(url@, "https://"@),
            Err(e) => !begins_with(url@, "https://"@) && e@ == "仅支持 https 链接"@,
        },
{
    if starts_with(url, "https://") {
        Ok(())
    } else {
        Err("仅支持 https 链接".to_owned())
    }
}

/// Lets the directory of a workspace through: its name is one that a directory of a workspace can
/// have, the directory of all of them is known, and it lies there. `there` says of a name that was
/// let through whether it lies there, and is nothing where the directory of all is not known.
pub fn open_checkpoint_dir(hash: &str, there: Option<bool>) -> (r: Result<(), String>)
    ensures
        r is Ok == (plain_name(hash@) && there == Some(true)),
        r matches Err(e) ==> e@ == if !plain_name(hash@) {
            "非法的工作区目录名"@
        } else if there is None {
            "无法定位用户目录"@
        } else {
            "该工作区的快照目录不存在（快照可能已被删除或尚未生成）"@
        },
{
    if !valid_hash_name(hash) {
        return Err("非法的工作区目录名".to_owned());
    }
    match there {
        None => Err("无法定位用户目录".to_owned()),
        Some(true) => Ok(()),
        Some(false) => Err(
            "该工作区的快照目录不存在（快照可能已被删除或尚未生成）".to_owned(),
        ),
    }
}

/// What the tray shows.
#[derive(Clone, Copy, Debug, PartialEq, Eq, Structural)]
pub enum TrayState {
    /// A call streams or has begun: the speed.
    Generating,
    /// The speed of recent calls.
    Estimating,
    /// Nothing.
    Idle,
}

impl TrayState {
    /// The word for the state.
    pub open spec fn name(self) -> Seq<char> {
        match self {
            TrayState::Generating => "生成中"@,
            TrayState::Estimating => "估算中"@,
            TrayState::Idle => "待机"@,
        }
    }

    /// Gives the word for the state.
    pub fn word(self) -> (r: &'static str)
        ensures
            r@ == self.name(),
    {
        match self {
            TrayState::Generating => "生成中",
            TrayState::Estimating => "估算中",
            TrayState::Idle => "待机",
        }
    }
}

/// Decides what the tray shows.
pub fn tray_state<T>(s: &Snapshot<T>) -> (r: TrayState)
    ensures
        r == if s.is_live || s.is_starting {
            TrayState::Generating
        } else if s.is_estimating {
            TrayState::Estimating
        } else {
            TrayState::Idle
        },
{
    if s.is_live || s.is_starting {
        TrayState::Generating
    } else if s.is_estimating {
        TrayState::Estimating
    } else {
        TrayState::Idle
    }
}

/// Puts the text of the tray together, from the speed as it is written where there is one to show.
pub fn tray_text(state: TrayState, speed: &str) -> (r: String)
    ensures
        r@ == match state {
            TrayState::Generating => "生成中 "@ + speed@ + " t/s"@,
            TrayState::Estimating => "估算中 ≈"@ + speed@ + " t/s"@,
            TrayState::Idle => "待机"@,
        },
{
    match state {
        TrayState::Generating => {
            let mut r = "生成中 ".to_owned();
            r.append(speed);
            r.append(" t/s");
            r
        },
        TrayState::Estimating => {
            let mut r = "估算中 ≈".to_owned();
            r.append(speed);
            r.append(" t/s");
            r
        },
        TrayState::Idle => "待机".to_owned(),
    }
}

/// Tests whether several tasks run, so that the pet has to make room for them.
pub fn several_tasks<T>(s: &Snapshot<T>) -> (r: bool)
    ensures
        r == (s.tasks@.len() >= 2),
{
    s.tasks.len() >= 2
}

/// Letters and digits without marks, points, dashes and underlines are kept in the name of a file;
/// every other character is replaced by an underline. The name stays as long as it was.
pub proof fn lemma_which_characters_are_kept(name: Seq<char>, i: int)
    requires
        0 <= i < name.len(),
    ensures
        cleaned(name).len() == name.len(),
        ({
            let c = name[i];
            if 48 <= c as int <= 57 || 65 <= c as int <= 90 || 97 <= c as int <= 122 || c == '.' || c
                == '-' || c == '_' {
                cleaned(name)[i] == c
            } else {
                cleaned(name)[i] == '_'
            }
        }),
        bad_name(cleaned(name)) == (name[0] == '.'),
        bad_name(cleaned(Seq::empty())),
{
}

/// What the tray says is told apart by the word for it.
pub proof fn lemma_tray_words_are_told_apart(a: TrayState, b: TrayState)
    ensures
        a.name() == b.name() ==> a == b,
{
    reveal_strlit("生成中");
    reveal_strlit("估算中");
    reveal_strlit("待机");
    assert("生成中"@.len() == 3 && "估算中"@.len() == 3 && "待机"@.len() == 2);
    assert("生成中"@[0] != "估算中"@[0]);
}

/// A text of four mebibytes can be written, and no larger one.
pub proof fn lemma_four_mebibytes_can_be_written(bytes: u64)
    ensures
        too_large(bytes) == (bytes > 4 * 1024 * 1024),
{
}

} // verus!
