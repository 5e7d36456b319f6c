//! Where files lie in the home directory.

use vstd::prelude::*;

verus! {

/// A file in the home directory: the names on the way to it.
#[derive(Debug, PartialEq)]
pub struct HomeFile<T> {
    pub home: T,
    pub parts: Vec<&'static str>,
}

/// The names on the way to a file.
pub open spec fn part_views(parts: Seq<&'static str>) -> Seq<Seq<char>> {
    parts.map_values(|p: &'static str| p@)
}

/// The file lies in the home directory, where that is known.
pub open spec fn lies_at<T>(r: Option<HomeFile<T>>, home: Option<T>, parts: Seq<Seq<char>>) -> bool {
    match home {
        Some(h) => r matches Some(f) && f.home == h && part_views(f.parts@) == parts,
        None => r is None,
    }
}

/// The home directory: the user's profile, or else the home that the environment names.
pub fn home_dir<T>(userprofile: Option<T>, home: Option<T>) -> (r: Option<T>)
    ensures
        r == if userprofile is Some {
            userprofile
        } else {
            home
        },
{
    match userprofile {
        Some(p) => Some(p),
        None => home,
    }
}

/// The usage database.
pub fn usage_db_path<T>(home: Option<T>) -> (r: Option<HomeFile<T>>)
    ensures
        lies_at(r, home, seq![".zcode"@, "cli"@, "db"@, "db.sqlite"@]),
{
    match home {
        Some(home) => {
            let parts = vec![".zcode", "cli", "db", "db.sqlite"];
            assert(part_views(parts@) =~= seq![".zcode"@, "cli"@, "db"@, "db.sqlite"@]);
            Some(HomeFile { home, parts })
        },
        None => None,
    }
}

/// The property list that registers a start.
pub fn plist_path<T>(home: Option<T>) -> (r: Option<HomeFile<T>>)
    ensures
        lies_at(
            r,
            home,
            seq!["Library"@, "LaunchAgents"@, "com.zcode.speedpanel.autostart.plist"@],
        ),
{
    match home {
        Some(home) => {
            let parts = vec!["Library", "LaunchAgents", "com.zcode.speedpanel.autostart.plist"];
            assert(part_views(parts@) =~= seq![
                "Library"@,
                "LaunchAgents"@,
                "com.zcode.speedpanel.autostart.plist"@,
            ]);
            Some(HomeFile { home, parts })
        },
        None => None,
    }
}

/// The directory of all checkpoints.
pub fn checkpoints_dir<T>(home: Option<T>) -> (r: Option<HomeFile<T>>)
    ensures
        lies_at(r, home, seq![".zcode"@, "v2"@, "checkpoints"@]),
{
    match home {
        Some(home) => {
            let parts = vec![".zcode", "v2", "checkpoints"];
            assert(part_views(parts@) =~= seq![".zcode"@, "v2"@, "checkpoints"@]);
            Some(HomeFile { home, parts })
        },
        None => None,
    }
}

/// The directory of exported texts.
pub fn exports_dir<T>(home: Option<T>) -> (r: Option<HomeFile<T>>)
    ensures
        lies_at(r, home, seq![".zcode"@, "speed-panel-exports"@]),
{
    in_data(home, "speed-panel-exports")
}

fn in_data<T>(home: Option<T>, name: &'static str) -> (r: Option<HomeFile<T>>)
    ensures
        lies_at(r, home, seq![".zcode"@, name@]),
{
    match home {
        Some(home) => {
            let parts = vec![".zcode", name];
            assert(part_views(parts@) =~= seq![".zcode"@, name@]);
            Some(HomeFile { home, parts })
        },
        None => None,
    }
}

/// What the guard remembers.
pub fn guard_file_path<T>(home: Option<T>) -> (r: Option<HomeFile<T>>)
    ensures
        lies_at(r, home, seq![".zcode"@, "speed-panel-guard.json"@]),
{
    in_data(home, "speed-panel-guard.json")
}

/// What was uploaded before the guard was set up.
pub fn history_file_path<T>(home: Option<T>) -> (r: Option<HomeFile<T>>)
    ensures
        lies_at(r, home, seq![".zcode"@, "speed-panel-ckpt-history.json"@]),
{
    in_data(home, "speed-panel-ckpt-history.json")
}

/// The sums of the day.
pub fn net_file<T>(home: Option<T>) -> (r: Option<HomeFile<T>>)
    ensures
        lies_at(r, home, seq![".zcode"@, "speed-panel-net.json"@]),
{
    in_data(home, "speed-panel-net.json")
}

/// Mode, style and places of the window.
pub fn mode_file<T>(home: Option<T>) -> (r: Option<HomeFile<T>>)
    ensures
        lies_at(r, home, seq![".zcode"@, "speed-panel-mode.txt"@]),
{
    in_data(home, "speed-panel-mode.txt")
}

/// What the live measurement has learned.
pub fn cal_file<T>(home: Option<T>) -> (r: Option<HomeFile<T>>)
    ensures
        lies_at(r, home, seq![".zcode"@, "speed-panel-cal.json"@]),
{
    in_data(home, "speed-panel-cal.json")
}

/// The log.
pub fn debug_log_path<T>(home: Option<T>) -> (r: Option<HomeFile<T>>)
    ensures
        lies_at(r, home, seq![".zcode"@, "speed-panel-debug.jsonl"@]),
{
    in_data(home, "speed-panel-debug.jsonl")
}

} // verus!
