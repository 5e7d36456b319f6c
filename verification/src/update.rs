//! Updates of the panel: found, fetched ahead of time, and installed when the user asks for it.

use vstd::prelude::*;
use crate::text::{chars_of, same_text, text_of};

verus! {

/// A release of the panel.
#[derive(Debug, PartialEq)]
pub struct Release {
    pub tag: String,
    pub version: String,
    pub url: String,
    pub notes: String,
    pub asset_size: u64,
}

impl Clone for Release {
    fn clone(&self) -> (r: Self)
        ensures
            r == *self,
    {
        Release {
            tag: self.tag.clone(),
            version: self.version.clone(),
            url: self.url.clone(),
            notes: self.notes.clone(),
            asset_size: self.asset_size,
        }
    }
}

/// The first characters of a text; an ellipsis says that there were more.
pub open spec fn truncated(s: Seq<char>, n: nat) -> Seq<char> {
    if s.len() <= n {
        s
    } else {
        s.take(n as int).push('…')
    }
}

/// Cuts a text after so many characters.
pub fn truncate_chars(s: &str, n: usize) -> (r: String)
    ensures
        r@ == truncated(s@, n as nat),
{
    let chars = chars_of(s);
    if chars.len() <= n {
        return s.to_owned();
    }
    let mut out: Vec<char> = Vec::new();
    let mut i: usize = 0;
    while i < n
        invariant
            i <= n < chars.len(),
            chars@ == s@,
            out@ == s@.take(i as int),
        decreases n - i,
    {
        out.push(chars[i]);
        i += 1;
    }
    out.push('…');
    text_of(out.as_slice())
}

/// Notes are shown up to this many characters.
pub const MAX_NOTES: usize = 400;

/// What the panel is told about an update.
#[derive(Debug, PartialEq)]
pub struct UpdateEvent {
    pub state: &'static str,
    pub current_version: String,
    pub new_version: String,
    pub release_url: String,
    pub notes: String,
    pub downloaded_bytes: u64,
    pub total_bytes: u64,
    pub message: String,
}

/// What an [`UpdateEvent`] holds.
pub ghost struct EventView {
    pub state: Seq<char>,
    pub current_version: Seq<char>,
    pub new_version: Seq<char>,
    pub release_url: Seq<char>,
    pub notes: Seq<char>,
    pub downloaded_bytes: u64,
    pub total_bytes: u64,
    pub message: Seq<char>,
}

impl View for UpdateEvent {
    type V = EventView;

    open spec fn view(&self) -> EventView {
        EventView {
            state: self.state@,
            current_version: self.current_version@,
            new_version: self.new_version@,
            release_url: self.release_url@,
            notes: self.notes@,
            downloaded_bytes: self.downloaded_bytes,
            total_bytes: self.total_bytes,
            message: self.message@,
        }
    }
}

/// The news that a release is in some state.
pub open spec fn event_of(state: Seq<char>, current: Seq<char>, rel: Release) -> EventView {
    EventView {
        state,
        current_version: current,
        new_version: rel.version@,
        release_url: rel.url@,
        notes: truncated(rel.notes@, MAX_NOTES as nat),
        downloaded_bytes: 0,
        total_bytes: rel.asset_size,
        message: Seq::empty(),
    }
}

/// Puts the news together that a release is in some state.
pub fn update_event(state: &'static str, current: &str, rel: &Release) -> (r: UpdateEvent)
    ensures
        r@ == event_of(state@, current@, *rel),
{
    let r = UpdateEvent {
        state,
        current_version: current.to_owned(),
        new_version: rel.version.clone(),
        release_url: rel.url.clone(),
        notes: truncate_chars(rel.notes.as_str(), MAX_NOTES),
        downloaded_bytes: 0,
        total_bytes: rel.asset_size,
        message: String::new(),
    };
    assert(r.message@ =~= Seq::empty());
    r
}

/// What came of a look for an update.
#[derive(Debug, PartialEq)]
pub enum CheckOutcome {
    UpToDate { current: String },
    Available { current: String, new_version: String },
    Failed { message: String },
}

/// What came of a request to fetch a release.
#[derive(Debug, PartialEq)]
pub enum DownloadStart {
    /// It was fetched before: the panel is told so.
    Ready(UpdateEvent),
    /// Something is being fetched.
    Busy,
    /// It is to be fetched now.
    Start,
}

/// What came of a look for an update, and what is to be done next.
#[derive(Debug, PartialEq)]
pub struct CheckStep {
    pub outcome: CheckOutcome,
    /// The news that there is an update, and what comes of fetching it.
    pub found: Option<(UpdateEvent, Release, DownloadStart)>,
}

/// What the user's wish to install leads to.
#[derive(Debug, PartialEq)]
pub enum InstallStep {
    /// The package is there.
    Launch,
    /// It is to be fetched first.
    Fetch(Release),
}

/// What is known about updates. `P` tells where a package lies.
#[derive(Debug, PartialEq)]
pub struct UpdateMem<P> {
    /// When a release was last looked up.
    pub last_check_ms: i64,
    pub checking: bool,
    pub downloading: bool,
    /// The release that is newer than the panel.
    pub latest: Option<Release>,
    /// The package that was fetched, with the tag of its release.
    pub downloaded: Option<(String, P)>,
    /// The user waits for the package.
    pub install_when_ready: bool,
}

/// A release is looked up once in a day.
pub const CHECK_MS: i64 = 86_400_000;

/// How often the panel is told how much was fetched.
pub const PROGRESS_NS: u64 = 250_000_000;

impl<P> UpdateMem<P> {
    /// The package of the release was fetched.
    pub open spec fn has(self, rel: Release) -> bool {
        self.downloaded matches Some(d) && d.0@ == rel.tag@
    }

    /// What a request to fetch a release leads to.
    pub open spec fn fetching(self, rel: Release) -> UpdateMem<P> {
        if self.has(rel) || self.downloading {
            self
        } else {
            UpdateMem { downloading: true, ..self }
        }
    }

    /// What a request to fetch a release is answered.
    pub open spec fn answers(self, r: DownloadStart, rel: Release, current: Seq<char>) -> bool {
        if self.has(rel) {
            r matches DownloadStart::Ready(ev) && ev@ == event_of("ready"@, current, rel)
        } else if self.downloading {
            r is Busy
        } else {
            r is Start
        }
    }

    /// What is known after a look: of a release that was found the time is noted, and the release
    /// itself where it is newer.
    pub open spec fn checked(self, found: Option<(Release, bool)>, now_ms: i64) -> UpdateMem<P> {
        let m = UpdateMem { checking: false, ..self };
        match found {
            Some((rel, newer)) => if newer {
                UpdateMem { last_check_ms: now_ms, latest: Some(rel), ..m }.fetching(rel)
            } else {
                UpdateMem { last_check_ms: now_ms, ..m }
            },
            None => m,
        }
    }

    /// What is known once a package was fetched.
    pub open spec fn fetched(self, rel: Release, path: P) -> UpdateMem<P> {
        UpdateMem { downloading: false, downloaded: Some((rel.tag, path)), ..self }
    }

    /// What is known once a package could not be fetched: nobody waits for it any more.
    pub open spec fn not_fetched(self) -> UpdateMem<P> {
        UpdateMem { downloading: false, install_when_ready: false, ..self }
    }

    /// The package that can be installed: that of the latest release, and no other.
    pub open spec fn installable(self) -> bool {
        self.latest matches Some(rel) && self.has(rel)
    }

    /// What is known once the user asked to install.
    pub open spec fn wanted(self) -> UpdateMem<P> {
        if self.latest is None || self.installable() {
            self
        } else {
            UpdateMem { install_when_ready: true, ..self }
        }
    }

    /// Nothing is known yet.
    pub fn new() -> (r: Self)
        ensures
            r == (UpdateMem::<P> {
                last_check_ms: 0,
                checking: false,
                downloading: false,
                latest: None,
                downloaded: None,
                install_when_ready: false,
            }),
    {
        UpdateMem {
            last_check_ms: 0,
            checking: false,
            downloading: false,
            latest: None,
            downloaded: None,
            install_when_ready: false,
        }
    }

    fn has_package(&self, rel: &Release) -> (r: bool)
        ensures
            r == self.has(*rel),
    {
        match &self.downloaded {
            Some(d) => same_text(d.0.as_str(), rel.tag.as_str()),
            None => false,
        }
    }

    /// Begins to look for an update, unless somebody is at it.
    pub fn begin_check(&mut self) -> (r: Result<(), CheckOutcome>)
        ensures
            *final(self) == (UpdateMem { checking: true, ..*old(self) }),
            match r {
                Ok(_) => !old(self).checking,
                Err(o) => {
                    &&& old(self).checking
                    &&& o matches CheckOutcome::Failed { message } && message@ == "已有检查正在进行"@
                },
            },
    {
        if self.checking {
            return Err(CheckOutcome::Failed { message: "已有检查正在进行".to_owned() });
        }
        self.checking = true;
        Ok(())
    }

    /// Ends a look for an update. `found` is the release that was found, and whether it is newer
    /// than the panel.
    pub fn do_check(&mut self, found: Option<(Release, bool)>, current: &str, now_ms: i64) -> (r:
        CheckStep)
        ensures
            *final(self) == old(self).checked(found, now_ms),
            match found {
                Some((rel, newer)) => if newer {
                    &&& r.outcome matches CheckOutcome::Available { current: c, new_version: v }
                        && c@ == current@ && v@ == rel.version@
                    &&& r.found matches Some((ev, f, start)) && ev@ == event_of(
                        "available"@,
                        current@,
                        rel,
                    ) && f == rel && old(self).answers(start, rel, current@)
                } else {
                    &&& r.outcome matches CheckOutcome::UpToDate { current: c } && c@ == current@
                    &&& r.found is None
                },
                None => {
                    &&& r.outcome matches CheckOutcome::Failed { message } && message@
                        == "网络异常或 Release 信息不可用"@
                    &&& r.found is None
                },
            },
    {
        self.checking = false;
        match found {
            None => CheckStep {
                outcome: CheckOutcome::Failed { message: "网络异常或 Release 信息不可用".to_owned() },
                found: None,
            },
            Some((rel, newer)) => {
                self.last_check_ms = now_ms;
                if newer {
                    let ev = update_event("available", current, &rel);
                    self.latest = Some(rel.clone());
                    let start = self.spawn_download(&rel, current);
                    CheckStep {
                        outcome: CheckOutcome::Available {
                            current: current.to_owned(),
                            new_version: rel.version.clone(),
                        },
                        found: Some((ev, rel, start)),
                    }
                } else {
                    CheckStep {
                        outcome: CheckOutcome::UpToDate { current: current.to_owned() },
                        found: None,
                    }
                }
            },
        }
    }

    /// Asks for a release to be fetched: once is enough, and only one at a time.
    pub fn spawn_download(&mut self, rel: &Release, current: &str) -> (r: DownloadStart)
        ensures
            *final(self) == old(self).fetching(*rel),
            old(self).answers(r, *rel, current@),
    {
        if self.has_package(rel) {
            return DownloadStart::Ready(update_event("ready", current, rel));
        }
        if self.downloading {
            return DownloadStart::Busy;
        }
        self.downloading = true;
        DownloadStart::Start
    }

    /// Takes in a package that was fetched. What comes back is the news, and whether the user
    /// waits for it.
    pub fn download_done(&mut self, rel: &Release, current: &str, path: P) -> (r: (
        UpdateEvent,
        bool,
    ))
        ensures
            *final(self) == old(self).fetched(*rel, path),
            r.0@ == (EventView {
                downloaded_bytes: rel.asset_size,
                ..event_of("ready"@, current@, *rel)
            }),
            r.1 == old(self).install_when_ready,
    {
        let mut ev = update_event("ready", current, rel);
        ev.downloaded_bytes = rel.asset_size;
        self.downloading = false;
        self.downloaded = Some((rel.tag.clone(), path));
        (ev, self.install_when_ready)
    }

    /// Takes in that a package could not be fetched. There is news only where the user waits.
    pub fn download_failed(&mut self, rel: &Release, current: &str, message: String) -> (r: Option<
        UpdateEvent,
    >)
        ensures
            *final(self) == old(self).not_fetched(),
            match r {
                Some(ev) => old(self).install_when_ready && ev@ == (EventView {
                    message: message@,
                    ..event_of("error"@, current@, *rel)
                }),
                None => !old(self).install_when_ready,
            },
    {
        self.downloading = false;
        let wait = self.install_when_ready;
        self.install_when_ready = false;
        if wait {
            let mut ev = update_event("error", current, rel);
            ev.message = message;
            Some(ev)
        } else {
            None
        }
    }

    /// Finds the package to be installed, with the news that it is, and the news that it could not
    /// be. `message` is what the user is to do.
    pub fn launch_update(&self, current: &str, message: &str) -> (r: Option<
        (UpdateEvent, &P, UpdateEvent),
    >)
        ensures
            r is Some == self.installable(),
            r matches Some((ev, path, failed)) ==> {
                &&& ev@ == (EventView {
                    message: message@,
                    ..event_of("launching"@, current@, self.latest->0)
                })
                &&& *path == (self.downloaded->0).1
                &&& failed@ == (EventView {
                    message: "启动安装程序失败"@,
                    ..event_of("error"@, current@, self.latest->0)
                })
            },
    {
        match (&self.latest, &self.downloaded) {
            (Some(rel), Some(d)) => {
                if !same_text(d.0.as_str(), rel.tag.as_str()) {
                    return None;
                }
                let mut ev = update_event("launching", current, rel);
                ev.message = message.to_owned();
                let mut failed = update_event("error", current, rel);
                failed.message = "启动安装程序失败".to_owned();
                Some((ev, &d.1, failed))
            },
            _ => None,
        }
    }

    /// Takes in that the user asks to install.
    pub fn install_update(&mut self) -> (r: Result<InstallStep, String>)
        ensures
            *final(self) == old(self).wanted(),
            match old(self).latest {
                Some(rel) => r == Ok::<InstallStep, String>(
                    if old(self).has(rel) {
                        InstallStep::Launch
                    } else {
                        InstallStep::Fetch(rel)
                    },
                ),
                None => r matches Err(e) && e@ == "没有可用更新"@,
            },
    {
        let rel = match &self.latest {
            Some(rel) => rel.clone(),
            None => {
                return Err("没有可用更新".to_owned());
            },
        };
        if self.has_package(&rel) {
            return Ok(InstallStep::Launch);
        }
        self.install_when_ready = true;
        Ok(InstallStep::Fetch(rel))
    }

    /// Tests whether it is time to look for an update.
    pub fn check_due(&self, now_ms: i64) -> (r: bool)
        ensures
            r == (now_ms - self.last_check_ms >= CHECK_MS),
    {
        now_ms as i128 - self.last_check_ms as i128 >= CHECK_MS as i128
    }
}

/// Puts the news together how much was fetched, where it is time for it.
pub fn progress(
    rel: &Release,
    current: &str,
    done: u64,
    total: u64,
    last_ns: u64,
    mono_ns: u64,
) -> (r: Option<UpdateEvent>)
    ensures
        match r {
            Some(ev) => mono_ns - last_ns >= PROGRESS_NS && ev@ == (EventView {
                downloaded_bytes: done,
                total_bytes: total,
                ..event_of("downloading"@, current@, *rel)
            }),
            None => mono_ns - last_ns < PROGRESS_NS,
        },
{
    if mono_ns >= last_ns && mono_ns - last_ns >= PROGRESS_NS {
        let mut ev = update_event("downloading", current, rel);
        ev.downloaded_bytes = done;
        ev.total_bytes = total;
        Some(ev)
    } else {
        None
    }
}

/// A look that finds nothing is not noted: the next one is due when this one was.
pub proof fn lemma_failed_check_is_repeated<P>(m: UpdateMem<P>, now_ms: i64)
    ensures
        m.checked(None, now_ms) == (UpdateMem { checking: false, ..m }),
{
}

/// A package is installed only where it is that of the latest release: once a newer release is
/// found, one that was fetched before is not installed.
pub proof fn lemma_stale_package_is_not_installed<P>(m: UpdateMem<P>, rel: Release, now_ms: i64)
    requires
        !m.has(rel),
    ensures
        !m.checked(Some((rel, true)), now_ms).installable(),
{
}

/// Who asks to install before the package is there need not ask again: once it was fetched it can
/// be installed, and the panel knows that it is to be.
pub proof fn lemma_waiting_ends_with_package<P>(m: UpdateMem<P>, rel: Release, path: P)
    requires
        m.latest == Some(rel),
        !m.has(rel),
    ensures
        m.wanted().install_when_ready,
        m.wanted().fetching(rel).downloading,
        m.wanted().fetching(rel).fetched(rel, path).installable(),
        m.wanted().fetching(rel).fetched(rel, path).install_when_ready,
{
}

/// After a package could not be fetched, the user has to ask again.
pub proof fn lemma_failure_is_not_retried<P>(m: UpdateMem<P>, rel: Release, path: P)
    ensures
        !m.not_fetched().install_when_ready,
        !m.not_fetched().fetching(rel).fetched(rel, path).install_when_ready,
{
}

/// The panel is told of a release what it says of itself; its notes up to four hundred characters,
/// and an ellipsis where there are more.
pub proof fn lemma_news_tell_the_release(state: Seq<char>, current: Seq<char>, rel: Release)
    ensures
        ({
            let ev = event_of(state, current, rel);
            &&& ev.state == state
            &&& ev.current_version == current
            &&& ev.new_version == rel.version@
            &&& ev.release_url == rel.url@
            &&& ev.total_bytes == rel.asset_size
            &&& ev.downloaded_bytes == 0
            &&& ev.message.len() == 0
            &&& rel.notes@.len() <= 400 ==> ev.notes == rel.notes@
            &&& rel.notes@.len() > 400 ==> ev.notes.len() == 401 && ev.notes.take(400)
                == rel.notes@.take(400) && ev.notes.last() == '…'
        }),
{
    if rel.notes@.len() > 400 {
        assert(event_of(state, current, rel).notes.take(400) =~= rel.notes@.take(400));
    }
}

/// A look that finds a newer release notes it and the time, and fetches it unless it was fetched or
/// something is being fetched; one that finds none that is newer only notes the time.
pub proof fn lemma_newer_release_is_fetched<P>(m: UpdateMem<P>, rel: Release, now_ms: i64)
    ensures
        ({
            let n = m.checked(Some((rel, true)), now_ms);
            &&& n.latest == Some(rel)
            &&& n.last_check_ms == now_ms
            &&& !n.checking
            &&& n.downloaded == m.downloaded
            &&& n.install_when_ready == m.install_when_ready
            &&& (m.downloaded matches Some(d) && d.0@ == rel.tag@) ==> n.downloading == m.downloading
            &&& !(m.downloaded matches Some(d) && d.0@ == rel.tag@) ==> n.downloading
        }),
        ({
            let n = m.checked(Some((rel, false)), now_ms);
            &&& n.latest == m.latest
            &&& n.last_check_ms == now_ms
            &&& n.downloading == m.downloading
            &&& !n.checking
        }),
{
}

/// A release is fetched once, and only one at a time: who asks for one that was fetched is told that
/// it is ready, and who asks while something is being fetched has to wait.
pub proof fn lemma_one_release_is_fetched_at_a_time<P>(
    m: UpdateMem<P>,
    rel: Release,
    r: DownloadStart,
    current: Seq<char>,
)
    requires
        m.answers(r, rel, current),
    ensures
        ({
            let there = m.downloaded matches Some(d) && d.0@ == rel.tag@;
            &&& there <==> r is Ready
            &&& !there && m.downloading <==> r is Busy
            &&& !there && !m.downloading <==> r is Start
            &&& r is Start <==> m.fetching(rel).downloading && !m.downloading
            &&& m.downloading ==> m.fetching(rel) == m
            &&& r matches DownloadStart::Ready(ev) ==> ev.state@ == "ready"@ && ev.new_version@
                == rel.version@
        }),
{
}

/// A package that was fetched is the one that lies where it was put, under the tag of its release;
/// nothing is being fetched any more, and who waits goes on waiting until it is installed.
pub proof fn lemma_package_is_kept<P>(m: UpdateMem<P>, rel: Release, path: P)
    ensures
        ({
            let n = m.fetched(rel, path);
            &&& n.downloaded matches Some(d) && d.0@ == rel.tag@ && d.1 == path
            &&& !n.downloading
            &&& n.latest == m.latest
            &&& n.install_when_ready == m.install_when_ready
            &&& n.installable() == (m.latest matches Some(l) && l.tag@ == rel.tag@)
        }),
        ({
            let n = m.not_fetched();
            &&& !n.downloading
            &&& n.downloaded == m.downloaded
            &&& n.latest == m.latest
        }),
{
}

/// Each step of an update changes what it is about, and nothing else.
pub proof fn lemma_steps_change_nothing_else<P>(m: UpdateMem<P>, rel: Release, path: P, now_ms: i64)
    ensures
        m.fetched(rel, path).last_check_ms == m.last_check_ms,
        m.fetched(rel, path).checking == m.checking,
        m.not_fetched().last_check_ms == m.last_check_ms,
        m.not_fetched().checking == m.checking,
        m.checked(Some((rel, false)), now_ms).downloaded == m.downloaded,
        m.checked(Some((rel, false)), now_ms).install_when_ready == m.install_when_ready,
        m.fetching(rel) == (UpdateMem { downloading: m.fetching(rel).downloading, ..m }),
        m.wanted() == (UpdateMem { install_when_ready: m.wanted().install_when_ready, ..m }),
        m.install_when_ready ==> m.wanted().install_when_ready,
{
}

/// Who wants an update waits for it where there is one that was not fetched yet; without one, or with
/// one that lies there, there is nothing to wait for.
pub proof fn lemma_who_waits_for_a_package<P>(m: UpdateMem<P>)
    requires
        !m.install_when_ready,
    ensures
        m.wanted().install_when_ready == (m.latest matches Some(l) && !(m.downloaded matches Some(d)
            && d.0@ == l.tag@)),
        m.installable() == (m.latest matches Some(l) && m.downloaded matches Some(d) && d.0@
            == l.tag@),
{
}

} // verus!
