//! The window, the tray and the small commands of the panel.

use vstd::prelude::*;
use crate::text::{begins_with, starts_with, trim, trimmed};

verus! {

/// How the panel is shown.
#[derive(Clone, Copy, Debug, PartialEq, Eq, Structural)]
pub enum Mode {
    Full,
    Float,
}

impl Mode {
    /// The name of the mode.
    pub open spec fn name(self) -> Seq<char> {
        match self {
            Mode::Full => "full"@,
            Mode::Float => "float"@,
        }
    }

    /// The mode of that name; every other name is that of the full panel.
    pub open spec fn named(s: Seq<char>) -> Mode {
        if trimmed(s) == "float"@ {
            Mode::Float
        } else {
            Mode::Full
        }
    }

    /// Names the mode.
    pub fn as_str(self) -> (r: &'static str)
        ensures
            r@ == self.name(),
    {
        match self {
            Mode::Full => "full",
            Mode::Float => "float",
        }
    }

    /// Reads the name of a mode.
    pub fn parse(s: &str) -> (r: Mode)
        ensures
            r == Mode::named(s@),
    {
        if trim(s) == "float".to_owned() {
            Mode::Float
        } else {
            Mode::Full
        }
    }
}

/// What the floating window looks like.
#[derive(Clone, Copy, Debug, PartialEq, Eq, Structural)]
pub enum FloatStyle {
    Gauge,
    Pill,
    Pet,
}

impl FloatStyle {
    /// The name of the style.
    pub open spec fn name(self) -> Seq<char> {
        match self {
            FloatStyle::Gauge => "gauge"@,
            FloatStyle::Pill => "pill"@,
            FloatStyle::Pet => "pet"@,
        }
    }

    /// The style of that name; every other name is that of the gauge.
    pub open spec fn named(s: Seq<char>) -> FloatStyle {
        if trimmed(s) == "pill"@ {
            FloatStyle::Pill
        } else if trimmed(s) == "pet"@ {
            FloatStyle::Pet
        } else {
            FloatStyle::Gauge
        }
    }

    /// Names the style.
    pub fn as_str(self) -> (r: &'static str)
        ensures
            r@ == self.name(),
    {
        match self {
            FloatStyle::Gauge => "gauge",
            FloatStyle::Pill => "pill",
            FloatStyle::Pet => "pet",
        }
    }

    /// Reads the name of a style.
    pub fn parse(s: &str) -> (r: FloatStyle)
        ensures
            r == FloatStyle::named(s@),
    {
        let name = trim(s);
        if name == "pill".to_owned() {
            FloatStyle::Pill
        } else if name == "pet".to_owned() {
            FloatStyle::Pet
        } else {
            FloatStyle::Gauge
        }
    }
}

/// The names of modes and styles read as those modes and styles.
pub proof fn lemma_names_read_back(m: Mode, f: FloatStyle)
    ensures
        Mode::named(m.name()) == m,
        FloatStyle::named(f.name()) == f,
{
    reveal_strlit("full");
    reveal_strlit("float");
    reveal_strlit("gauge");
    reveal_strlit("pill");
    reveal_strlit("pet");
    assert("full"@.len() == 4 && "float"@.len() == 5);
    assert("gauge"@.len() == 5 && "pill"@.len() == 4 && "pet"@.len() == 3);
}

/// A place on the screen.
pub type Point = (i32, i32);

/// The places that the window had, each mode with its own, and the size of the pet.
#[derive(Clone, Copy, Debug, PartialEq, Eq)]
pub struct Persisted<P> {
    pub mode: Mode,
    pub style: FloatStyle,
    pub full_pos: Option<Point>,
    pub float_pos: Option<Point>,
    pub pet_size: Option<P>,
}

impl<P> Persisted<P> {
    /// The window is at a place in a mode; the place of the other mode is as it was.
    pub open spec fn placed(self, mode: Mode, at: Point) -> Persisted<P> {
        match mode {
            Mode::Full => Persisted { full_pos: Some(at), ..self },
            Mode::Float => Persisted { float_pos: Some(at), ..self },
        }
    }

    /// Remembers where the window is.
    pub fn remember(&mut self, mode: Mode, at: Point)
        ensures
            *final(self) == old(self).placed(mode, at),
    {
        match mode {
            Mode::Full => {
                self.full_pos = Some(at);
            },
            Mode::Float => {
                self.float_pos = Some(at);
            },
        }
    }
}

/// Changes the mode, after the place in the mode that ends was remembered where it is known. A
/// floating window does not go back to what filled the screen.
pub fn switch_mode<P>(
    p: &mut Persisted<P>,
    saved_max: &mut Option<Screen>,
    mode: Mode,
    at: Option<Point>,
)
    ensures
        *final(p) == (Persisted {
            mode,
            ..match at {
                Some(at) => old(p).placed(old(p).mode, at),
                None => *old(p),
            }
        }),
        *final(saved_max) == if mode is Float {
            None
        } else {
            *old(saved_max)
        },
{
    match mode {
        Mode::Float => {
            *saved_max = None;
        },
        Mode::Full => {},
    }
    let prev = p.mode;
    if let Some(at) = at {
        p.remember(prev, at);
    }
    p.mode = mode;
}

/// The state of the panel as it was saved.
#[derive(Debug, PartialEq)]
pub struct SavedState<P> {
    pub mode: String,
    pub style: String,
    pub full_pos: Option<Point>,
    pub float_pos: Option<Point>,
    pub pet_size: Option<P>,
}

/// The state that was saved: what was read; or, where the file holds something else, a text that
/// is the name of a mode; or nothing.
pub open spec fn restored<P>(raw: Option<String>, read: Option<SavedState<P>>) -> Persisted<P> {
    match (raw, read) {
        (Some(_), Some(p)) => Persisted {
            mode: Mode::named(p.mode@),
            style: FloatStyle::named(p.style@),
            full_pos: p.full_pos,
            float_pos: p.float_pos,
            pet_size: p.pet_size,
        },
        (Some(s), None) => Persisted {
            mode: Mode::named(s@),
            style: FloatStyle::Gauge,
            full_pos: None,
            float_pos: None,
            pet_size: None,
        },
        (None, _) => Persisted {
            mode: Mode::Full,
            style: FloatStyle::Gauge,
            full_pos: None,
            float_pos: None,
            pet_size: None,
        },
    }
}

/// Restores the state of the panel: `raw` is the text of its file, `read` what was read in it.
pub fn load_persisted<P>(raw: Option<String>, read: Option<SavedState<P>>) -> (r: Persisted<P>)
    ensures
        r == restored(raw, read),
{
    let mut r = Persisted {
        mode: Mode::Full,
        style: FloatStyle::Gauge,
        full_pos: None,
        float_pos: None,
        pet_size: None,
    };
    if let Some(s) = raw {
        match read {
            Some(p) => {
                r.mode = Mode::parse(p.mode.as_str());
                r.style = FloatStyle::parse(p.style.as_str());
                r.full_pos = p.full_pos;
                r.float_pos = p.float_pos;
                r.pet_size = p.pet_size;
            },
            None => {
                r.mode = Mode::parse(s.as_str());
            },
        }
    }
    r
}

impl<P: Copy> Persisted<P> {
    /// The state as it is saved.
    pub fn saved(&self) -> (r: SavedState<P>)
        ensures
            r.mode@ == self.mode.name(),
            r.style@ == self.style.name(),
            r.full_pos == self.full_pos,
            r.float_pos == self.float_pos,
            r.pet_size == self.pet_size,
    {
        SavedState {
            mode: self.mode.as_str().to_owned(),
            style: self.style.as_str().to_owned(),
            full_pos: self.full_pos,
            float_pos: self.float_pos,
            pet_size: self.pet_size,
        }
    }
}

/// What was saved is restored.
pub proof fn lemma_saved_state_comes_back<P>(raw: String, p: Persisted<P>, saved: SavedState<P>)
    requires
        saved.mode@ == p.mode.name(),
        saved.style@ == p.style.name(),
        saved.full_pos == p.full_pos,
        saved.float_pos == p.float_pos,
        saved.pet_size == p.pet_size,
    ensures
        restored(Some(raw), Some(saved)) == p,
{
    lemma_names_read_back(p.mode, p.style);
}

/// The modes have their own places: going to the other mode and back loses neither.
pub proof fn lemma_places_are_independent<P>(p: Persisted<P>, a: Point, b: Point)
    ensures
        p.placed(Mode::Full, a).placed(Mode::Float, b) == p.placed(Mode::Float, b).placed(
            Mode::Full,
            a,
        ),
        p.placed(Mode::Full, a).float_pos == p.float_pos,
        p.placed(Mode::Float, b).full_pos == p.full_pos,
{
}

/// What is asked of the window when it is to become a floating one.
#[derive(Clone, Copy, Debug, PartialEq, Eq, Structural)]
pub enum Collapse {
    /// Change to the floating window.
    Switch,
    /// It is one: bring it to the front.
    Show,
}

/// Decides how the panel becomes a floating window.
pub fn collapse_to_float(mode: Mode) -> (r: Collapse)
    ensures
        r == if mode is Full {
            Collapse::Switch
        } else {
            Collapse::Show
        },
{
    match mode {
        Mode::Full => Collapse::Switch,
        Mode::Float => Collapse::Show,
    }
}

/// Tests whether the pet is what is shown.
pub fn pet_shown(mode: Mode, style: FloatStyle) -> (r: bool)
    ensures
        r == (mode is Float && style is Pet),
{
    mode == Mode::Float && style == FloatStyle::Pet
}

/// The other mode.
pub fn toggled(mode: Mode) -> (r: Mode)
    ensures
        r != mode,
{
    match mode {
        Mode::Full => Mode::Float,
        Mode::Float => Mode::Full,
    }
}

/// A screen, or a part of one.
#[derive(Clone, Copy, Debug, PartialEq, Eq, Structural)]
pub struct Screen {
    pub x: i32,
    pub y: i32,
    pub width: u32,
    pub height: u32,
}

/// The place nearest to `x` at which a length of `w` lies within one of `width` that starts at
/// `start`; where it does not fit, the start.
pub open spec fn pulled_in(x: int, start: int, width: int, w: int) -> int {
    let last = if width > w {
        start + width - w
    } else {
        start
    };
    if x < start {
        start
    } else if x > last {
        last
    } else {
        x
    }
}

fn pull_in(x: i32, start: i32, width: u32, w: u32) -> (r: i32)
    ensures
        r == pulled_in(x as int, start as int, width as int, w as int),
{
    let last: i64 = if width > w {
        start as i64 + width as i64 - w as i64
    } else {
        start as i64
    };
    if x < start {
        start
    } else if (x as i64) > last {
        last as i32
    } else {
        x
    }
}

/// Pulls a window of the given size back onto the screen. Without a screen it stays where it is.
pub fn clamp_to_screen(screen: Option<Screen>, x: i32, y: i32, w: u32, h: u32) -> (r: (i32, i32))
    ensures
        match screen {
            Some(s) => {
                &&& r.0 == pulled_in(x as int, s.x as int, s.width as int, w as int)
                &&& r.1 == pulled_in(y as int, s.y as int, s.height as int, h as int)
            },
            None => r == (x, y),
        },
{
    match screen {
        Some(s) => (pull_in(x, s.x, s.width, w), pull_in(y, s.y, s.height, h)),
        None => (x, y),
    }
}

/// A window that was pulled back lies on the screen, where it fits; and one that lay there stays
/// where it is.
pub proof fn lemma_window_lies_on_screen(x: int, start: int, width: int, w: int)
    requires
        0 <= w <= width,
    ensures
        start <= pulled_in(x, start, width, w),
        pulled_in(x, start, width, w) + w <= start + width,
        start <= x && x + w <= start + width ==> pulled_in(x, start, width, w) == x,
{
}

/// The place of a floating window that has none yet: in the middle of the window as it is.
pub open spec fn centred(pos: int, size: int, w: int) -> int {
    pos + size / 2 - w / 2
}

/// Where the window goes before it is pulled onto the screen: the full panel to its own place,
/// where it has one; the floating window to its own place, or to the middle of the window as it
/// is.
pub open spec fn target_of(
    mode: Mode,
    full_pos: Option<Point>,
    float_pos: Option<Point>,
    now: Screen,
    size: (u32, u32),
) -> Option<(int, int)> {
    match mode {
        Mode::Full => match full_pos {
            Some(p) => Some((p.0 as int, p.1 as int)),
            None => None,
        },
        Mode::Float => Some(
            match float_pos {
                Some(p) => (p.0 as int, p.1 as int),
                None => (
                    centred(now.x as int, now.width as int, size.0 as int),
                    centred(now.y as int, now.height as int, size.1 as int),
                ),
            },
        ),
    }
}

/// Decides where the window goes before it is pulled onto the screen. `now` is where it is, `size`
/// how large it will be.
pub fn window_target(
    mode: Mode,
    full_pos: Option<Point>,
    float_pos: Option<Point>,
    now: Screen,
    size: (u32, u32),
) -> (r: Option<(i64, i64)>)
    ensures
        match r {
            Some((x, y)) => target_of(mode, full_pos, float_pos, now, size) == Some(
                (x as int, y as int),
            ),
            None => target_of(mode, full_pos, float_pos, now, size) is None,
        },
{
    match mode {
        Mode::Full => match full_pos {
            Some(p) => Some((p.0 as i64, p.1 as i64)),
            None => None,
        },
        Mode::Float => match float_pos {
            Some(p) => Some((p.0 as i64, p.1 as i64)),
            None => Some(
                (
                    now.x as i64 + (now.width / 2) as i64 - (size.0 / 2) as i64,
                    now.y as i64 + (now.height / 2) as i64 - (size.1 / 2) as i64,
                ),
            ),
        },
    }
}

/// How large the window is, in logical pixels.
#[derive(Clone, Copy, Debug, PartialEq, Eq, Structural)]
pub enum WindowSize {
    Fixed { width: u32, height: u32 },
    /// As large as the pet was made, with room for what it says.
    Pet,
}

/// What is asked of the window in a mode.
#[derive(Clone, Copy, Debug, PartialEq, Eq)]
pub struct WindowPlan {
    /// The least size, in logical pixels.
    pub min_size: Option<(u32, u32)>,
    pub size: WindowSize,
    pub decorations: bool,
    /// The application shows itself in the dock.
    pub in_dock: bool,
    pub resizable: bool,
    pub always_on_top: bool,
    pub skip_taskbar: bool,
    pub shadow: bool,
}

/// What is asked of the window: the full panel is a window as others are, the floating one stays
/// on top and is in no bar. Only where the system draws the frame (`native_frame`) does the full
/// panel have one.
pub open spec fn plan_of(mode: Mode, style: FloatStyle, native_frame: bool) -> WindowPlan {
    match mode {
        Mode::Full => WindowPlan {
            min_size: Some((720, 520)),
            size: WindowSize::Fixed { width: 1000, height: 800 },
            decorations: native_frame,
            in_dock: true,
            resizable: true,
            always_on_top: false,
            skip_taskbar: false,
            shadow: true,
        },
        Mode::Float => WindowPlan {
            min_size: None,
            size: match style {
                FloatStyle::Gauge => WindowSize::Fixed { width: 148, height: 148 },
                FloatStyle::Pill => WindowSize::Fixed { width: 172, height: 72 },
                FloatStyle::Pet => WindowSize::Pet,
            },
            decorations: false,
            in_dock: false,
            resizable: false,
            always_on_top: true,
            skip_taskbar: true,
            shadow: false,
        },
    }
}

/// Decides what is asked of the window.
pub fn apply_mode(mode: Mode, style: FloatStyle, native_frame: bool) -> (r: WindowPlan)
    ensures
        r == plan_of(mode, style, native_frame),
{
    match mode {
        Mode::Full => WindowPlan {
            min_size: Some((720, 520)),
            size: WindowSize::Fixed { width: 1000, height: 800 },
            decorations: native_frame,
            in_dock: true,
            resizable: true,
            always_on_top: false,
            skip_taskbar: false,
            shadow: true,
        },
        Mode::Float => WindowPlan {
            min_size: None,
            size: match style {
                FloatStyle::Gauge => WindowSize::Fixed { width: 148, height: 148 },
                FloatStyle::Pill => WindowSize::Fixed { width: 172, height: 72 },
                FloatStyle::Pet => WindowSize::Pet,
            },
            decorations: false,
            in_dock: false,
            resizable: false,
            always_on_top: true,
            skip_taskbar: true,
            shadow: false,
        },
    }
}

/// What becomes of the window when it is to fill the screen, or to stop doing so.
#[derive(Clone, Copy, Debug, PartialEq, Eq, Structural)]
pub enum Maximize {
    /// Go back to this.
    Restore(Screen),
    /// Fill this; `y` may lie beyond what a place can hold.
    Fill { x: i32, y: i64, width: u32, height: u32 },
    /// Leave it to the system.
    Native,
}

/// What becomes of the window, and what is remembered to go back to: a second time goes back; a
/// first time fills the screen below the bar at its top.
pub open spec fn maximized(
    saved: Option<Screen>,
    now: Screen,
    screen: Option<(Screen, u32)>,
) -> (Option<Screen>, Maximize) {
    match saved {
        Some(s) => (None, Maximize::Restore(s)),
        None => (
            Some(now),
            match screen {
                Some((s, top)) => Maximize::Fill {
                    x: s.x,
                    y: (s.y + top) as i64,
                    width: s.width,
                    height: if s.height >= top {
                        (s.height - top) as u32
                    } else {
                        0
                    },
                },
                None => Maximize::Native,
            },
        ),
    }
}

/// Decides what becomes of the window when it is to fill the screen, or to stop doing so. `screen`
/// is the screen that it is on, with the height of the bar at its top.
pub fn toggle_maximize(saved: Option<Screen>, now: Screen, screen: Option<(Screen, u32)>) -> (r: (
    Option<Screen>,
    Maximize,
))
    ensures
        r == maximized(saved, now, screen),
{
    match saved {
        Some(s) => (None, Maximize::Restore(s)),
        None => (
            Some(now),
            match screen {
                Some((s, top)) => Maximize::Fill {
                    x: s.x,
                    y: s.y as i64 + top as i64,
                    width: s.width,
                    height: s.height.saturating_sub(top),
                },
                None => Maximize::Native,
            },
        ),
    }
}

/// Filling the screen and stopping to do so brings the window back to where it was.
pub proof fn lemma_maximize_twice_restores(now: Screen, later: Screen, screen: Option<(Screen, u32)>)
    ensures
        maximized(maximized(None, now, screen).0, later, screen) == (
            None::<Screen>,
            Maximize::Restore(now),
        ),
{
}

/// So many ticks in a row make a change of the pet's height certain.
pub const PET_STREAK: u32 = 3;

/// Whether the pet is tall after a tick, and how many ticks in a row have asked for the other
/// height: the height changes with the third of them, and a tick that asks for the height that the
/// pet has starts the count over.
pub open spec fn pet_after(tall: bool, streak: u32, multi: bool) -> (bool, u32) {
    if multi == tall {
        (tall, 0)
    } else if streak + 1 >= PET_STREAK {
        (multi, 0)
    } else {
        (tall, (streak + 1) as u32)
    }
}

/// Takes in a tick, in which several tasks run or not, and tells whether the pet is to be tall.
pub fn pet_streak(tall: bool, streak: u32, multi: bool) -> (r: (bool, u32))
    ensures
        r == pet_after(tall, streak, multi),
{
    if multi == tall {
        (tall, 0)
    } else if streak >= PET_STREAK - 1 {
        (multi, 0)
    } else {
        (tall, streak + 1)
    }
}

/// The pet after a run of ticks; at first it is not tall.
pub open spec fn pet_over(ticks: Seq<bool>) -> (bool, u32)
    decreases ticks.len(),
{
    if ticks.len() == 0 {
        (false, 0)
    } else {
        let (tall, streak) = pet_over(ticks.drop_last());
        pet_after(tall, streak, ticks.last())
    }
}

/// The last three ticks all say the same.
pub open spec fn three_in_a_row(ticks: Seq<bool>, multi: bool) -> bool {
    let n = ticks.len();
    n >= 3 && ticks[n - 1] == multi && ticks[n - 2] == multi && ticks[n - 3] == multi
}

proof fn lemma_pet_counts_the_row(ticks: Seq<bool>)
    ensures
        ({
            let (tall, streak) = pet_over(ticks);
            let n = ticks.len();
            &&& streak < PET_STREAK
            &&& streak <= n
            &&& forall|i: int| n - streak <= i < n ==> #[trigger] ticks[i] != tall
            &&& streak < n ==> ticks[n - 1 - streak] == tall
        }),
    decreases ticks.len(),
{
    if ticks.len() > 0 {
        let before = ticks.drop_last();
        lemma_pet_counts_the_row(before);
        let (tall, streak) = pet_over(before);
        assert forall|i: int| before.len() - streak <= i < before.len() implies #[trigger] ticks[i]
            != tall by {
            assert(before[i] == ticks[i]);
        }
        if streak < before.len() {
            assert(before[before.len() - 1 - streak] == ticks[before.len() - 1 - streak]);
        }
    }
}

/// Three ticks in a row decide the pet's height, whether they make it tall or short, and nothing
/// less than three ticks in a row changes it.
pub proof fn lemma_pet_follows_three_in_a_row(ticks: Seq<bool>, multi: bool)
    ensures
        three_in_a_row(ticks, multi) ==> pet_over(ticks).0 == multi,
        ticks.len() > 0 && pet_over(ticks).0 != pet_over(ticks.drop_last()).0 ==> three_in_a_row(
            ticks,
            pet_over(ticks).0,
        ),
{
    lemma_pet_counts_the_row(ticks);
    if ticks.len() > 0 {
        let before = ticks.drop_last();
        lemma_pet_counts_the_row(before);
        let n = ticks.len();
        if pet_over(ticks).0 != pet_over(before).0 {
            assert(before[n - 2] == ticks[n - 2]);
            assert(before[n - 3] == ticks[n - 3]);
        }
    }
}

/// Places are saved at most every two seconds while the window is dragged.
pub const POSITION_SAVE_NS: u64 = 2_000_000_000;

/// Tests whether the place of the window is to be saved again.
pub fn position_due(last_ns: Option<u64>, mono_ns: u64) -> (r: bool)
    ensures
        r == match last_ns {
            Some(t) => mono_ns - t > POSITION_SAVE_NS,
            None => true,
        },
{
    match last_ns {
        Some(t) => mono_ns > t && mono_ns - t > POSITION_SAVE_NS,
        None => true,
    }
}

/// The log is put aside when it is larger than this.
pub const DEBUG_LOG_MAX: u64 = 8_388_608;

/// Logs that were put aside are kept for a week.
pub const DEBUG_LOG_KEEP_NS: u128 = 604_800_000_000_000;

/// Tests whether the log is to be put aside before more is written.
pub fn rotate_due(written: u64) -> (r: bool)
    ensures
        r == (written > DEBUG_LOG_MAX),
{
    written > DEBUG_LOG_MAX
}

/// Tests whether a file is a log that was put aside and is too old. The age is not known where the
/// file bears a time to come.
pub fn stale_log(name: &str, age_ns: Option<u128>) -> (r: bool)
    ensures
        r == (begins_with(name@, "speed-panel-debug.jsonl."@) && (age_ns matches Some(age) && age
            > DEBUG_LOG_KEEP_NS)),
{
    starts_with(name, "speed-panel-debug.jsonl.") && match age_ns {
        Some(age) => age > DEBUG_LOG_KEEP_NS,
        None => false,
    }
}

/// Each mode remembers its own place.
pub proof fn lemma_place_is_remembered<P>(p: Persisted<P>, a: Point)
    ensures
        p.placed(Mode::Full, a).full_pos == Some(a),
        p.placed(Mode::Float, a).float_pos == Some(a),
        p.placed(Mode::Full, a).mode == p.mode,
        p.placed(Mode::Float, a).style == p.style,
        p.placed(Mode::Full, a).pet_size == p.pet_size,
{
}

/// Without a file the panel starts as the full one, with the gauge and without places; and a file
/// that holds no more than the name of a mode tells the mode.
pub proof fn lemma_panel_starts_full<P>(raw: String, m: Mode)
    ensures
        ({
            let r = restored::<P>(None, None);
            r.mode == Mode::Full && r.style == FloatStyle::Gauge && r.full_pos is None
                && r.float_pos is None && r.pet_size is None
        }),
        raw@ == m.name() ==> restored::<P>(Some(raw), None).mode == m,
        restored::<P>(Some(raw), None).full_pos is None,
        restored::<P>(Some(raw), None).float_pos is None,
{
    lemma_names_read_back(m, FloatStyle::Gauge);
}

/// A window is pulled back no farther than it has to be: one that lies too far to one side comes to
/// lie at that side of the screen, and one that is too large at its start.
pub proof fn lemma_window_is_pulled_to_the_side(x: int, start: int, width: int, w: int)
    requires
        0 <= w,
        0 <= width,
    ensures
        x < start ==> pulled_in(x, start, width, w) == start,
        w <= width && x + w > start + width ==> pulled_in(x, start, width, w) + w == start + width,
        w > width ==> pulled_in(x, start, width, w) == start,
{
}

/// The window goes to the place that the mode has. The full panel without one stays where it is, and
/// a floating window without one takes the middle of the window as it was.
pub proof fn lemma_window_goes_to_its_place(
    full_pos: Option<Point>,
    float_pos: Option<Point>,
    now: Screen,
    size: (u32, u32),
)
    ensures
        full_pos matches Some(p) ==> target_of(Mode::Full, full_pos, float_pos, now, size) == Some(
            (p.0 as int, p.1 as int),
        ),
        full_pos is None ==> target_of(Mode::Full, full_pos, float_pos, now, size) is None,
        float_pos matches Some(p) ==> target_of(Mode::Float, full_pos, float_pos, now, size)
            == Some((p.0 as int, p.1 as int)),
        float_pos is None ==> {
            &&& target_of(Mode::Float, full_pos, float_pos, now, size) matches Some((x, y))
            &&& -1 <= (2 * x + size.0) - (2 * now.x + now.width) <= 1
            &&& -1 <= (2 * y + size.1) - (2 * now.y + now.height) <= 1
        },
{
}

/// The full panel is a window as others are: it can be resized, lies in the bar and in the dock, and
/// not above others; the floating one stays above all others, cannot be resized, has no frame, and
/// lies in no bar. Only the full panel has a least size, and it is larger than that.
pub proof fn lemma_floating_window_stays_on_top(style: FloatStyle, native_frame: bool)
    ensures
        ({
            let (full, float) = (
                plan_of(Mode::Full, style, native_frame),
                plan_of(Mode::Float, style, native_frame),
            );
            &&& float.always_on_top && !full.always_on_top
            &&& float.skip_taskbar && !full.skip_taskbar
            &&& !float.resizable && full.resizable
            &&& !float.decorations && full.decorations == native_frame
            &&& !float.in_dock && full.in_dock
            &&& !float.shadow && full.shadow
            &&& float.min_size is None
            &&& full.min_size == Some((720u32, 520u32))
            &&& full.size == (WindowSize::Fixed { width: 1000, height: 800 })
            &&& float.size is Pet == (style == FloatStyle::Pet)
            &&& style == FloatStyle::Gauge ==> float.size == (WindowSize::Fixed {
                width: 148,
                height: 148,
            })
            &&& style == FloatStyle::Pill ==> float.size == (WindowSize::Fixed {
                width: 172,
                height: 72,
            })
        }),
{
}

/// A window that fills the screen lies below the bar at its top and reaches to its other sides, and
/// what it was before is remembered.
pub proof fn lemma_window_fills_the_screen(now: Screen, screen: Screen, top: u32)
    requires
        top <= screen.height,
    ensures
        ({
            let (saved, what) = maximized(None, now, Some((screen, top)));
            &&& saved == Some(now)
            &&& what is Fill
            &&& what->x == screen.x
            &&& what->width == screen.width
            &&& what->y == screen.y + top
            &&& what->y + what->height == screen.y + screen.height
        }),
        maximized(None, now, None) == (Some(now), Maximize::Native),
{
}

/// What names no mode stands for the full panel, and what names no style for the gauge; white around
/// a name does not matter.
pub proof fn lemma_other_names_stand_for_the_first(s: Seq<char>)
    ensures
        Mode::named(s) == Mode::Float ==> trimmed(s) == "float"@,
        Mode::named(s) == Mode::Full ==> trimmed(s) != "float"@,
        FloatStyle::named(s) == FloatStyle::Pill ==> trimmed(s) == "pill"@,
        FloatStyle::named(s) == FloatStyle::Pet ==> trimmed(s) == "pet"@,
        trimmed(s) != "pill"@ && trimmed(s) != "pet"@ ==> FloatStyle::named(s) == FloatStyle::Gauge,
{
}

/// What a file says that cannot be read as a state is no more than the mode; and what is given
/// without a file does not count.
pub proof fn lemma_only_a_file_counts<P>(raw: String, saved: SavedState<P>)
    ensures
        ({
            let r = restored::<P>(Some(raw), None);
            r.style == FloatStyle::Gauge && r.pet_size is None && r.full_pos is None && r.float_pos
                is None
        }),
        restored(None, Some(saved)) == restored::<P>(None, None),
        restored(Some(raw), Some(saved)).full_pos == saved.full_pos,
        restored(Some(raw), Some(saved)).float_pos == saved.float_pos,
        restored(Some(raw), Some(saved)).pet_size == saved.pet_size,
{
}

/// Remembering a place changes nothing else.
pub proof fn lemma_place_changes_nothing_else<P>(p: Persisted<P>, m: Mode, a: Point)
    ensures
        p.placed(m, a).mode == p.mode,
        p.placed(m, a).style == p.style,
        p.placed(m, a).pet_size == p.pet_size,
        m == Mode::Full ==> p.placed(m, a).full_pos == Some(a) && p.placed(m, a).float_pos
            == p.float_pos,
        m == Mode::Float ==> p.placed(m, a).float_pos == Some(a) && p.placed(m, a).full_pos
            == p.full_pos,
{
}

/// A bar that is higher than the screen leaves nothing of it.
pub proof fn lemma_bar_leaves_nothing(now: Screen, screen: Screen, top: u32)
    requires
        top > screen.height,
    ensures
        maximized(None, now, Some((screen, top))).1 matches Maximize::Fill { height, .. } && height
            == 0,
{
}

} // verus!
