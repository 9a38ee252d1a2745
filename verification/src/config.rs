//! Persisted settings.
//!
//! Every setting is saved the moment it changes, which naively would mean a disk
//! write per pixel of slider travel. Instead writes are **debounced** (quiet
//! period) with a **maximum delay** so a long drag still checkpoints.

use vstd::prelude::*;

use crate::encode::EncodeSettings;
use crate::fixed::{Real, UNIT};
use crate::queue::{is_subsequence, nothing_is_left_out, one_more};

verus! {

/// The quiet period before a write, in nanoseconds.
pub const DEBOUNCE: u128 = 400_000_000;

/// Longest a change may sit unwritten while updates keep arriving, in
/// nanoseconds.
pub const MAX_DELAY: u128 = 2_000_000_000;

/// How long to wait at a time while there is nothing to write, in nanoseconds.
pub const IDLE: u128 = 3_600_000_000_000;

// ---- settings -----------------------------------------------------------------

#[derive(Debug, Clone, Copy, PartialEq, Eq, Structural)]
pub struct WindowState {
    pub width: u32,
    pub height: u32,
    /// Top-left in physical pixels. `None` lets the window manager place it,
    /// which is the right behaviour on a first run.
    pub x: Option<i32>,
    pub y: Option<i32>,
    pub maximized: bool,
}

impl Default for WindowState {
    fn default() -> (r: Self)
        ensures
            r == WindowState::initial(),
    {
        WindowState { width: 1280, height: 800, x: None, y: None, maximized: false }
    }
}

/// A coordinate that some monitor may show.
pub open spec fn on_screen(v: i32) -> bool {
    -32_000 < v < 32_000
}

impl WindowState {
    pub open spec fn initial() -> WindowState {
        WindowState { width: 1280, height: 800, x: None, y: None, maximized: false }
    }

    /// Whether a saved position is worth restoring.
    ///
    /// A monitor that has been unplugged since the last run would otherwise put
    /// the window somewhere unreachable, so absurd coordinates are discarded.
    pub fn usable_position(&self) -> (r: Option<(i32, i32)>)
        ensures
            r == match (self.x, self.y) {
                (Some(x), Some(y)) if on_screen(x) && on_screen(y) => Some((x, y)),
                _ => None,
            },
    {
        match (self.x, self.y) {
            (Some(x), Some(y)) => {
                if x > -32_000 && x < 32_000 && y > -32_000 && y < 32_000 {
                    Some((x, y))
                } else {
                    None
                }
            },
            _ => None,
        }
    }
}

/// What the user chose, kept from one run to the next.
#[derive(Debug, Clone, PartialEq, Eq)]
pub struct Settings {
    pub input_folder: Option<String>,
    pub output_folder: Option<String>,
    /// mpv's scale: 0-130, where 100 is unattenuated.
    pub volume: Real,
    pub muted: bool,
    pub encoding: EncodeSettings,
    pub encoding_panel_expanded: bool,
    pub output_panel_expanded: bool,
    /// Explicit ffmpeg location; `None` means "find it on PATH".
    pub ffmpeg_path: Option<String>,
    pub window: WindowState,
}

impl Default for Settings {
    fn default() -> (r: Self)
        ensures
            r == Settings::initial(),
    {
        Settings {
            input_folder: None,
            output_folder: None,
            volume: Real::Finite(100_000_000_000),
            muted: false,
            encoding: EncodeSettings::default(),
            encoding_panel_expanded: false,
            output_panel_expanded: true,
            ffmpeg_path: None,
            window: WindowState::default(),
        }
    }
}

/// The volume within mpv's scale, in billionths. What is no number is taken as
/// unattenuated.
pub open spec fn volume_within(volume: Real) -> Real {
    match volume {
        Real::Finite(v) => if v < 0 {
            Real::Finite(0)
        } else if v > 130 * UNIT {
            Real::Finite((130 * UNIT) as i128)
        } else {
            volume
        },
        _ => Real::Finite((100 * UNIT) as i128),
    }
}

pub open spec fn held(v: u32, low: u32, high: u32) -> u32 {
    if v < low {
        low
    } else if v > high {
        high
    } else {
        v
    }
}

/// `v`, held between `low` and `high`.
pub fn hold(v: u32, low: u32, high: u32) -> (r: u32)
    ensures
        r == held(v, low, high),
{
    if v < low {
        low
    } else if v > high {
        high
    } else {
        v
    }
}

impl Settings {
    pub open spec fn initial() -> Settings {
        Settings {
            input_folder: None,
            output_folder: None,
            volume: Real::Finite(100_000_000_000),
            muted: false,
            encoding: EncodeSettings::initial(),
            encoding_panel_expanded: false,
            output_panel_expanded: true,
            ffmpeg_path: None,
            window: WindowState::initial(),
        }
    }

    /// The same settings, with the volume, the quality and the window's size in range.
    pub open spec fn in_range(self) -> Settings {
        let (low, high) = self.encoding.video.quality_ends();
        Settings {
            volume: volume_within(self.volume),
            encoding: EncodeSettings {
                quality: held(self.encoding.quality, low, high),
                ..self.encoding
            },
            window: WindowState {
                width: held(self.window.width, 640, 16_384),
                height: held(self.window.height, 480, 16_384),
                ..self.window
            },
            ..self
        }
    }

    /// Clamp anything a hand-edited config could put out of range.
    pub fn sanitized(self) -> (r: Self)
        ensures
            r == self.in_range(),
    {
        let volume: Real = match self.volume {
            Real::Finite(v) => if v < 0 {
                Real::Finite(0)
            } else if v > 130_000_000_000 {
                Real::Finite(130_000_000_000)
            } else {
                Real::Finite(v)
            },
            _ => Real::Finite(100_000_000_000),
        };
        let window: WindowState = WindowState {
            width: hold(self.window.width, 640, 16_384),
            height: hold(self.window.height, 480, 16_384),
            ..self.window
        };
        let (low, high, _): (u32, u32, u32) = self.encoding.video.quality_range();
        let encoding: EncodeSettings = EncodeSettings {
            quality: hold(self.encoding.quality, low, high),
            ..self.encoding
        };
        Settings { volume, encoding, window, ..self }
    }
}

/// What was found in the place of the settings.
#[derive(Debug)]
pub enum Stored {
    /// Nothing that could be read.
    Unreadable,
    /// Text that is no settings.
    Invalid,
    /// Settings, as they were written.
    Parsed(Settings),
}

/// The settings to start with: those stored, in range; or the defaults.
pub fn load_from(stored: Stored) -> (r: Settings)
    ensures
        r == match stored {
            Stored::Parsed(s) => s.in_range(),
            _ => Settings::initial(),
        },
{
    match stored {
        Stored::Parsed(s) => s.sanitized(),
        _ => Settings::default(),
    }
}

// ---- the writer ---------------------------------------------------------------

/// What the writer is told.
#[derive(Debug)]
pub enum WriterEvent<T> {
    /// A value to be saved.
    Received(T),
    /// Nothing came for as long as it waited.
    TimedOut,
    /// No more will come.
    Disconnected,
}

/// What the writer does next.
#[derive(Debug)]
pub enum WriterAction<T> {
    Wait,
    /// Write this, then wait.
    Write(T),
    /// Write this, if there is anything, and stop.
    Stop(Option<T>),
}

/// What an action writes.
pub open spec fn written<T>(action: WriterAction<T>) -> Option<T> {
    match action {
        WriterAction::Wait => None,
        WriterAction::Write(value) => Some(value),
        WriterAction::Stop(value) => value,
    }
}

/// What is unwritten after an event, and what the event had written.
pub open spec fn step<T>(pending: Option<T>, event: WriterEvent<T>) -> (Option<T>, Option<T>) {
    match event {
        WriterEvent::Received(value) => (Some(value), None),
        _ => (None, pending),
    }
}

/// How long to wait at `now`: the quiet period, but not beyond the longest delay
/// since the first unwritten change. Without one, there is nothing to wait for.
pub open spec fn wait(since: Option<u128>, quiet: int, longest: int, now: int) -> int {
    match since {
        None => IDLE as int,
        Some(first) => {
            let elapsed = if now > first {
                now - first
            } else {
                0
            };
            let left = if longest > elapsed {
                longest - elapsed
            } else {
                0
            };
            if quiet < left {
                quiet
            } else {
                left
            }
        },
    }
}

/// The background writer: what it still has to write, and since when. Times are
/// nanoseconds on one clock.
#[derive(Debug)]
pub struct Writer<T> {
    pending: Option<T>,
    oldest: Option<u128>,
    debounce: u128,
    max_delay: u128,
}

impl<T> Writer<T> {
    /// The value to be written.
    pub closed spec fn unwritten(&self) -> Option<T> {
        self.pending
    }

    /// When the first change came that is not written yet.
    pub closed spec fn since(&self) -> Option<u128> {
        self.oldest
    }

    pub closed spec fn quiet(&self) -> u128 {
        self.debounce
    }

    pub closed spec fn longest(&self) -> u128 {
        self.max_delay
    }

    /// The clock runs exactly while something is unwritten.
    pub open spec fn wf(&self) -> bool {
        self.unwritten() is Some <==> self.since() is Some
    }

    pub fn new(debounce: u128, max_delay: u128) -> (r: Self)
        ensures
            r.wf(),
            r.unwritten() is None,
            r.quiet() == debounce,
            r.longest() == max_delay,
    {
        Writer { pending: None, oldest: None, debounce, max_delay }
    }

    /// How long to wait for the next event.
    ///
    /// Indefinitely when idle; otherwise until the quiet period elapses, capped
    /// so a continuous stream of changes still gets checkpointed.
    pub fn timeout(&self, now: u128) -> (r: u128)
        ensures
            r == wait(self.since(), self.quiet() as int, self.longest() as int, now as int),
    {
        match self.oldest {
            None => IDLE,
            Some(first) => {
                let elapsed: u128 = if now > first {
                    now - first
                } else {
                    0
                };
                let left: u128 = if self.max_delay > elapsed {
                    self.max_delay - elapsed
                } else {
                    0
                };
                if self.debounce < left {
                    self.debounce
                } else {
                    left
                }
            },
        }
    }

    /// Take an event, and tell what to do.
    pub fn on_event(&mut self, event: WriterEvent<T>, now: u128) -> (r: WriterAction<T>)
        requires
            old(self).wf(),
        ensures
            final(self).wf(),
            final(self).quiet() == old(self).quiet(),
            final(self).longest() == old(self).longest(),
            (final(self).unwritten(), written(r)) == step(old(self).unwritten(), event),
            r is Stop <==> event is Disconnected,
            r is Wait <==> event !is Disconnected && written(r) is None,
            event is Received ==> final(self).since() == match old(self).since() {
                Some(first) => Some(first),
                None => Some(now),
            },
    {
        match event {
            WriterEvent::Received(value) => {
                if self.pending.is_none() {
                    self.oldest = Some(now);
                }
                self.pending = Some(value);
                WriterAction::Wait
            },
            WriterEvent::TimedOut => {
                self.oldest = None;
                match self.pending.take() {
                    Some(value) => WriterAction::Write(value),
                    None => WriterAction::Wait,
                }
            },
            WriterEvent::Disconnected => {
                self.oldest = None;
                WriterAction::Stop(self.pending.take())
            },
        }
    }
}

// ---- laws ---------------------------------------------------------------------

/// Settings once in range stay as they are, and the defaults are in range.
pub proof fn settings_in_range_stay(s: Settings)
    ensures
        s.in_range().in_range() == s.in_range(),
        Settings::initial().in_range() == Settings::initial(),
        s.in_range().volume matches Real::Finite(v) && 0 <= v <= 130 * UNIT,
        s.encoding.video.quality_ends().0 <= s.in_range().encoding.quality
            <= s.encoding.video.quality_ends().1,
        s.in_range().encoding.video == s.encoding.video,
        640 <= s.in_range().window.width <= 16_384,
        480 <= s.in_range().window.height <= 16_384,
{
}

/// What the writer has written and still has to write after some events.
pub ghost struct Written<T> {
    pub pending: Option<T>,
    pub writes: Seq<T>,
}

/// What the events lead to, one step after the other.
pub open spec fn after_events<T>(events: Seq<WriterEvent<T>>) -> Written<T>
    decreases events.len(),
{
    if events.len() == 0 {
        Written { pending: None, writes: seq![] }
    } else {
        let before = after_events(events.drop_last());
        let (pending, written) = step(before.pending, events.last());
        Written {
            pending,
            writes: match written {
                Some(value) => before.writes.push(value),
                None => before.writes,
            },
        }
    }
}

/// The values received, in order.
pub open spec fn received<T>(events: Seq<WriterEvent<T>>) -> Seq<T>
    decreases events.len(),
{
    if events.len() == 0 {
        seq![]
    } else {
        match events.last() {
            WriterEvent::Received(value) => received(events.drop_last()).push(value),
            _ => received(events.drop_last()),
        }
    }
}

/// The last value wins: at any time it is either still to be written or what was
/// written last, and once the writer is told that no more will come, it is
/// written. Nothing is written that was not received, nor in another order.
pub proof fn the_last_value_is_never_lost<T>(events: Seq<WriterEvent<T>>)
    ensures
        ({
            let now = after_events(events);
            let end = after_events(events.push(WriterEvent::Disconnected));
            let all = received(events);
            &&& is_subsequence(now.writes, all)
            &&& now.pending matches Some(value) ==> is_subsequence(now.writes.push(value), all)
            &&& is_subsequence(end.writes, all)
            &&& end.pending is None
            &&& all.len() == 0 ==> now.pending is None && now.writes.len() == 0
                && end.writes.len() == 0
            &&& all.len() > 0 ==> {
                &&& now.pending == Some(all.last()) || now.pending is None && now.writes.len() > 0
                    && now.writes.last() == all.last()
                &&& end.writes.len() > 0
                &&& end.writes.last() == all.last()
            }
        }),
    decreases events.len(),
{
    if events.len() == 0 {
        nothing_is_left_out::<T>();
    } else {
        let rest = events.drop_last();
        the_last_value_is_never_lost(rest);
        if let WriterEvent::Received(value) = events.last() {
            one_more(after_events(rest).writes, received(rest), value);
        }
    }
    assert(events.push(WriterEvent::<T>::Disconnected).drop_last() =~= events);
}

/// A burst is written once: however many values come without a pause, only one
/// write follows them.
pub proof fn a_burst_is_written_once<T>(events: Seq<WriterEvent<T>>, burst: Seq<WriterEvent<T>>)
    requires
        burst.len() > 0,
        forall|i: int| 0 <= i < burst.len() ==> #[trigger] burst[i] is Received,
    ensures
        after_events(events + burst).writes == after_events(events).writes,
        after_events((events + burst).push(WriterEvent::TimedOut)).writes.len() == after_events(
            events,
        ).writes.len() + 1,
    decreases burst.len(),
{
    let all = events + burst;
    assert(all.drop_last() =~= events + burst.drop_last());
    assert(all.last() == burst[burst.len() - 1]);
    if burst.len() > 1 {
        a_burst_is_written_once(events, burst.drop_last());
    } else {
        assert(events + burst.drop_last() =~= events);
    }
    assert(all.push(WriterEvent::<T>::TimedOut).drop_last() =~= all);
}

/// However fast changes keep coming, none waits longer than the longest delay: the
/// writer's patience ends by then, and never outlasts the quiet period.
pub proof fn no_change_waits_too_long(first: u128, quiet: u128, longest: u128, now: u128)
    requires
        first <= now,
    ensures
        ({
            let w = wait(Some(first), quiet as int, longest as int, now as int);
            &&& 0 <= w <= quiet
            &&& now <= first + longest ==> now + w <= first + longest
            &&& now >= first + longest ==> w == 0
        }),
{
}

/// Settings that are in range come back as they were stored, every one of them.
pub proof fn settings_come_back_as_they_were_stored(s: Settings)
    requires
        s.volume matches Real::Finite(v) && 0 <= v <= 130_000_000_000,
        s.encoding.quality <= 51,
        640 <= s.window.width <= 16_384,
        480 <= s.window.height <= 16_384,
    ensures
        s.in_range() == s,
{
}

/// Nothing else is touched: but for the volume, the quality and the size of the window,
/// what was stored is what is loaded, whatever it is.
pub proof fn only_what_can_be_out_of_range_is_touched(s: Settings)
    ensures
        ({
            let r = s.in_range();
            &&& r.input_folder == s.input_folder
            &&& r.output_folder == s.output_folder
            &&& r.ffmpeg_path == s.ffmpeg_path
            &&& r.muted == s.muted
            &&& r.encoding_panel_expanded == s.encoding_panel_expanded
            &&& r.output_panel_expanded == s.output_panel_expanded
            &&& r.encoding.mode == s.encoding.mode
            &&& r.encoding.video == s.encoding.video
            &&& r.encoding.speed == s.encoding.speed
            &&& r.encoding.audio == s.encoding.audio
            &&& r.encoding.container == s.encoding.container
            &&& r.window.x == s.window.x
            &&& r.window.y == s.window.y
            &&& r.window.maximized == s.window.maximized
        }),
{
}

/// What is out of range goes to the nearest end of it, and a volume that is no number
/// to the unattenuated one.
pub proof fn what_is_out_of_range_goes_to_its_end(s: Settings)
    ensures
        ({
            let r = s.in_range();
            &&& match s.volume {
                Real::Finite(v) => {
                    &&& v < 0 ==> r.volume == Real::Finite(0)
                    &&& 0 <= v <= 130_000_000_000 ==> r.volume == Real::Finite(v)
                    &&& v > 130_000_000_000 ==> r.volume == Real::Finite(130_000_000_000)
                },
                _ => r.volume == Real::Finite(100_000_000_000),
            }
            &&& s.encoding.quality <= 51 ==> r.encoding.quality == s.encoding.quality
            &&& s.encoding.quality > 51 ==> r.encoding.quality == 51
            &&& s.window.width < 640 ==> r.window.width == 640
            &&& 640 <= s.window.width <= 16_384 ==> r.window.width == s.window.width
            &&& s.window.width > 16_384 ==> r.window.width == 16_384
            &&& s.window.height < 480 ==> r.window.height == 480
            &&& 480 <= s.window.height <= 16_384 ==> r.window.height == s.window.height
            &&& s.window.height > 16_384 ==> r.window.height == 16_384
        }),
{
}

/// A value is held between two ends: left where it is inside, and brought to the end
/// that it is beyond.
pub proof fn a_value_is_held_between_two_ends(v: u32, low: u32, high: u32)
    requires
        low <= high,
    ensures
        low <= held(v, low, high) <= high,
        low <= v <= high ==> held(v, low, high) == v,
        v < low ==> held(v, low, high) == low,
        v > high ==> held(v, low, high) == high,
{
}

/// The writer waits for the whole quiet period, unless the longest delay ends before
/// it; then it waits for what is left of that. Without a change it waits for an hour.
pub proof fn the_writer_waits_for_quiet(first: u128, quiet: u128, longest: u128, now: u128)
    ensures
        first <= now && now + quiet <= first + longest ==> wait(
            Some(first),
            quiet as int,
            longest as int,
            now as int,
        ) == quiet,
        first <= now <= first + longest && first + longest < now + quiet ==> wait(
            Some(first),
            quiet as int,
            longest as int,
            now as int,
        ) == first + longest - now,
        wait(None, quiet as int, longest as int, now as int) == 3_600_000_000_000,
{
}

/// A value is written as soon as it is quiet, and never before: what comes is kept, and
/// replaces what was kept; a pause or the end writes what was kept, and leaves nothing.
pub proof fn a_pause_writes_what_was_kept<T>(kept: Option<T>, value: T)
    ensures
        step(kept, WriterEvent::Received(value)) == (Some(value), None::<T>),
        step(kept, WriterEvent::TimedOut) == (None::<T>, kept),
        step(kept, WriterEvent::Disconnected) == (None::<T>, kept),
        written(WriterAction::<T>::Wait) is None,
        written(WriterAction::Write(value)) == Some(value),
        written(WriterAction::Stop(kept)) == kept,
{
}

/// A saved place is worth restoring where a screen may show it: within 32000 pixels.
pub proof fn a_place_is_on_a_screen(v: i32)
    ensures
        on_screen(v) <==> -32_000 < v && v < 32_000,
{
}

/// A burst has to pause for four tenths of a second, and is written after two seconds
/// without a pause.
pub proof fn how_long_a_change_may_wait()
    ensures
        DEBOUNCE == 400_000_000,
        MAX_DELAY == 2_000_000_000,
{
}

/// A first run begins with these settings.
pub proof fn what_a_first_run_begins_with()
    ensures
        ({
            let s = Settings::initial();
            &&& s.input_folder is None && s.output_folder is None && s.ffmpeg_path is None
            &&& s.volume == Real::Finite(100_000_000_000) && !s.muted
            &&& s.encoding == (EncodeSettings {
                mode: crate::encode::CutMode::Precise,
                video: crate::encode::VideoEncoder::X264,
                quality: 20,
                speed: crate::encode::Speed::Balanced,
                audio: crate::encode::AudioHandling::Aac { kbps: 192 },
                container: crate::encode::Container::Mp4,
            })
            &&& !s.encoding_panel_expanded && s.output_panel_expanded
            &&& s.window == (WindowState {
                width: 1280,
                height: 800,
                x: None,
                y: None,
                maximized: false,
            })
        }),
{
}

} // verus!
