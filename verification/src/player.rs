//! mpv playback control: what mpv is told, and what its events mean.
//!
//! Deliberately knows nothing about the UI: state changes are reported as
//! [`PlayerEvent`]s, so the GUI decides how to marshal them.

use vstd::prelude::*;

use crate::fixed::{push_real, real_text, Real};
use crate::text::texts;

verus! {

/// Reply IDs for observed properties.
pub const ID_TIME_POS: u64 = 1;

pub const ID_DURATION: u64 = 2;

pub const ID_PAUSE: u64 = 3;

// ---- events -------------------------------------------------------------------

#[derive(Debug, Clone, Copy, PartialEq, Eq, Structural)]
pub enum PlayerEvent {
    Position(Real),
    Duration(Real),
    Paused(bool),
    FileLoaded,
    EndOfFile,
    /// A seek finished. Carries the latency in nanoseconds, which the UI surfaces
    /// while scrubbing.
    SeekCompleted(u128),
    Shutdown,
}

/// What mpv's event queue holds.
#[derive(Debug, Clone, Copy, PartialEq, Eq, Structural)]
pub enum MpvEvent {
    /// An observed property changed to a number.
    Number { id: u64, value: Real },
    /// An observed property changed to a flag.
    Flag { id: u64, value: bool },
    FileLoaded,
    Seek,
    PlaybackRestart,
    EndFile,
    Shutdown,
    /// Any other.
    Other,
}

/// What follows from an event.
#[derive(Debug, Clone, Copy, PartialEq, Eq, Structural)]
pub struct Pumped {
    pub report: Option<PlayerEvent>,
    /// No more events are to be read.
    pub stop: bool,
}

/// The event pump: when the seek was issued that is still under way. Times are
/// nanoseconds on one clock.
#[derive(Debug, Clone, Copy, PartialEq, Eq, Structural)]
pub struct EventPump {
    pub seek_at: Option<u128>,
}

/// The span from `from` to `to`, none if it is not after.
pub open spec fn span(from: u128, to: u128) -> u128 {
    if to > from {
        (to - from) as u128
    } else {
        0
    }
}

impl EventPump {
    pub fn new() -> (r: Self)
        ensures
            r.seek_at is None,
    {
        EventPump { seek_at: None }
    }

    /// What is told of an event.
    pub open spec fn reported(self, event: MpvEvent, now: u128) -> Option<PlayerEvent> {
        match event {
            MpvEvent::Number { id, value } => if id == ID_TIME_POS {
                Some(PlayerEvent::Position(value))
            } else if id == ID_DURATION {
                Some(PlayerEvent::Duration(value))
            } else {
                None
            },
            MpvEvent::Flag { id, value } => if id == ID_PAUSE {
                Some(PlayerEvent::Paused(value))
            } else {
                None
            },
            MpvEvent::FileLoaded => Some(PlayerEvent::FileLoaded),
            MpvEvent::PlaybackRestart => match self.seek_at {
                Some(started) => Some(PlayerEvent::SeekCompleted(span(started, now))),
                None => None,
            },
            MpvEvent::EndFile => Some(PlayerEvent::EndOfFile),
            MpvEvent::Shutdown => Some(PlayerEvent::Shutdown),
            MpvEvent::Seek => None,
            MpvEvent::Other => None,
        }
    }

    /// What is remembered after an event.
    pub open spec fn after(self, event: MpvEvent, now: u128) -> EventPump {
        match event {
            MpvEvent::Seek => EventPump { seek_at: Some(now) },
            MpvEvent::PlaybackRestart => EventPump { seek_at: None },
            _ => self,
        }
    }

    /// Take an event from mpv's queue. A seek is timed from when it is issued to
    /// when playback restarts.
    pub fn on_event(&mut self, event: MpvEvent, now: u128) -> (r: Pumped)
        ensures
            r.report == old(self).reported(event, now),
            r.stop == (event == MpvEvent::Shutdown),
            *final(self) == old(self).after(event, now),
    {
        let report: Option<PlayerEvent> = match event {
            MpvEvent::Number { id, value } => {
                if id == ID_TIME_POS {
                    Some(PlayerEvent::Position(value))
                } else if id == ID_DURATION {
                    Some(PlayerEvent::Duration(value))
                } else {
                    None
                }
            },
            MpvEvent::Flag { id, value } => {
                if id == ID_PAUSE {
                    Some(PlayerEvent::Paused(value))
                } else {
                    None
                }
            },
            MpvEvent::FileLoaded => Some(PlayerEvent::FileLoaded),
            MpvEvent::Seek => {
                self.seek_at = Some(now);
                None
            },
            MpvEvent::PlaybackRestart => {
                match self.seek_at.take() {
                    Some(started) => {
                        let latency: u128 = if now > started {
                            now - started
                        } else {
                            0
                        };
                        Some(PlayerEvent::SeekCompleted(latency))
                    },
                    None => None,
                }
            },
            MpvEvent::EndFile => Some(PlayerEvent::EndOfFile),
            MpvEvent::Shutdown => Some(PlayerEvent::Shutdown),
            MpvEvent::Other => None,
        };
        Pumped { report, stop: event == MpvEvent::Shutdown }
    }
}

/// Of several seeks in a row the last one is timed, whatever else comes between;
/// and it is reported once: after that it takes another seek for another report.
pub proof fn a_seek_is_reported_once(
    pump: EventPump,
    other: MpvEvent,
    first: u128,
    second: u128,
    end: u128,
    later: u128,
)
    requires
        other != MpvEvent::Seek,
        other != MpvEvent::PlaybackRestart,
    ensures
        ({
            let restart = MpvEvent::PlaybackRestart;
            let sought = pump.after(MpvEvent::Seek, first).after(MpvEvent::Seek, second).after(
                other,
                end,
            );
            let done = sought.after(restart, end);
            &&& sought.reported(restart, end) == Some(
                PlayerEvent::SeekCompleted(span(second, end)),
            )
            &&& done.reported(restart, later) is None
            &&& done.after(other, later).reported(restart, later) is None
        }),
{
}

// ---- commands -----------------------------------------------------------------

/// The value of one of mpv's properties.
#[derive(Debug, Clone, PartialEq, Eq)]
pub enum PropertyValue {
    Flag(bool),
    Text(String),
    /// Billionths: of a second, where it is a time.
    Number(i128),
}

#[derive(Debug, Clone, PartialEq, Eq)]
pub struct Property {
    pub name: String,
    pub value: PropertyValue,
}

/// A property's name and value.
pub ghost enum Setting {
    Flag(Seq<char>, bool),
    Text(Seq<char>, Seq<char>),
    Number(Seq<char>, int),
}

pub open spec fn setting(p: Property) -> Setting {
    match p.value {
        PropertyValue::Flag(v) => Setting::Flag(p.name@, v),
        PropertyValue::Text(v) => Setting::Text(p.name@, v@),
        PropertyValue::Number(v) => Setting::Number(p.name@, v as int),
    }
}

pub open spec fn settings(ps: Seq<Property>) -> Seq<Setting> {
    ps.map_values(|p: Property| setting(p))
}

/// How mpv is set up. `vo=libmpv` is what enables the render API; seeking is
/// frame-exact, which is the whole point of the tool; and the last frame is held
/// instead of closing the file at its end.
pub open spec fn initial_settings(hwdec: Seq<char>, verbose: bool) -> Seq<Setting> {
    seq![
        Setting::Text("vo"@, "libmpv"@),
        Setting::Text("hwdec"@, hwdec),
        Setting::Text("hr-seek"@, "yes"@),
        Setting::Text("keep-open"@, "yes"@),
        Setting::Flag("osc"@, false),
        Setting::Flag("input-default-bindings"@, false),
    ] + if verbose {
        seq![Setting::Flag("terminal"@, true), Setting::Text("msg-level"@, "all=v"@)]
    } else {
        seq![Setting::Flag("terminal"@, false)]
    }
}

fn put_text(ps: &mut Vec<Property>, name: &str, value: &str)
    ensures
        settings(final(ps)@) == settings(old(ps)@).push(Setting::Text(name@, value@)),
{
    ps.push(Property { name: name.to_string(), value: PropertyValue::Text(value.to_string()) });
    assert(settings(ps@) =~= settings(old(ps)@).push(Setting::Text(name@, value@)));
}

fn put_flag(ps: &mut Vec<Property>, name: &str, value: bool)
    ensures
        settings(final(ps)@) == settings(old(ps)@).push(Setting::Flag(name@, value)),
{
    ps.push(Property { name: name.to_string(), value: PropertyValue::Flag(value) });
    assert(settings(ps@) =~= settings(old(ps)@).push(Setting::Flag(name@, value)));
}

fn put_number(ps: &mut Vec<Property>, name: &str, value: i128)
    ensures
        settings(final(ps)@) == settings(old(ps)@).push(Setting::Number(name@, value as int)),
{
    ps.push(Property { name: name.to_string(), value: PropertyValue::Number(value) });
    assert(settings(ps@) =~= settings(old(ps)@).push(Setting::Number(name@, value as int)));
}

pub fn initial_properties(hwdec: &str, verbose: bool) -> (r: Vec<Property>)
    ensures
        settings(r@) == initial_settings(hwdec@, verbose),
{
    let mut r: Vec<Property> = Vec::new();
    put_text(&mut r, "vo", "libmpv");
    put_text(&mut r, "hwdec", hwdec);
    put_text(&mut r, "hr-seek", "yes");
    put_text(&mut r, "keep-open", "yes");
    put_flag(&mut r, "osc", false);
    put_flag(&mut r, "input-default-bindings", false);
    if verbose {
        put_flag(&mut r, "terminal", true);
        put_text(&mut r, "msg-level", "all=v");
    } else {
        put_flag(&mut r, "terminal", false);
    }
    assert(settings(r@) =~= initial_settings(hwdec@, verbose));
    r
}

/// The arguments of a seek to an absolute position, landing on the exact frame.
pub fn seek_args(seconds: Real) -> (r: Vec<String>)
    ensures
        texts(r@) == seq![real_text(seconds, 4, false), "absolute+exact"@],
{
    let mut at: String = String::new();
    push_real(&mut at, seconds, 4, false);
    assert(at@ =~= real_text(seconds, 4, false));
    let mut r: Vec<String> = Vec::new();
    r.push(at);
    r.push("absolute+exact".to_string());
    assert(texts(r@) =~= seq![real_text(seconds, 4, false), "absolute+exact"@]);
    r
}

/// The command that steps one frame forward (`dir >= 0`) or back.
pub fn frame_step_command(dir: i32) -> (r: &'static str)
    ensures
        r@ == if dir < 0 {
            "frame-back-step"@
        } else {
            "frame-step"@
        },
{
    if dir < 0 {
        "frame-back-step"
    } else {
        "frame-step"
    }
}

/// Whether playback is paused, by what mpv answered. Without an answer it is.
pub fn is_paused(answer: Option<bool>) -> (r: bool)
    ensures
        r == (answer != Some(false)),
{
    match answer {
        Some(p) => p,
        None => true,
    }
}

/// The loudest that mpv goes, in billionths: its scale is 0-130, where 100 is
/// unattenuated.
pub const LOUDEST: i128 = 130_000_000_000;

/// A volume held within mpv's scale. What is no number stays none.
pub open spec fn audible(volume: Real) -> Real {
    match volume {
        Real::Finite(v) => if v < 0 {
            Real::Finite(0)
        } else if v > LOUDEST {
            Real::Finite(LOUDEST)
        } else {
            volume
        },
        Real::PosInf => Real::Finite(LOUDEST),
        Real::NegInf => Real::Finite(0),
        Real::NaN => Real::NaN,
    }
}

pub fn clamp_volume(volume: Real) -> (r: Real)
    ensures
        r == audible(volume),
{
    match volume {
        Real::Finite(v) => if v < 0 {
            Real::Finite(0)
        } else if v > LOUDEST {
            Real::Finite(LOUDEST)
        } else {
            Real::Finite(v)
        },
        Real::PosInf => Real::Finite(LOUDEST),
        Real::NegInf => Real::Finite(0),
        Real::NaN => Real::NaN,
    }
}

/// Loop a span of the file, or clear the loop with `None`.
///
/// Used while refining marks, so the selected region plays over and over
/// without needing to seek back manually. mpv clears these with the string "no",
/// not a number.
pub fn ab_loop(span: Option<(i128, i128)>) -> (r: Vec<Property>)
    ensures
        settings(r@) == match span {
            Some((a, b)) => seq![
                Setting::Number("ab-loop-a"@, a as int),
                Setting::Number("ab-loop-b"@, b as int),
            ],
            None => seq![
                Setting::Text("ab-loop-a"@, "no"@),
                Setting::Text("ab-loop-b"@, "no"@),
            ],
        },
{
    let mut r: Vec<Property> = Vec::new();
    match span {
        Some((a, b)) => {
            put_number(&mut r, "ab-loop-a", a);
            put_number(&mut r, "ab-loop-b", b);
            assert(settings(r@) =~= seq![
                Setting::Number("ab-loop-a"@, a as int),
                Setting::Number("ab-loop-b"@, b as int),
            ]);
        },
        None => {
            put_text(&mut r, "ab-loop-a", "no");
            put_text(&mut r, "ab-loop-b", "no");
            assert(settings(r@) =~= seq![
                Setting::Text("ab-loop-a"@, "no"@),
                Setting::Text("ab-loop-b"@, "no"@),
            ]);
        },
    }
    r
}

// ---- laws ---------------------------------------------------------------------

/// Every event is told for what it is: the position and the length as numbers, the
/// pause as a flag, the rest by their kind. What was not asked for is not told.
pub proof fn every_event_is_told_for_what_it_is(
    pump: EventPump,
    id: u64,
    value: Real,
    flag: bool,
    now: u128,
)
    ensures
        pump.reported(MpvEvent::Number { id: 1, value }, now) == Some(PlayerEvent::Position(value)),
        pump.reported(MpvEvent::Number { id: 2, value }, now) == Some(PlayerEvent::Duration(value)),
        id != 1 && id != 2 ==> pump.reported(MpvEvent::Number { id, value }, now) is None,
        pump.reported(MpvEvent::Flag { id: 3, value: flag }, now) == Some(
            PlayerEvent::Paused(flag),
        ),
        id != 3 ==> pump.reported(MpvEvent::Flag { id, value: flag }, now) is None,
        pump.reported(MpvEvent::FileLoaded, now) == Some(PlayerEvent::FileLoaded),
        pump.reported(MpvEvent::EndFile, now) == Some(PlayerEvent::EndOfFile),
        pump.reported(MpvEvent::Shutdown, now) == Some(PlayerEvent::Shutdown),
        pump.reported(MpvEvent::Seek, now) is None,
        pump.reported(MpvEvent::Other, now) is None,
{
}

/// A seek is timed from when it is issued to when playback restarts, and nothing that
/// comes between has a say in it.
pub proof fn a_seek_is_timed_to_its_end(pump: EventPump, other: MpvEvent, start: u128, end: u128)
    requires
        start <= end,
        other != MpvEvent::Seek,
        other != MpvEvent::PlaybackRestart,
    ensures
        pump.after(MpvEvent::Seek, start).reported(MpvEvent::PlaybackRestart, end) == Some(
            PlayerEvent::SeekCompleted((end - start) as u128),
        ),
        pump.after(other, end) == pump,
        pump.after(MpvEvent::PlaybackRestart, end).seek_at is None,
        span(end, start) == 0,
{
}

/// A volume is held within mpv's scale, and left alone inside it.
pub proof fn a_volume_is_held_within_the_scale(v: i128)
    ensures
        0 <= v <= 130_000_000_000 ==> audible(Real::Finite(v)) == Real::Finite(v),
        v < 0 ==> audible(Real::Finite(v)) == Real::Finite(0),
        v > 130_000_000_000 ==> audible(Real::Finite(v)) == Real::Finite(130_000_000_000),
        audible(Real::PosInf) == Real::Finite(130_000_000_000),
        audible(Real::NegInf) == Real::Finite(0),
{
}

/// Playback is set up for frame-exact seeking into a held last frame, with the decoder
/// that was asked for, and silent in the terminal unless it is to be verbose.
pub proof fn playback_is_set_up_for_exact_seeking(hwdec: Seq<char>, verbose: bool)
    ensures
        ({
            let s = initial_settings(hwdec, verbose);
            &&& s.contains(Setting::Text("vo"@, "libmpv"@))
            &&& s.contains(Setting::Text("hwdec"@, hwdec))
            &&& s.contains(Setting::Text("hr-seek"@, "yes"@))
            &&& s.contains(Setting::Text("keep-open"@, "yes"@))
            &&& s.contains(Setting::Flag("osc"@, false))
            &&& s.contains(Setting::Flag("input-default-bindings"@, false))
            &&& s.contains(Setting::Flag("terminal"@, verbose))
            &&& verbose ==> s.contains(Setting::Text("msg-level"@, "all=v"@)) && s.len() == 8
            &&& !verbose ==> s.len() == 7
        }),
{
    let s = initial_settings(hwdec, verbose);
    assert(s[0] == Setting::Text("vo"@, "libmpv"@));
    assert(s[1] == Setting::Text("hwdec"@, hwdec));
    assert(s[2] == Setting::Text("hr-seek"@, "yes"@));
    assert(s[3] == Setting::Text("keep-open"@, "yes"@));
    assert(s[4] == Setting::Flag("osc"@, false));
    assert(s[5] == Setting::Flag("input-default-bindings"@, false));
    assert(s[6] == Setting::Flag("terminal"@, verbose));
    if verbose {
        assert(s[7] == Setting::Text("msg-level"@, "all=v"@));
    }
}

/// A volume that is no number stays none.
pub proof fn a_volume_that_is_no_number_stays_none(v: Real)
    ensures
        audible(v) == Real::NaN <==> v == Real::NaN,
{
}

} // verus!
