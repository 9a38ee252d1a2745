use clipcut::fixed::Real;
use clipcut::player::{
    ab_loop, clamp_volume, frame_step_command, initial_properties, is_paused, seek_args, EventPump,
    MpvEvent, PlayerEvent, Property, PropertyValue, ID_DURATION, ID_PAUSE, ID_TIME_POS,
};

fn sec(v: f64) -> Real {
    Real::Finite((v * 1e9).round() as i128)
}

fn text(name: &str, value: &str) -> Property {
    Property { name: name.to_string(), value: PropertyValue::Text(value.to_string()) }
}

fn flag(name: &str, value: bool) -> Property {
    Property { name: name.to_string(), value: PropertyValue::Flag(value) }
}

#[test]
fn properties_are_reported_by_their_id() {
    let mut pump = EventPump::new();
    let mut told = |e: MpvEvent| pump.on_event(e, 0).report;
    assert_eq!(
        told(MpvEvent::Number { id: ID_TIME_POS, value: sec(1.5) }),
        Some(PlayerEvent::Position(sec(1.5)))
    );
    assert_eq!(
        told(MpvEvent::Number { id: ID_DURATION, value: sec(9.0) }),
        Some(PlayerEvent::Duration(sec(9.0)))
    );
    assert_eq!(
        told(MpvEvent::Flag { id: ID_PAUSE, value: true }),
        Some(PlayerEvent::Paused(true))
    );
    assert_eq!(told(MpvEvent::Number { id: ID_PAUSE, value: sec(1.0) }), None);
    assert_eq!(told(MpvEvent::Flag { id: ID_TIME_POS, value: true }), None);
    assert_eq!(told(MpvEvent::FileLoaded), Some(PlayerEvent::FileLoaded));
    assert_eq!(told(MpvEvent::EndFile), Some(PlayerEvent::EndOfFile));
    assert_eq!(told(MpvEvent::Other), None);
}

#[test]
fn only_a_shutdown_stops_the_pump() {
    let mut pump = EventPump::new();
    assert!(!pump.on_event(MpvEvent::EndFile, 0).stop);
    let last = pump.on_event(MpvEvent::Shutdown, 0);
    assert!(last.stop);
    assert_eq!(last.report, Some(PlayerEvent::Shutdown));
}

#[test]
fn seeks_are_timed_from_the_last_one() {
    let mut pump = EventPump::new();
    assert_eq!(pump.on_event(MpvEvent::PlaybackRestart, 5).report, None);
    assert_eq!(pump.on_event(MpvEvent::Seek, 10).report, None);
    pump.on_event(MpvEvent::Seek, 30);
    pump.on_event(MpvEvent::FileLoaded, 40);
    assert_eq!(
        pump.on_event(MpvEvent::PlaybackRestart, 75).report,
        Some(PlayerEvent::SeekCompleted(45))
    );
    assert_eq!(pump.on_event(MpvEvent::PlaybackRestart, 80).report, None);
}

#[test]
fn mpv_is_set_up_like_this() {
    let quiet = initial_properties("auto-safe", false);
    assert_eq!(
        quiet,
        vec![
            text("vo", "libmpv"),
            text("hwdec", "auto-safe"),
            text("hr-seek", "yes"),
            text("keep-open", "yes"),
            flag("osc", false),
            flag("input-default-bindings", false),
            flag("terminal", false),
        ]
    );
    let verbose = initial_properties("no", true);
    assert_eq!(verbose[1], text("hwdec", "no"));
    assert_eq!(verbose[6], flag("terminal", true));
    assert_eq!(verbose[7], text("msg-level", "all=v"));
}

#[test]
fn seeks_are_exact() {
    assert_eq!(seek_args(sec(62.53)), vec!["62.5300", "absolute+exact"]);
    assert_eq!(seek_args(sec(0.00005))[0], "0.0001");
    assert_eq!(seek_args(sec(-1.0))[0], "-1.0000");
    assert_eq!(seek_args(Real::NaN)[0], "NaN");
}

#[test]
fn frames_step_both_ways() {
    assert_eq!(frame_step_command(1), "frame-step");
    assert_eq!(frame_step_command(0), "frame-step");
    assert_eq!(frame_step_command(-1), "frame-back-step");
}

#[test]
fn without_an_answer_playback_is_paused() {
    assert!(is_paused(None));
    assert!(is_paused(Some(true)));
    assert!(!is_paused(Some(false)));
}

#[test]
fn volumes_stay_on_the_scale() {
    assert_eq!(clamp_volume(sec(64.0)), sec(64.0));
    assert_eq!(clamp_volume(sec(-3.0)), sec(0.0));
    assert_eq!(clamp_volume(sec(131.0)), sec(130.0));
    assert_eq!(clamp_volume(Real::PosInf), sec(130.0));
    assert_eq!(clamp_volume(Real::NegInf), sec(0.0));
    assert_eq!(clamp_volume(Real::NaN), Real::NaN);
}

#[test]
fn loops_are_set_and_cleared() {
    let number = |name: &str, v: i128| Property {
        name: name.to_string(),
        value: PropertyValue::Number(v),
    };
    assert_eq!(ab_loop(Some((3, 9))), vec![number("ab-loop-a", 3), number("ab-loop-b", 9)]);
    assert_eq!(ab_loop(None), vec![text("ab-loop-a", "no"), text("ab-loop-b", "no")]);
}
