use clipcut::config::{
    load_from, Settings, Stored, WindowState, Writer, WriterAction, WriterEvent, DEBOUNCE, IDLE,
    MAX_DELAY,
};
use clipcut::encode::EncodeSettings;
use clipcut::fixed::Real;

fn sec(v: f64) -> Real {
    Real::Finite((v * 1e9).round() as i128)
}

const MS: u128 = 1_000_000;

#[test]
fn missing_file_yields_defaults() {
    assert_eq!(load_from(Stored::Unreadable), Settings::default());
}

#[test]
fn corrupt_file_yields_defaults_rather_than_failing() {
    assert_eq!(load_from(Stored::Invalid), Settings::default());
}

#[test]
fn partial_config_fills_the_gaps() {
    let s = load_from(Stored::Parsed(Settings {
        volume: sec(42.0),
        ..Settings::default()
    }));
    assert_eq!(s.volume, sec(42.0));
    // Everything else must still be usable.
    assert_eq!(s.encoding, EncodeSettings::default());
    assert_eq!(s.window, WindowState::default());
}

#[test]
fn out_of_range_values_are_clamped() {
    let s = load_from(Stored::Parsed(Settings {
        volume: sec(9999.0),
        window: WindowState { width: 1, height: 1, ..WindowState::default() },
        ..Settings::default()
    }));
    assert_eq!(s.volume, sec(130.0), "volume clamped to mpv's maximum");
    assert!(s.window.width >= 640 && s.window.height >= 480);
}

#[test]
fn a_quality_out_of_range_is_clamped() {
    for (written, want) in [(9999, 51), (52, 51), (51, 51), (20, 20), (0, 0)] {
        let encoding = EncodeSettings { quality: written, ..EncodeSettings::default() };
        let s = load_from(Stored::Parsed(Settings { encoding, ..Settings::default() }));
        assert_eq!(s.encoding.quality, want);
        let (low, high, _) = s.encoding.video.quality_range();
        assert!(low <= s.encoding.quality && s.encoding.quality <= high);
    }
}

#[test]
fn nan_volume_does_not_propagate() {
    let s = load_from(Stored::Parsed(Settings { volume: Real::NaN, ..Settings::default() }));
    assert_eq!(s.volume, sec(100.0));
}

#[test]
fn writes_are_coalesced_and_flushed_on_drop() {
    let mut w: Writer<Settings> = Writer::new(50 * MS, 10_000 * MS);
    // A burst, as produced by dragging a slider.
    for v in 1..=25 {
        let s = Settings { volume: sec(v as f64), ..Settings::default() };
        assert!(matches!(w.on_event(WriterEvent::Received(s), v * MS), WriterAction::Wait));
    }
    // Dropping flushes whatever is still pending.
    match w.on_event(WriterEvent::Disconnected, 26 * MS) {
        WriterAction::Stop(Some(saved)) => {
            assert_eq!(saved.volume, sec(25.0), "the last value in the burst must win")
        }
        other => panic!("expected a last write, got {other:?}"),
    }
}

#[test]
fn max_delay_checkpoints_a_continuous_stream() {
    let mut w: Writer<Settings> = Writer::new(40 * MS, 80 * MS);
    let mut now: u128 = 0;
    let mut saved = None;
    // Keep sending faster than the debounce so it can never go quiet.
    while now < 400 * MS && saved.is_none() {
        let s = Settings { volume: sec(61.0), ..Settings::default() };
        assert!(matches!(w.on_event(WriterEvent::Received(s), now), WriterAction::Wait));
        let patience = w.timeout(now);
        if patience < 10 * MS {
            if let WriterAction::Write(s) = w.on_event(WriterEvent::TimedOut, now + patience) {
                saved = Some((s, now + patience));
            }
        }
        now += 10 * MS;
    }
    let (s, when) = saved.expect("max delay must force a checkpoint during a sustained stream");
    assert_eq!(s.volume, sec(61.0));
    assert!(when <= 80 * MS);
}

#[test]
fn window_position_round_trips() {
    let s = load_from(Stored::Parsed(Settings {
        window: WindowState { x: Some(120), y: Some(-40), ..WindowState::default() },
        ..Settings::default()
    }));
    assert_eq!(s.window.usable_position(), Some((120, -40)));
}

#[test]
fn an_absent_position_is_not_restored() {
    // First run: let the window manager decide.
    assert_eq!(WindowState::default().usable_position(), None);
}

#[test]
fn an_offscreen_position_is_discarded() {
    // A monitor unplugged since the last run would strand the window.
    let far = WindowState {
        x: Some(999_999),
        y: Some(10),
        ..WindowState::default()
    };
    assert_eq!(far.usable_position(), None);
}

#[test]
fn positions_at_the_edge() {
    let at = |x: i32, y: i32| {
        WindowState { x: Some(x), y: Some(y), ..WindowState::default() }.usable_position()
    };
    assert_eq!(at(31_999, -31_999), Some((31_999, -31_999)));
    assert_eq!(at(32_000, 0), None);
    assert_eq!(at(-32_000, 0), None);
    assert_eq!(at(0, 32_000), None);
    assert_eq!(at(0, -32_000), None);
    let half = WindowState { x: Some(1), ..WindowState::default() };
    assert_eq!(half.usable_position(), None);
}

#[test]
fn the_defaults_are_these() {
    let s = Settings::default();
    assert_eq!(s.volume, sec(100.0));
    assert!(!s.muted && !s.encoding_panel_expanded && s.output_panel_expanded);
    assert_eq!((s.window.width, s.window.height), (1280, 800));
    assert!(s.input_folder.is_none() && s.output_folder.is_none() && s.ffmpeg_path.is_none());
    assert!(!s.window.maximized);
}

#[test]
fn settings_in_range_are_kept_as_they_are() {
    let s = Settings {
        input_folder: Some("D:\\recordings".to_string()),
        output_folder: Some("/clips".to_string()),
        ffmpeg_path: Some("/opt/ff".to_string()),
        volume: sec(73.5),
        muted: true,
        ..Settings::default()
    };
    assert_eq!(s.clone().sanitized(), s);
    let low = Settings { volume: sec(-1.0), ..Settings::default() }.sanitized();
    assert_eq!(low.volume, sec(0.0));
    let loud = Settings { volume: Real::PosInf, ..Settings::default() }.sanitized();
    assert_eq!(loud.volume, sec(100.0), "what is no number is unattenuated");
    let wide = Settings {
        window: WindowState { width: 20_000, height: 20_000, ..WindowState::default() },
        ..Settings::default()
    }
    .sanitized();
    assert_eq!((wide.window.width, wide.window.height), (16_384, 16_384));
    assert_eq!(wide.clone().sanitized(), wide);
}

#[test]
fn the_writer_waits_for_quiet_but_not_too_long() {
    let mut w: Writer<u32> = Writer::new(DEBOUNCE, MAX_DELAY);
    assert_eq!(w.timeout(5), IDLE, "nothing to write");
    assert!(matches!(w.on_event(WriterEvent::TimedOut, 7), WriterAction::Wait));
    w.on_event(WriterEvent::Received(1), 1_000 * MS);
    assert_eq!(w.timeout(1_000 * MS), 400 * MS);
    w.on_event(WriterEvent::Received(2), 2_500 * MS);
    assert_eq!(w.timeout(2_500 * MS), 400 * MS);
    assert_eq!(w.timeout(2_700 * MS), 300 * MS);
    assert_eq!(w.timeout(9_000 * MS), 0);
    assert_eq!(w.timeout(0), 400 * MS, "a clock that ran back");
    assert!(matches!(w.on_event(WriterEvent::TimedOut, 3_000 * MS), WriterAction::Write(2)));
    assert_eq!(w.timeout(3_000 * MS), IDLE);
    assert!(matches!(w.on_event(WriterEvent::Disconnected, 0), WriterAction::Stop(None)));
}

#[test]
fn a_burst_takes_one_write() {
    let mut w: Writer<u32> = Writer::new(DEBOUNCE, MAX_DELAY);
    let mut writes = 0;
    for i in 0..100 {
        if !matches!(w.on_event(WriterEvent::Received(i), i as u128), WriterAction::Wait) {
            writes += 1;
        }
    }
    assert_eq!(writes, 0);
    assert!(matches!(w.on_event(WriterEvent::TimedOut, 200), WriterAction::Write(99)));
    assert!(matches!(w.on_event(WriterEvent::TimedOut, 300), WriterAction::Wait));
}
