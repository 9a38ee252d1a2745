use clipcut::fixed::Real;
use clipcut::timecode::{clock, clock_precise, ffmpeg_timestamp, parse, signed_offset};

fn ns(v: f64) -> i128 {
    (v * 1e9).round() as i128
}

fn sec(v: f64) -> Real {
    if v.is_nan() {
        Real::NaN
    } else if v == f64::INFINITY {
        Real::PosInf
    } else if v == f64::NEG_INFINITY {
        Real::NegInf
    } else {
        Real::Finite(ns(v))
    }
}

#[test]
fn ffmpeg_form_is_fully_qualified() {
    assert_eq!(ffmpeg_timestamp(sec(0.0)), "00:00:00.000");
    assert_eq!(ffmpeg_timestamp(sec(62.5)), "00:01:02.500");
    assert_eq!(ffmpeg_timestamp(sec(3661.25)), "01:01:01.250");
}

#[test]
fn negative_and_nonfinite_input_clamps() {
    assert_eq!(ffmpeg_timestamp(sec(-5.0)), "00:00:00.000");
    assert_eq!(ffmpeg_timestamp(sec(f64::NAN)), "00:00:00.000");
    assert_eq!(ffmpeg_timestamp(sec(f64::INFINITY)), "00:00:00.000");
}

#[test]
fn clock_drops_the_hour_when_unused() {
    assert_eq!(clock(sec(40.0)), "0:40");
    assert_eq!(clock(sec(62.0)), "1:02");
    assert_eq!(clock(sec(3661.0)), "1:01:01");
}

#[test]
fn precise_clock_keeps_centiseconds() {
    assert_eq!(clock_precise(sec(62.53)), "1:02.53");
    assert_eq!(clock_precise(sec(3661.5)), "1:01:01.50");
}

#[test]
fn offsets_read_as_deltas() {
    assert_eq!(signed_offset(sec(-4.72)), "-4.7s");
    assert_eq!(signed_offset(sec(1.28)), "+1.3s");
    assert_eq!(signed_offset(sec(0.0)), "exact");
    // Snaps under half a frame are not worth reporting as an offset.
    assert_eq!(signed_offset(sec(0.01)), "exact");
}

#[test]
fn parses_every_accepted_shape() {
    assert_eq!(parse("40"), Some(ns(40.0)));
    assert_eq!(parse("1:02"), Some(ns(62.0)));
    assert_eq!(parse("1:01:01"), Some(ns(3661.0)));
    assert_eq!(parse("1:02.5"), Some(ns(62.5)));
    assert_eq!(parse("  1:02  "), Some(ns(62.0)));
}

#[test]
fn rejects_input_rather_than_guessing() {
    // A wrong guess here would silently move a cut mark.
    assert_eq!(parse(""), None);
    assert_eq!(parse("abc"), None);
    assert_eq!(parse("1:2:3:4"), None);
    assert_eq!(parse("1:75"), None, "75 seconds is not a valid field");
    assert_eq!(
        parse("1.5:00"),
        None,
        "only the last field may be fractional"
    );
    assert_eq!(parse("1::2"), None);
}

#[test]
fn parse_round_trips_through_format() {
    for secs in [0.0, 7.0, 62.5, 599.25, 3661.75] {
        let parsed = parse(&clock_precise(sec(secs))).expect("formatted value must parse");
        assert!(
            (parsed as f64 / 1e9 - secs).abs() < 0.01,
            "{secs} round-tripped to {parsed}"
        );
    }
}

#[test]
fn the_precise_clock_reads_back_within_a_hundredth() {
    for t in [0i128, 1, 4_999_999, 9_999_999, 59_994_999_999, 59_999_500_000, 3_599_999_999_999] {
        let back = parse(&clock_precise(Real::Finite(t))).expect("formatted value must parse");
        assert!((back - t).abs() < 10_000_000, "{t} came back as {back}");
    }
    assert_eq!(clock_precise(Real::Finite(59_999_500_000)), "1:00.00");
}

#[test]
fn times_are_rounded_to_the_nearest_millisecond() {
    assert_eq!(ffmpeg_timestamp(Real::Finite(499_999)), "00:00:00.000");
    assert_eq!(ffmpeg_timestamp(Real::Finite(500_000)), "00:00:00.001");
    assert_eq!(ffmpeg_timestamp(sec(359_999.9995)), "100:00:00.000");
}

#[test]
fn signs_and_stray_forms() {
    assert_eq!(parse("-1:02"), Some(-62_000_000_000));
    assert_eq!(parse("+5"), Some(5_000_000_000));
    assert_eq!(parse("-"), None);
    assert_eq!(parse("1:-2"), None);
    assert_eq!(parse("inf"), None);
    assert_eq!(parse("nan"), None);
    assert_eq!(parse("90:00"), Some(5_400_000_000_000));
    assert_eq!(parse("1:60:00"), None);
    assert_eq!(parse(".5"), Some(500_000_000));
}

#[test]
fn offsets_beyond_all_numbers() {
    assert_eq!(signed_offset(sec(f64::INFINITY)), "+infs");
    assert_eq!(signed_offset(sec(f64::NEG_INFINITY)), "-infs");
    assert_eq!(signed_offset(sec(f64::NAN)), "NaNs");
    assert_eq!(signed_offset(sec(0.05)), "+0.1s");
    assert_eq!(signed_offset(sec(-0.0499)), "exact");
}

#[test]
fn timestamps_read_back_to_the_millisecond() {
    for t in [0i128, 499_999, 500_000, 62_500_000_000, 3_661_250_400_000, 999_999_999_999_999] {
        let text = ffmpeg_timestamp(Real::Finite(t));
        assert!(text.len() >= 12, "{text}");
        let back = parse(&text).expect("a timestamp parses");
        assert_eq!(back, (t + 500_000) / 1_000_000 * 1_000_000);
    }
}

#[test]
fn a_field_just_under_sixty_is_taken() {
    assert_eq!(parse("1:59.9999999999"), Some(119_999_999_999));
    assert_eq!(parse("1:60.0000000000"), None);
    assert_eq!(parse("--0.0000000001"), None);
    assert_eq!(parse("--0"), Some(0));
}
