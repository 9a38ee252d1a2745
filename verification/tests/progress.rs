use std::time::Duration;

use clipcut::encode::{Progress, ProgressParser};
use clipcut::fixed::Real;

fn sec(v: f64) -> Real {
    Real::Finite((v * 1e9).round() as i128)
}

const BLOCK: &str = "frame=250\nfps=62.5\nstream_0_0_q=28.0\nbitrate=1234.5kbits/s\n\
total_size=1048576\nout_time_us=10000000\nout_time_ms=10000000\n\
out_time=00:00:10.000000\ndup_frames=0\ndrop_frames=0\nspeed=2.08x\nprogress=continue\n";

#[test]
fn parses_a_complete_block() {
    let mut p = ProgressParser::new();
    let got = p.push_str(BLOCK);
    assert_eq!(got.len(), 1);
    let g = &got[0];
    assert_eq!(g.frame, 250);
    assert_eq!(g.fps, sec(62.5));
    assert_eq!(g.speed, sec(2.08));
    assert_eq!(g.total_size, 1_048_576);
    assert_eq!(g.out_time, Duration::from_secs(10).as_nanos());
    assert!(!g.finished);
}

/// Reads from a pipe land on arbitrary boundaries, not line boundaries.
#[test]
fn survives_lines_split_across_reads() {
    let mut whole = ProgressParser::new();
    let expected = whole.push_str(BLOCK).pop().unwrap();

    for split in 1..BLOCK.len() {
        let mut p = ProgressParser::new();
        let mut got = p.push_str(&BLOCK[..split]);
        got.extend(p.push_str(&BLOCK[split..]));
        assert_eq!(
            got.len(),
            1,
            "split at {split} produced {} blocks",
            got.len()
        );
        assert_eq!(got[0], expected, "split at {split} changed the result");
    }
}

#[test]
fn detects_the_final_block() {
    let mut p = ProgressParser::new();
    let got = p.push_str("out_time_us=5000000\nprogress=end\n");
    assert!(got[0].finished);
    assert_eq!(got[0].fraction(sec(10.0)), sec(1.0), "finished always reports 100%");
}

#[test]
fn ignores_not_available_values() {
    let mut p = ProgressParser::new();
    let got = p.push_str("frame=N/A\nspeed=N/A\nout_time_us=1000000\nprogress=continue\n");
    assert_eq!(got[0].frame, 0);
    assert_eq!(got[0].speed, sec(0.0));
    assert_eq!(got[0].out_time, Duration::from_secs(1).as_nanos());
}

#[test]
fn falls_back_to_the_formatted_timestamp() {
    let mut p = ProgressParser::new();
    let got = p.push_str("out_time=00:01:02.500000\nprogress=continue\n");
    assert_eq!(got[0].out_time, Duration::from_millis(62_500).as_nanos());
}

#[test]
fn fraction_is_clamped() {
    let mut p = ProgressParser::new();
    let got = p.push_str("out_time_us=20000000\nprogress=continue\n");
    assert_eq!(got[0].fraction(sec(10.0)), sec(1.0));
    assert_eq!(
        got[0].fraction(sec(0.0)),
        sec(0.0),
        "unknown duration must not divide by zero"
    );
}

#[test]
fn eta_uses_encoding_speed() {
    let mut p = ProgressParser::new();
    let got = p.push_str("out_time_us=5000000\nspeed=2.0x\nprogress=continue\n");
    // 5s of clip left at 2x realtime = 2.5s.
    assert_eq!(got[0].eta_secs(sec(10.0)), Some(sec(2.5)));
}

#[test]
fn multiple_blocks_in_one_chunk() {
    let mut p = ProgressParser::new();
    let two = format!("{BLOCK}{BLOCK}");
    assert_eq!(p.push_str(&two).len(), 2);
}

#[test]
fn bytes_are_read_as_text() {
    let mut p = ProgressParser::new();
    let got = p.push_bytes(b"frame=7\r\nprogress=continue\r\n");
    assert_eq!(got.len(), 1);
    assert_eq!(got[0].frame, 7);
    // What is not UTF-8 spoils its own line only.
    let got = p.push_bytes(b"frame=\xff\nfps=25\nprogress=end\n");
    assert_eq!(got[0].frame, 7);
    assert_eq!(got[0].fps, sec(25.0));
    assert!(got[0].finished);
}

#[test]
fn bytes_may_be_split_anywhere() {
    for at in 0..BLOCK.len() {
        let mut p = ProgressParser::new();
        let mut got = p.push_bytes(&BLOCK.as_bytes()[..at]);
        got.extend(p.push_bytes(&BLOCK.as_bytes()[at..]));
        assert_eq!(got.len(), 1);
        assert_eq!(got[0].frame, 250);
    }
}

#[test]
fn a_block_keeps_what_an_earlier_one_told() {
    let mut p = ProgressParser::new();
    let got = p.push_str("frame=1\nspeed=1.5x\nprogress=continue\nframe=2\nprogress=continue\n");
    assert_eq!(got.len(), 2);
    assert_eq!(got[1].frame, 2);
    assert_eq!(got[1].speed, sec(1.5));
}

#[test]
fn an_exact_time_is_not_replaced_by_the_formatted_one() {
    let mut p = ProgressParser::new();
    let got = p.push_str("out_time_us=1\nout_time=00:00:09.0\nprogress=continue\n");
    assert_eq!(got[0].out_time, 1_000);
}

#[test]
fn timestamps_that_no_span_can_hold_are_ignored() {
    for bad in ["-00:00:01", "00:00:-5", "00:00:inf", "00:00:nan", "18446744073709551615:00:00", "1:2", "a:b:c"] {
        let mut p = ProgressParser::new();
        let got = p.push_str(&format!("out_time={bad}\nprogress=continue\n"));
        assert_eq!(got[0].out_time, 0, "{bad}");
    }
    let mut p = ProgressParser::new();
    let got = p.push_str("out_time=1:02:03.25:ignored\nprogress=continue\n");
    assert_eq!(got[0].out_time, 3_723_250_000_000);
}

#[test]
fn lines_without_a_value_are_skipped() {
    let mut p = ProgressParser::new();
    let got = p.push_str("frame\n\n  frame = 9 \nprogress\nprogress=\n");
    assert_eq!(got.len(), 1);
    assert_eq!(got[0].frame, 9);
    assert!(!got[0].finished);
}

#[test]
fn fractions_and_estimates_of_odd_lengths() {
    let half = Progress { out_time: 5_000_000_000, speed: sec(0.5), ..Progress::default() };
    assert_eq!(half.fraction(sec(10.0)), sec(0.5));
    assert_eq!(half.fraction(sec(-1.0)), sec(0.0));
    assert_eq!(half.fraction(Real::PosInf), sec(0.0));
    assert_eq!(half.fraction(Real::NaN), Real::NaN);
    assert_eq!(half.eta_secs(sec(10.0)), Some(sec(10.0)));
    assert_eq!(half.eta_secs(sec(5.0)), None, "nothing left");
    assert_eq!(half.eta_secs(sec(0.0)), None);
    assert_eq!(half.eta_secs(Real::PosInf), Some(Real::PosInf));
    assert_eq!(half.eta_secs(Real::NaN), None);
    let unknown = Progress { out_time: 5_000_000_000, ..Progress::default() };
    assert_eq!(unknown.eta_secs(sec(10.0)), None, "no speed yet");
    let endless = Progress { speed: Real::PosInf, ..half };
    assert_eq!(endless.eta_secs(sec(10.0)), Some(sec(0.0)));
    assert_eq!(endless.eta_secs(Real::PosInf), Some(Real::NaN));
    let done = Progress { finished: true, ..half };
    assert_eq!(done.eta_secs(sec(10.0)), None);
    assert_eq!(done.fraction(sec(0.0)), sec(1.0));
}

#[test]
fn the_fraction_never_shrinks_as_the_output_grows() {
    let mut last = sec(0.0);
    for n in 0..200u128 {
        let p = Progress { out_time: n * 77_000_000, ..Progress::default() };
        let now = p.fraction(sec(10.0));
        assert!(last.le(&now) && now.le(&sec(1.0)));
        last = now;
    }
    assert_eq!(last, sec(1.0));
}
