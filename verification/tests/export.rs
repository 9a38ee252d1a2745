use clipcut::encode::{EncodeSettings, ExportRequest, Progress};
use clipcut::export::{
    outcome, sanitize_stem, split_counter, start, unique_output_path, ExportEvent, ProcessEnd,
    StderrTail, STDERR_TAIL_LINES,
};
use clipcut::fixed::Real;
use clipcut::media::Tools;

/// The name for `stem` in a folder that holds `names`.
fn unique(names: &[&str], stem: &str, ext: &str) -> String {
    let names: Vec<String> = names.iter().map(|n| n.to_string()).collect();
    unique_output_path(stem, ext, 4711, |name: &str| names.iter().any(|n| n == name)).unwrap()
}

#[test]
fn illegal_characters_are_replaced() {
    assert_eq!(sanitize_stem("a/b\\c:d"), "a_b_c_d");
    assert_eq!(sanitize_stem("clip<1>"), "clip_1_");
    assert_eq!(sanitize_stem("what?"), "what_");
}

#[test]
fn trailing_dots_and_spaces_are_trimmed() {
    // Windows silently mangles these, which would break collision checks.
    assert_eq!(sanitize_stem("  clip  "), "clip");
    assert_eq!(sanitize_stem("clip..."), "clip");
}

#[test]
fn an_empty_name_falls_back() {
    assert_eq!(sanitize_stem(""), "clip");
    assert_eq!(sanitize_stem("   "), "clip");
    assert_eq!(sanitize_stem("..."), "clip");
}

#[test]
fn a_free_name_is_used_as_is() {
    assert_eq!(unique(&[], "clip", "mp4"), "clip.mp4");
}

#[test]
fn an_existing_file_is_never_overwritten() {
    let taken = ["clip.mp4"];
    let next = unique(&taken, "clip", "mp4");
    assert_eq!(next, "clip_001.mp4");
    assert!(!taken.contains(&next.as_str()));
}

#[test]
fn a_trailing_counter_is_advanced_not_appended() {
    assert_eq!(
        unique(&["session_001.mp4"], "session_001", "mp4"),
        "session_002.mp4",
        "should advance the counter rather than produce session_001_001"
    );
}

#[test]
fn gaps_in_the_sequence_are_filled() {
    assert_eq!(
        unique(
            &["clip_001.mp4", "clip_002.mp4", "clip_004.mp4", "clip.mp4"],
            "clip",
            "mp4"
        ),
        "clip_003.mp4"
    );
}

#[test]
fn the_extension_is_part_of_the_collision_check() {
    // A different container is not a collision.
    assert_eq!(unique(&["clip.mp4"], "clip", "mkv"), "clip.mkv");
}

#[test]
fn counter_splitting_handles_awkward_stems() {
    assert_eq!(split_counter("clip_001"), ("clip".into(), 1));
    assert_eq!(split_counter("clip"), ("clip".into(), 0));
    assert_eq!(split_counter("clip_"), ("clip_".into(), 0));
    assert_eq!(split_counter("clip_abc"), ("clip_abc".into(), 0));
    assert_eq!(split_counter("a_b_007"), ("a_b".into(), 7));
}

#[test]
fn exporting_twice_does_not_overwrite() {
    let first = unique(&[], "clip", "mp4");
    let second = unique(&[first.as_str()], "clip", "mp4");
    assert_ne!(first, second);
}

#[test]
fn counters_out_of_range_are_part_of_the_name() {
    assert_eq!(split_counter("clip_4294967295"), ("clip".into(), 4_294_967_295));
    assert_eq!(split_counter("clip_4294967296"), ("clip_4294967296".into(), 0));
    assert_eq!(split_counter("clip_+1"), ("clip_+1".into(), 0));
    assert_eq!(split_counter("_5"), ("".into(), 5));
}

#[test]
fn a_full_folder_falls_back_to_the_process() {
    let free = |stem: &str, id: u32, only: &'static str| {
        unique_output_path(stem, "mp4", id, |name: &str| name != only)
    };
    for (stem, id, only) in [
        ("clip", 4711, "clip_4711.mp4"),
        ("clip_9999", 12, "clip_12.mp4"),
        ("clip_4294967295", 12, "clip_12.mp4"),
        // The last number is tried too.
        ("clip", 1, "clip_9999.mp4"),
    ] {
        assert_eq!(free(stem, id, only).as_deref(), Some(only));
    }
}

#[test]
fn the_last_resort_is_looked_for_too() {
    let free = |only: &'static str| {
        unique_output_path("x", "mp4", 12_345, |name: &str| name != only)
    };
    // The number of the process is taken, so it is counted on from there.
    assert_eq!(free("x_12345_001.mp4").as_deref(), Some("x_12345_001.mp4"));
    assert_eq!(free("x_12345_1000.mp4").as_deref(), Some("x_12345_1000.mp4"));
    // A number that a counter had already is not given out a second time.
    let names = |name: &str| name == "x.mp4" || name == "x_007.mp4" || name == "x_7.mp4";
    assert_eq!(unique_output_path("x_007", "mp4", 7, names).as_deref(), Some("x_008.mp4"));
    let full = |name: &str| name.len() <= "x_9999.mp4".len();
    assert_eq!(unique_output_path("x", "mp4", 7, full).as_deref(), Some("x_7_001.mp4"));
}

#[test]
fn a_folder_without_a_name_left_is_told() {
    assert_eq!(unique_output_path("clip", "mp4", 1, |_: &str| true), None);
}

#[test]
fn the_stem_is_cleaned_before_it_is_looked_for() {
    assert_eq!(unique(&["a_b.mp4"], " a/b. ", "mp4"), "a_b_001.mp4");
}

#[test]
fn control_characters_are_illegal_too() {
    assert_eq!(sanitize_stem("a\tb\u{1}c"), "a_b_c");
    assert_eq!(sanitize_stem("*"), "_");
    assert_eq!(sanitize_stem("é \"x\" | y"), "é _x_ _ y");
}

#[test]
fn a_clean_name_is_left_alone() {
    for name in ["clip", "Session 2026-08-14_001", "a.b", "é"] {
        assert_eq!(sanitize_stem(name), name);
    }
    for name in ["a", "a. .", " a . . ", "a.\u{a0}.", "a .  ..", ". a"] {
        let clean = sanitize_stem(name);
        assert_eq!(sanitize_stem(&clean), clean, "{name:?}");
    }
}

#[test]
fn dots_and_spaces_may_alternate_at_the_end() {
    assert_eq!(sanitize_stem("a. ."), "a");
    assert_eq!(sanitize_stem(" a . .. . "), "a");
    assert_eq!(sanitize_stem("a.b. \u{3000}."), "a.b");
    assert_eq!(sanitize_stem(" . . "), "clip");
    assert_eq!(sanitize_stem(". a"), ". a", "only the end is rejected");
}

#[test]
fn only_the_tail_of_the_diagnostics_is_kept() {
    let mut tail = StderrTail::new();
    assert_eq!(tail.detail("exit status: 1"), "ffmpeg exited with exit status: 1");
    tail.push("first".to_string());
    for _ in 1..STDERR_TAIL_LINES {
        tail.push("  ".to_string());
    }
    assert_eq!(tail.detail("exit status: 1"), "first");
    // One more, and the first is gone.
    tail.push(String::new());
    assert_eq!(tail.detail("exit status: 1"), "ffmpeg exited with exit status: 1");
    tail.push("Unknown encoder 'av1_nvenc'".to_string());
    tail.push("\t".to_string());
    assert_eq!(tail.detail("exit status: 1"), "Unknown encoder 'av1_nvenc'");
}

#[test]
fn every_end_has_its_outcome() {
    let mut tail = StderrTail::new();
    tail.push("no such file".to_string());

    let done = outcome(false, ProcessEnd::Succeeded, &tail, "out.mp4");
    assert!(matches!(done.event, ExportEvent::Finished { output } if output == "out.mp4"));
    assert!(!done.discard);

    let failed = outcome(
        false,
        ProcessEnd::Failed { status: "exit status: 1".to_string() },
        &tail,
        "out.mp4",
    );
    assert!(matches!(failed.event, ExportEvent::Failed { message } if message == "no such file"));
    assert!(failed.discard, "the partial file is not a usable clip");

    let lost = outcome(false, ProcessEnd::Lost { reason: "gone".to_string() }, &tail, "out.mp4");
    assert!(
        matches!(lost.event, ExportEvent::Failed { message } if message == "could not wait for ffmpeg: gone")
    );
    assert!(!lost.discard);

    let vanished = outcome(false, ProcessEnd::Gone, &tail, "out.mp4");
    assert!(
        matches!(vanished.event, ExportEvent::Failed { message } if message == "ffmpeg process disappeared")
    );
    assert!(!vanished.discard);
}

#[test]
fn a_cancelled_export_is_cancelled_however_it_ended() {
    let tail = StderrTail::new();
    for end in [
        ProcessEnd::Succeeded,
        ProcessEnd::Failed { status: "signal: 9".to_string() },
        ProcessEnd::Gone,
    ] {
        let r = outcome(true, end, &tail, "out.mp4");
        assert!(matches!(r.event, ExportEvent::Cancelled));
        assert!(r.discard);
    }
    let told = ExportEvent::Progress(Progress::default());
    assert!(matches!(told, ExportEvent::Progress(p) if p.frame == 0));
}

#[test]
fn a_job_reports_progress_and_then_how_it_ended() {
    let tools = Tools { ffmpeg: "/opt/f f/ffmpeg".to_string(), ffprobe: String::new() };
    let request = ExportRequest {
        input: "in.mkv".to_string(),
        output: "out.mp4".to_string(),
        start: Real::Finite(0),
        duration: Real::Finite(3_000_000_000),
        audio_track: None,
        settings: EncodeSettings::default(),
    };
    let (launch, mut job) = start(&tools, &request);
    assert_eq!(launch.args.last().map(|a| a.as_str()), Some("out.mp4"));
    assert!(launch.rendered.starts_with("\"/opt/f f/ffmpeg\" -hide_banner"));

    assert!(job.on_stdout(b"frame=1\nprog").is_empty());
    job.on_stderr("Conversion failed!".to_string());
    let events = job.on_stdout(b"ress=continue\nframe=2\nprogress=end\n");
    assert_eq!(events.len(), 2);
    assert!(matches!(&events[0], ExportEvent::Progress(p) if p.frame == 1 && !p.finished));
    assert!(matches!(&events[1], ExportEvent::Progress(p) if p.frame == 2 && p.finished));

    let end = job.on_end(false, ProcessEnd::Failed { status: "exit status: 1".to_string() });
    assert!(matches!(end.event, ExportEvent::Failed { message } if message == "Conversion failed!"));
    assert!(end.discard);
    let end = job.on_end(false, ProcessEnd::Succeeded);
    assert!(matches!(end.event, ExportEvent::Finished { output } if output == "out.mp4"));
    assert!(matches!(job.on_end(true, ProcessEnd::Gone).event, ExportEvent::Cancelled));
}

#[test]
fn counters_read_back_and_make_new_names() {
    let mut names: Vec<String> = Vec::new();
    for n in 1..=1200u32 {
        let stem = format!("a_b_{n:03}");
        assert_eq!(split_counter(&stem), ("a_b".to_string(), n));
        names.push(stem);
    }
    names.sort();
    names.dedup();
    assert_eq!(names.len(), 1200);
}

#[test]
fn a_name_stays_in_its_folder() {
    for typed in ["../../etc/passwd", "..", "C:\\x", "a/b", "\\\\host\\share", "x/../y_003"] {
        let mut taken: Vec<String> = Vec::new();
        for _ in 0..5 {
            let names: Vec<&str> = taken.iter().map(|n| n.as_str()).collect();
            let name = unique(&names, typed, "mp4");
            assert!(!name.contains('/') && !name.contains('\\'), "{name}");
            assert!(!taken.contains(&name));
            taken.push(name);
        }
    }
}
