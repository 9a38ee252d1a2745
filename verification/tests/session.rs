use clipcut::encode::{CutMode, Progress};
use clipcut::export::ExportEvent;
use clipcut::fixed::Real;
use clipcut::library::VideoFile;
use clipcut::marks::Marks;
use clipcut::media::SnapResult;
use clipcut::session::{
    automark, autoselect, dump_after, dump_is_due, ended_status, export_detail, goto_target,
    library_summary, plan_export, refine_view, refined_loop, refresh_snap, selected_row,
    set_volume, show_marks, snap_view, suggest_filename, to_entry, toggle_refine, total_size,
    ExportPlan, MarksByFile, Readiness, SnapAction,
};

fn ns(v: f64) -> i128 {
    (v * 1e9).round() as i128
}

fn sec(v: f64) -> Real {
    Real::Finite(ns(v))
}

fn marks(a: f64, b: f64) -> Marks {
    Marks { in_point: Some(ns(a)), out_point: Some(ns(b)) }
}

fn video(path: &str, size: u64) -> VideoFile {
    VideoFile {
        path: path.to_string(),
        display_name: "name".to_string(),
        sub_path: "sub".to_string(),
        modified: 0,
        size,
    }
}

const READY: Readiness = Readiness {
    refining: false,
    audio_only: false,
    precise: true,
    encoder_available: true,
    has_output_folder: true,
    exporting: false,
};

#[test]
fn a_row_shows_the_file() {
    let mut file = video("/v/a.mkv", 3);
    file.modified = 992_606_400_000_000_000;
    let row = to_entry(&file);
    assert_eq!(row.display_name, "name");
    assert_eq!(row.sub_path, "sub");
    assert!(row.modified.ends_with(" Jun 2001"), "{}", row.modified);
    assert_eq!(row.duration, "");
    assert_eq!(row.path, "/v/a.mkv");
}

#[test]
fn the_selection_follows_the_file() {
    let files = vec![video("a", 1), video("b", 1), video("b", 1)];
    assert_eq!(selected_row(&files, "b"), Some(1));
    assert_eq!(selected_row(&files, "a"), Some(0));
    assert_eq!(selected_row(&files, "c"), None);
    assert_eq!(selected_row(&files, ""), None);
}

#[test]
fn the_library_is_summed_up() {
    assert_eq!(library_summary(0, 0), "");
    assert_eq!(library_summary(1, 512), "1 file · 512 B");
    assert_eq!(library_summary(12, 9_870_000_000), "12 files · 9.87 GB");
    assert_eq!(total_size(&vec![video("a", 5), video("b", 7)]), Some(12));
    assert_eq!(total_size(&vec![video("a", u64::MAX), video("b", 1)]), None);
}

#[test]
fn marks_are_kept_per_file() {
    let mut all = MarksByFile::new();
    assert_eq!(all.marks_for("a"), Marks::default());
    all.insert("a", marks(1.0, 2.0));
    all.insert("b", marks(3.0, 4.0));
    all.insert("a", marks(5.0, 6.0));
    assert_eq!(all.marks_for("a"), marks(5.0, 6.0));
    assert_eq!(all.marks_for("b"), marks(3.0, 4.0));
    all.remove("a");
    assert_eq!(all.marks_for("a"), Marks::default());
    assert_eq!(all.marks_for("b"), marks(3.0, 4.0));
}

#[test]
fn goto_finds_either_mark() {
    let m = Marks { in_point: Some(7), out_point: None };
    assert_eq!(goto_target(&m, 0), Some(7));
    assert_eq!(goto_target(&m, 1), None);
}

#[test]
fn a_selection_is_read_out() {
    let v = show_marks(&marks(62.5, 72.75), &READY);
    assert_eq!(v.selection_label, "1:02.50 → 1:12.75  (0:10.25)");
    assert_eq!((v.mark_in, v.mark_out), (Some(ns(62.5)), Some(ns(72.75))));
    assert!(v.can_refine && v.can_export && !v.leave_refining);
    assert_eq!(v.export_status, "Ready to export");
}

#[test]
fn an_export_needs_all_of_this() {
    let m = marks(1.0, 2.0);
    let can = |r: Readiness| show_marks(&m, &r).can_export;
    assert!(!can(Readiness { has_output_folder: false, ..READY }));
    assert!(!can(Readiness { exporting: true, ..READY }));
    assert!(!can(Readiness { encoder_available: false, ..READY }));
    // Neither a stream copy nor an audio-only export runs the encoder.
    assert!(can(Readiness { encoder_available: false, precise: false, ..READY }));
    assert!(can(Readiness { encoder_available: false, audio_only: true, ..READY }));
    assert_eq!(
        show_marks(&m, &Readiness { has_output_folder: false, ..READY }).export_status,
        "Choose an output folder"
    );
}

#[test]
fn without_a_selection_refining_ends() {
    let none = Marks::default();
    let v = show_marks(&none, &Readiness { refining: true, ..READY });
    assert!(v.leave_refining && !v.can_refine && !v.can_export);
    assert_eq!(v.selection_label, "");
    assert_eq!(v.export_status, "Set an in and out point to export");
    assert!(!show_marks(&none, &READY).leave_refining);
}

#[test]
fn refining_shows_a_margin() {
    let v = refine_view(&marks(10.0, 20.0), sec(100.0)).unwrap();
    assert_eq!((v.view_start, v.view_end), (ns(8.5), ns(21.5)));
    assert_eq!((v.loop_start, v.loop_end), (ns(10.0), ns(20.0)));
    // Never less than a quarter of a second, never more than five.
    let v = refine_view(&marks(10.0, 11.0), sec(100.0)).unwrap();
    assert_eq!((v.view_start, v.view_end), (ns(9.75), ns(11.25)));
    let v = refine_view(&marks(10.0, 90.0), sec(0.0)).unwrap();
    assert_eq!((v.view_start, v.view_end), (ns(5.0), ns(95.0)));
    // Never beyond the file.
    let v = refine_view(&marks(0.1, 9.9), sec(10.0)).unwrap();
    assert_eq!((v.view_start, v.view_end), (0, ns(10.0)));
    assert!(refine_view(&Marks::default(), sec(10.0)).is_none());
}

#[test]
fn refining_is_toggled() {
    let m = marks(1.0, 2.0);
    assert!(toggle_refine(false, &m, sec(9.0)).is_some());
    assert!(toggle_refine(true, &m, sec(9.0)).is_none());
    assert!(toggle_refine(false, &Marks::default(), sec(9.0)).is_none());
    assert_eq!(refined_loop(&m), Some((ns(1.0), ns(2.0))));
    assert_eq!(refined_loop(&Marks::default()), None);
}

#[test]
fn a_snap_is_asked_for_only_in_fast_mode() {
    let m = marks(5.0, 6.0);
    let file = || Some("a.mkv".to_string());
    assert_eq!(
        refresh_snap(CutMode::Fast, &m, true, file()),
        SnapAction::Request { file: "a.mkv".to_string(), mark: ns(5.0) }
    );
    assert_eq!(refresh_snap(CutMode::Fast, &m, true, None), SnapAction::Nothing);
    assert_eq!(refresh_snap(CutMode::Precise, &m, true, file()), SnapAction::Clear);
    assert_eq!(refresh_snap(CutMode::Fast, &m, false, file()), SnapAction::Clear);
    assert_eq!(
        refresh_snap(CutMode::Fast, &Marks::default(), true, file()),
        SnapAction::Clear
    );
}

#[test]
fn a_snap_is_told() {
    let result = |at: Option<f64>| SnapResult {
        file: "a.mkv".to_string(),
        mark: ns(65.0),
        snapped: at.map(ns),
    };
    let v = snap_view(&result(Some(62.5)), "a.mkv", ns(65.0)).unwrap();
    assert_eq!(v.ghost_in, Some(ns(62.5)));
    assert_eq!(v.note, "Fast cut starts at 1:02.50 — 2.5s before the in point");
    let v = snap_view(&result(Some(64.96)), "a.mkv", ns(65.001)).unwrap();
    assert_eq!(v.note, "Fast cut starts exactly on the in point");
    let v = snap_view(&result(None), "a.mkv", ns(65.0)).unwrap();
    assert_eq!((v.ghost_in, v.note.as_str()), (None, ""));
    assert!(snap_view(&result(None), "b.mkv", ns(65.0)).is_none());
    assert!(snap_view(&result(None), "a.mkv", ns(65.0011)).is_none());
}

#[test]
fn touching_the_slider_unmutes() {
    let c = set_volume(sec(40.0), true);
    assert_eq!(c.volume, sec(40.0));
    assert!(c.unmute);
    assert!(!set_volume(sec(40.0), false).unmute);
    assert!(!set_volume(sec(0.0), true).unmute);
    assert_eq!(set_volume(sec(200.0), false).volume, sec(130.0));
}

#[test]
fn names_are_suggested_from_the_source() {
    assert_eq!(suggest_filename("/v/Session 2026-08-14.mkv"), "Session 2026-08-14_001");
    assert_eq!(suggest_filename("a.b.mp4"), "a.b_001");
    assert_eq!(suggest_filename(".hidden"), ".hidden_001");
    assert_eq!(suggest_filename("plain"), "plain_001");
    assert_eq!(suggest_filename("/"), "clip_001");
    assert_eq!(suggest_filename(".."), "clip_001");
}

#[test]
fn an_export_is_planned() {
    let m = marks(1.0, 2.5);
    let p = plan_export(true, true, &m, true);
    assert_eq!(p, ExportPlan::Begin { start: ns(1.0), duration: ns(1.5) });
    assert_eq!(p.message(), None);
    let p = plan_export(false, true, &m, true);
    assert_eq!(p.message(), Some("ffmpeg was not found — cannot export"));
    let p = plan_export(true, true, &m, false);
    assert_eq!(p.message(), Some("Choose an output folder first"));
    let p = plan_export(true, false, &m, true);
    assert_eq!(p, ExportPlan::NothingSelected);
    assert_eq!(plan_export(true, true, &Marks::default(), false), ExportPlan::NothingSelected);
    assert_eq!(ExportPlan::NothingSelected.message(), None);
}

#[test]
fn an_export_tells_how_far_it_is() {
    let p = Progress { out_time: 5_000_000_000, speed: sec(2.04), ..Progress::default() };
    assert_eq!(export_detail(&p, sec(65.0)), "0:05 of 1:05  ·  2.0x  ·  about 0:29 left");
    let p = Progress { speed: sec(0.0), ..p };
    assert_eq!(export_detail(&p, sec(65.0)), "0:05 of 1:05");
}

#[test]
fn an_export_tells_how_it_ended() {
    let done = ExportEvent::Finished { output: "/clips/a_001.mp4".to_string() };
    assert_eq!(ended_status(&done).as_deref(), Some("Saved a_001.mp4"));
    let failed = ExportEvent::Failed { message: "no such file".to_string() };
    assert_eq!(ended_status(&failed).as_deref(), Some("Export failed: no such file"));
    assert_eq!(ended_status(&ExportEvent::Cancelled).as_deref(), Some("Export cancelled"));
    assert_eq!(ended_status(&ExportEvent::Progress(Progress::default())), None);
}

#[test]
fn self_checks_read_their_settings() {
    assert_eq!(autoselect("2", 3, -1), Some(2));
    assert_eq!(autoselect("+0", 3, -1), Some(0));
    assert_eq!(autoselect("-0", 3, -1), Some(0));
    for (asked, count, selected) in
        [("3", 3, -1), ("2", 3, 0), ("x", 3, -1), ("-1", 3, -1), ("", 3, -1), ("-+0", 3, -1)]
    {
        assert_eq!(autoselect(asked, count, selected), None, "{asked}");
    }
    assert_eq!(automark("1.5, 9"), Some((sec(1.5), sec(9.0))));
    assert_eq!(automark("x,1, 2 ,3"), Some((sec(1.0), sec(2.0))));
    assert_eq!(automark("1"), None);
    assert_eq!(dump_after(None), 120);
    assert_eq!(dump_after(Some("7")), 7);
    assert_eq!(dump_after(Some("seven")), 120);
    assert!(!dump_is_due(5, 7));
    assert!(dump_is_due(6, 7));
    assert!(dump_is_due(0, 0) && dump_is_due(u32::MAX, u32::MAX));
}
