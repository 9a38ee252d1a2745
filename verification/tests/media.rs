use clipcut::fixed::Real;
use clipcut::media::{
    configured_folder, exe, parse_encoders, parse_keyframes, snap_target, Folder, ProbeError,
    ProbeOutput, Search, SnapProbe, Tools, ToolsError,
};

fn ns(v: f64) -> i128 {
    (v * 1e9).round() as i128
}

fn sec(v: f64) -> Real {
    Real::Finite(ns(v))
}

fn all_ns(vs: &[f64]) -> Vec<i128> {
    vs.iter().map(|v| ns(*v)).collect()
}

#[test]
fn keyframes_are_the_rows_flagged_k() {
    let csv = "\
0.000000,K__
2.002000,__
4.004000,__
6.006000,K__
8.008000,__
";
    assert_eq!(parse_keyframes(csv), all_ns(&[0.0, 6.006]));
}

#[test]
fn unavailable_timestamps_are_skipped_not_guessed() {
    let csv = "N/A,K__\n5.5,K__\n,K__\n";
    assert_eq!(parse_keyframes(csv), all_ns(&[5.5]));
}

#[test]
fn malformed_rows_do_not_break_the_probe() {
    let csv = "garbage\n\n1.5,K__\nonlyonefield\n";
    assert_eq!(parse_keyframes(csv), all_ns(&[1.5]));
}

#[test]
fn results_are_sorted_and_deduplicated() {
    let csv = "6.0,K__\n2.0,K__\n6.0,K__\n";
    assert_eq!(parse_keyframes(csv), all_ns(&[2.0, 6.0]));
}

#[test]
fn snap_picks_the_preceding_keyframe() {
    let keys = all_ns(&[0.0, 4.0, 8.0, 12.0]);
    assert_eq!(snap_target(&keys, sec(9.5)), Some(ns(8.0)));
    assert_eq!(snap_target(&keys, sec(12.0)), Some(ns(12.0)), "exact hit stays put");
    assert_eq!(snap_target(&keys, sec(0.0)), Some(ns(0.0)));
}

#[test]
fn snap_never_jumps_forward() {
    // Landing after the mark would silently drop wanted footage.
    let keys = all_ns(&[10.0, 20.0]);
    assert_eq!(snap_target(&keys, sec(5.0)), None);
}

#[test]
fn snap_on_an_empty_window_is_unknown() {
    assert_eq!(snap_target(&[], sec(42.0)), None);
}

#[test]
fn encoder_list_is_parsed_from_the_table() {
    let text = "\
Encoders:
 V..... = Video
 ------
 V....D libx264              libx264 H.264 / AVC
 V....D h264_nvenc           NVIDIA NVENC H.264 encoder
 A....D aac                  AAC (Advanced Audio Coding)
";
    let found = parse_encoders(text);
    assert!(found.contains("libx264"));
    assert!(found.contains("h264_nvenc"));
    assert!(found.contains("aac"));
    assert!(
        !found.contains("Encoders:"),
        "the header must not be mistaken for an encoder"
    );
}

#[test]
fn nothing_is_listed_without_the_rule() {
    let found = parse_encoders(" V....D libx264 x\n");
    assert!(!found.contains("libx264"));
    let odd = parse_encoders(" -----\nlone\n a  b\r\n\n -----\n");
    assert!(odd.contains("b") && !odd.contains("lone") && !odd.contains("-----"));
}

#[test]
fn what_ffmpeg_printed_is_decoded() {
    let set = Tools::encoders(Some(b" ------\n V..... libx264 \xff\n"));
    assert!(set.contains("libx264"));
    assert!(!Tools::encoders(None).contains("libx264"));
}

#[test]
fn an_encoder_is_usable_when_it_is_built_in_and_works() {
    let built_in = parse_encoders(" -----\n V a x\n V b x\n V c x\n");
    let usable = Tools::usable_encoders(&["a", "b", "d", "a"], &built_in, |name: &str| name != "b");
    assert!(usable.contains("a"));
    assert!(!usable.contains("b"), "it failed the trial");
    assert!(!usable.contains("c"), "it is no candidate");
    assert!(!usable.contains("d"), "it is not built in");
}

#[test]
fn only_what_is_built_in_is_tried() {
    let built_in = parse_encoders(" -----\n V a x\n V b x\n");
    let tried = std::cell::RefCell::new(Vec::new());
    Tools::usable_encoders(&["d", "b", "e", "a"], &built_in, |name: &str| {
        tried.borrow_mut().push(name.to_string());
        true
    });
    assert_eq!(tried.into_inner(), vec!["b", "a"]);
}

#[test]
fn a_trial_that_cannot_run_is_a_failed_one() {
    assert!(Tools::can_encode(Some(true)));
    assert!(!Tools::can_encode(Some(false)));
    assert!(!Tools::can_encode(None));
}

#[test]
fn the_tools_are_asked_like_this() {
    assert_eq!(
        Tools::encoders_args(),
        vec!["-hide_banner", "-loglevel", "error", "-encoders"]
    );
    assert_eq!(
        Tools::can_encode_args("h264_nvenc").join(" "),
        "-hide_banner -loglevel error -f lavfi -i nullsrc=s=256x144:r=25:d=0.2 \
         -c:v h264_nvenc -frames:v 1 -f null -"
    );
    assert_eq!(
        Tools::keyframes_near_args("a b.mkv", sec(100.25)).join(" "),
        "-v error -select_streams v:0 -show_packets -show_entries packet=pts_time,flags \
         -read_intervals 40.250%102.250 -of csv=p=0 a b.mkv"
    );
}

#[test]
fn the_probe_does_not_begin_before_the_file() {
    assert_eq!(Tools::keyframes_near_args("a", sec(5.0))[8], "0.000%7.000");
    assert_eq!(Tools::keyframes_near_args("a", sec(60.0005))[8], "0.001%62.001");
    assert_eq!(Tools::keyframes_near_args("a", Real::NaN)[8], "0.000%NaN");
    assert_eq!(Tools::keyframes_near_args("a", Real::PosInf)[8], "inf%inf");
    assert_eq!(Tools::keyframes_near_args("a", Real::NegInf)[8], "0.000%-inf");
}

#[test]
fn probes_tell_keyframes_or_why_not() {
    let printed = ProbeOutput::Printed { stdout: b"2.5,K_\n1.5,K_\n3.5,_\n".to_vec() };
    assert_eq!(Tools::keyframes_near(&printed).unwrap(), all_ns(&[1.5, 2.5]));

    let failed = ProbeOutput::Failed { stderr: b"  a.mkv: Invalid data\n".to_vec() };
    let why = Tools::keyframes_near(&failed).unwrap_err();
    assert_eq!(why.message(), "ffprobe failed: a.mkv: Invalid data");

    let why = Tools::keyframes_near(&ProbeOutput::NotRun).unwrap_err();
    assert!(matches!(why, ProbeError::NotRun));
    assert_eq!(why.message(), "could not run ffprobe");
}

#[test]
fn a_keyframe_just_after_the_mark_is_not_reached() {
    let keys = [ns(1.0), ns(2.0)];
    assert_eq!(snap_target(&keys, Real::Finite(ns(2.0))), Some(ns(2.0)));
    assert_eq!(snap_target(&keys, Real::Finite(ns(2.0) - 1)), Some(ns(1.0)));
    assert_eq!(snap_target(&keys, Real::Finite(ns(1.0) - 1)), None);
    assert_eq!(snap_target(&keys, Real::PosInf), Some(ns(2.0)));
    assert_eq!(snap_target(&keys, Real::NegInf), None);
    assert_eq!(snap_target(&keys, Real::NaN), None);
    assert_eq!(snap_target(&keys, Real::Finite(i128::MAX)), Some(ns(2.0)));
}

#[test]
fn a_keyframe_just_before_the_start_is_none() {
    assert_eq!(parse_keyframes("-0.0000000001,K\n-0.0,K\n0.0000000001,K\n"), vec![0, 1]);
}

#[test]
fn the_newest_probe_is_served_last() {
    let mut probe = SnapProbe::new();
    let mut served: Vec<i128> = Vec::new();
    for n in 0..50 {
        probe.request("a.mkv".to_string(), n);
        if n % 5 == 2 {
            served.extend(probe.next().map(|(_, mark)| mark));
        }
    }
    served.extend(probe.next().map(|(_, mark)| mark));
    assert_eq!(served, vec![2, 7, 12, 17, 22, 27, 32, 37, 42, 47, 49]);
    assert_eq!(probe.next(), None);
}

#[test]
fn odd_rows_of_the_table() {
    let csv = " 1.0 , K__ ,more\r\n-1.0,K\ninf,K\nnan,K\n1e1,K\n2,k__\n";
    assert_eq!(parse_keyframes(csv), all_ns(&[1.0, 10.0]));
}

#[test]
fn a_probe_is_answered_for_the_latest_request() {
    let mut probe = SnapProbe::new();
    assert_eq!(probe.next(), None);
    probe.request("a.mkv".to_string(), 1);
    probe.request("b.mkv".to_string(), ns(9.5));
    let (file, mark) = probe.next().unwrap();
    assert_eq!((file.as_str(), mark), ("b.mkv", ns(9.5)));
    assert_eq!(probe.next(), None);

    let out = ProbeOutput::Printed { stdout: b"8.0,K\n4.0,K\n12.0,K\n".to_vec() };
    let answer = SnapProbe::answer(file, mark, &out);
    assert_eq!(answer.file, "b.mkv");
    assert_eq!(answer.mark, ns(9.5));
    assert_eq!(answer.snapped, Some(ns(8.0)));

    let none = SnapProbe::answer("b.mkv".to_string(), mark, &ProbeOutput::NotRun);
    assert_eq!(none.snapped, None);
}

#[test]
fn tools_in_a_folder_come_as_a_pair() {
    let folder = |a: bool, b: bool| Folder {
        dir: "/opt/ff".to_string(),
        ffmpeg: "/opt/ff/ffmpeg".to_string(),
        ffprobe: "/opt/ff/ffprobe".to_string(),
        has_ffmpeg: a,
        has_ffprobe: b,
    };
    let t = Tools::discover(Some(folder(true, true))).unwrap();
    assert_eq!(t.ffmpeg, "/opt/ff/ffmpeg");
    assert_eq!(t.ffprobe, "/opt/ff/ffprobe");
    for (a, b) in [(true, false), (false, true), (false, false)] {
        let e = Tools::discover(Some(folder(a, b))).unwrap_err();
        assert_eq!(
            e.message(),
            "no ffmpeg/ffprobe pair in /opt/ff — check the configured path"
        );
    }
}

#[test]
fn tools_on_the_path_are_both_needed() {
    let on_path = |a: Option<&str>, b: Option<&str>| Search::OnPath {
        ffmpeg: a.map(|s| s.to_string()),
        ffprobe: b.map(|s| s.to_string()),
    };
    let t = Tools::resolve(on_path(Some("/bin/ffmpeg"), Some("/bin/ffprobe"))).unwrap();
    assert_eq!((t.ffmpeg.as_str(), t.ffprobe.as_str()), ("/bin/ffmpeg", "/bin/ffprobe"));
    assert_eq!(
        Tools::resolve(on_path(None, Some("x"))).unwrap_err().message(),
        "ffmpeg is not on PATH"
    );
    assert_eq!(
        Tools::resolve(on_path(Some("x"), None)).unwrap_err().message(),
        "ffprobe is not on PATH"
    );
}

#[test]
fn a_search_without_a_folder_goes_by_the_path() {
    match Tools::discover(None) {
        Ok(t) => {
            for (path, name) in [(&t.ffmpeg, "ffmpeg"), (&t.ffprobe, "ffprobe")] {
                let path = std::path::Path::new(path);
                assert!(path.is_absolute(), "{}", path.display());
                let stem = path.file_stem().unwrap().to_str().unwrap();
                assert!(stem.eq_ignore_ascii_case(name), "{}", path.display());
            }
        }
        Err(e) => assert!(e.message().ends_with(" is not on PATH"), "{}", e.message()),
    }
}

#[test]
fn a_configured_path_stands_for_a_folder() {
    assert_eq!(configured_folder("/opt/ff", true, None).unwrap(), "/opt/ff");
    assert_eq!(
        configured_folder("/opt/ff/ffmpeg", false, Some("/opt/ff".to_string())).unwrap(),
        "/opt/ff"
    );
    let e = configured_folder("/", false, None).unwrap_err();
    assert!(matches!(e, ToolsError::NoFolder { .. }));
    assert_eq!(e.message(), "/ has no parent directory");
    assert_eq!(exe("ffmpeg", true), "ffmpeg.exe");
    assert_eq!(exe("ffmpeg", false), "ffmpeg");
}
