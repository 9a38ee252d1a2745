use clipcut::encode::{
    build_args, display_command, AudioHandling, Container, CutMode, EncodeSettings, ExportRequest,
    Speed, VideoEncoder,
};
use clipcut::fixed::Real;

fn sec(v: f64) -> Real {
    Real::Finite((v * 1e9).round() as i128)
}

fn req(settings: EncodeSettings) -> ExportRequest {
    ExportRequest {
        input: "in.mkv".to_string(),
        output: "out.mp4".to_string(),
        start: sec(62.5),
        duration: sec(10.0),
        audio_track: None,
        settings,
    }
}

/// Index of `flag`, or None. Used to assert argument ordering.
fn pos(args: &[String], flag: &str) -> Option<usize> {
    args.iter().position(|a| a == flag)
}

fn value_of(args: &[String], flag: &str) -> Option<String> {
    pos(args, flag).and_then(|i| args.get(i + 1)).cloned()
}

#[test]
fn seek_precedes_input_for_fast_seeking() {
    let args = build_args(&req(EncodeSettings::default()));
    let ss = pos(&args, "-ss").expect("-ss present");
    let i = pos(&args, "-i").expect("-i present");
    assert!(ss < i, "-ss must come before -i to get a fast input seek");
    assert_eq!(value_of(&args, "-ss").as_deref(), Some("00:01:02.500"));
}

#[test]
fn duration_is_an_output_option() {
    let args = build_args(&req(EncodeSettings::default()));
    let i = pos(&args, "-i").unwrap();
    let t = pos(&args, "-t").unwrap();
    assert!(t > i, "-t must follow -i so it is an output-side duration");
    assert_eq!(value_of(&args, "-t").as_deref(), Some("00:00:10.000"));
}

#[test]
fn x264_uses_crf() {
    let args = build_args(&req(EncodeSettings {
        video: VideoEncoder::X264,
        quality: 18,
        speed: Speed::Slow,
        ..Default::default()
    }));
    assert_eq!(value_of(&args, "-c:v").as_deref(), Some("libx264"));
    assert_eq!(value_of(&args, "-crf").as_deref(), Some("18"));
    assert_eq!(value_of(&args, "-preset").as_deref(), Some("slow"));
    assert!(pos(&args, "-cq").is_none(), "x264 must not receive -cq");
}

/// NVENC silently ignores -crf and falls back to a default bitrate.
#[test]
fn nvenc_uses_cq_and_never_crf() {
    for enc in [
        VideoEncoder::NvencH264,
        VideoEncoder::NvencHevc,
        VideoEncoder::NvencAv1,
    ] {
        let args = build_args(&req(EncodeSettings {
            video: enc,
            quality: 26,
            ..Default::default()
        }));
        assert!(
            pos(&args, "-crf").is_none(),
            "{enc:?} must not receive -crf: NVENC ignores it"
        );
        assert_eq!(value_of(&args, "-cq").as_deref(), Some("26"));
        // Without these, -cq is overridden by a default bitrate.
        assert_eq!(value_of(&args, "-rc").as_deref(), Some("vbr"));
        assert_eq!(value_of(&args, "-b:v").as_deref(), Some("0"));
    }
}

#[test]
fn nvenc_presets_use_the_p_scale() {
    let args = build_args(&req(EncodeSettings {
        video: VideoEncoder::NvencH264,
        speed: Speed::Slowest,
        ..Default::default()
    }));
    assert_eq!(value_of(&args, "-preset").as_deref(), Some("p7"));
}

#[test]
fn fast_mode_copies_streams_and_ignores_encoder_settings() {
    let args = build_args(&req(EncodeSettings {
        mode: CutMode::Fast,
        video: VideoEncoder::X264,
        quality: 12,
        ..Default::default()
    }));
    assert_eq!(value_of(&args, "-c").as_deref(), Some("copy"));
    assert_eq!(
        value_of(&args, "-avoid_negative_ts").as_deref(),
        Some("make_zero")
    );
    assert!(pos(&args, "-crf").is_none());
    assert!(pos(&args, "-c:v").is_none());
}

#[test]
fn audio_handling_is_explicit() {
    let copy = build_args(&req(EncodeSettings {
        audio: AudioHandling::Copy,
        ..Default::default()
    }));
    assert_eq!(value_of(&copy, "-c:a").as_deref(), Some("copy"));

    let aac = build_args(&req(EncodeSettings {
        audio: AudioHandling::Aac { kbps: 256 },
        ..Default::default()
    }));
    assert_eq!(value_of(&aac, "-c:a").as_deref(), Some("aac"));
    assert_eq!(value_of(&aac, "-b:a").as_deref(), Some("256k"));
}

#[test]
fn missing_audio_stream_is_tolerated() {
    let args = build_args(&req(EncodeSettings::default()));
    assert!(
        args.iter().any(|a| a == "0:a:0?"),
        "optional-stream '?' keeps silent sources from failing the export"
    );
}

#[test]
fn explicit_audio_track_is_mapped() {
    let mut r = req(EncodeSettings::default());
    r.audio_track = Some(2);
    let args = build_args(&r);
    assert!(args.iter().any(|a| a == "0:a:2"));
}

#[test]
fn mp3_drops_the_video_entirely() {
    let args = build_args(&req(EncodeSettings {
        container: Container::Mp3,
        ..Default::default()
    }));
    assert!(args.iter().any(|a| a == "-vn"), "video must be disabled");
    assert!(
        !args.iter().any(|a| a == "0:v:0"),
        "no video stream should be mapped into an audio-only container"
    );
    assert_eq!(value_of(&args, "-c:a").as_deref(), Some("libmp3lame"));
    assert!(pos(&args, "-c:v").is_none());
    assert!(pos(&args, "-movflags").is_none());
}

/// Stream copy is meaningless for MP3: there is no video to copy, and the
/// audio must be re-encoded to MP3 regardless of the chosen mode.
#[test]
fn mp3_ignores_the_cut_mode() {
    let fast = build_args(&req(EncodeSettings {
        container: Container::Mp3,
        mode: CutMode::Fast,
        ..Default::default()
    }));
    assert!(
        !fast.iter().any(|a| a == "copy"),
        "Fast mode must not produce a stream copy into an MP3"
    );
    assert_eq!(value_of(&fast, "-c:a").as_deref(), Some("libmp3lame"));
}

#[test]
fn mp3_falls_back_to_a_quality_target_when_audio_is_set_to_copy() {
    let args = build_args(&req(EncodeSettings {
        container: Container::Mp3,
        audio: AudioHandling::Copy,
        ..Default::default()
    }));
    // Passing -c:a copy here would yield an unplayable file.
    assert_eq!(value_of(&args, "-q:a").as_deref(), Some("2"));
    assert!(!args.iter().any(|a| a == "copy"));
}

#[test]
fn mp3_still_honours_the_marks() {
    let args = build_args(&req(EncodeSettings {
        container: Container::Mp3,
        ..Default::default()
    }));
    assert_eq!(value_of(&args, "-ss").as_deref(), Some("00:01:02.500"));
    assert_eq!(value_of(&args, "-t").as_deref(), Some("00:00:10.000"));
    assert_eq!(value_of(&args, "-progress").as_deref(), Some("pipe:1"));
}

#[test]
fn faststart_only_for_mp4() {
    let mp4 = build_args(&req(EncodeSettings {
        container: Container::Mp4,
        ..Default::default()
    }));
    assert!(pos(&mp4, "-movflags").is_some());

    let mkv = build_args(&req(EncodeSettings {
        container: Container::Mkv,
        ..Default::default()
    }));
    assert!(
        pos(&mkv, "-movflags").is_none(),
        "+faststart is an MP4 concept"
    );
}

#[test]
fn progress_is_machine_readable() {
    let args = build_args(&req(EncodeSettings::default()));
    assert_eq!(value_of(&args, "-progress").as_deref(), Some("pipe:1"));
    assert!(pos(&args, "-nostats").is_some());
}

#[test]
fn command_renders_with_quoted_paths() {
    let mut r = req(EncodeSettings::default());
    r.input = "C:\\my videos\\a.mkv".to_string();
    let line = display_command("ffmpeg", &build_args(&r));
    assert!(line.contains("\"C:\\my videos\\a.mkv\""));
}

#[test]
fn the_default_export_is_this_command() {
    let line = display_command("ffmpeg", &build_args(&req(EncodeSettings::default())));
    assert_eq!(
        line,
        "ffmpeg -hide_banner -nostdin -ss 00:01:02.500 -i in.mkv -map 0:v:0 -map 0:a:0? \
         -c:v libx264 -crf 20 -preset medium -pix_fmt yuv420p -c:a aac -b:a 192k \
         -t 00:00:10.000 -movflags +faststart -progress pipe:1 -nostats -y out.mp4"
    );
}

#[test]
fn fast_exports_of_any_encoder_are_the_same() {
    let a = build_args(&req(EncodeSettings {
        mode: CutMode::Fast,
        container: Container::Mkv,
        ..Default::default()
    }));
    let b = build_args(&req(EncodeSettings {
        mode: CutMode::Fast,
        container: Container::Mkv,
        video: VideoEncoder::NvencAv1,
        quality: 51,
        speed: Speed::Fastest,
        audio: AudioHandling::Copy,
    }));
    assert_eq!(a, b);
}

#[test]
fn mp3_exports_of_any_mode_are_the_same() {
    let a = build_args(&req(EncodeSettings {
        container: Container::Mp3,
        ..Default::default()
    }));
    let b = build_args(&req(EncodeSettings {
        container: Container::Mp3,
        mode: CutMode::Fast,
        video: VideoEncoder::NvencHevc,
        quality: 1,
        speed: Speed::Slow,
        ..Default::default()
    }));
    assert_eq!(a, b);
}

#[test]
fn a_file_may_be_called_like_a_flag() {
    let mut r = req(EncodeSettings {
        video: VideoEncoder::NvencHevc,
        ..Default::default()
    });
    r.output = "-crf".to_string();
    let args = build_args(&r);
    assert_eq!(pos(&args, "-crf"), Some(args.len() - 1));
}

#[test]
fn arguments_with_spaces_are_quoted_and_others_are_not() {
    let args = vec!["a b".to_string(), "c".to_string(), "".to_string()];
    assert_eq!(display_command("my ffmpeg", &args), "\"my ffmpeg\" \"a b\" c ");
    assert_eq!(display_command("ffmpeg", &[]), "ffmpeg");
}

#[test]
fn every_encoder_has_its_names_and_scale() {
    let all = [
        (VideoEncoder::X264, "libx264", "CRF", 20, false),
        (VideoEncoder::NvencH264, "h264_nvenc", "CQ", 23, true),
        (VideoEncoder::NvencHevc, "hevc_nvenc", "CQ", 23, true),
        (VideoEncoder::NvencAv1, "av1_nvenc", "CQ", 23, true),
    ];
    for (enc, name, label, default, nvidia) in all {
        assert_eq!(enc.ffmpeg_name(), name);
        assert_eq!(enc.quality_label(), label);
        assert_eq!(enc.quality_range(), (0, 51, default));
        assert_eq!(enc.needs_nvidia(), nvidia);
    }
}

#[test]
fn every_speed_has_a_preset_of_each_kind() {
    let all = [
        (Speed::Fastest, "ultrafast", "p1"),
        (Speed::Fast, "veryfast", "p3"),
        (Speed::Balanced, "medium", "p4"),
        (Speed::Slow, "slow", "p6"),
        (Speed::Slowest, "veryslow", "p7"),
    ];
    for (speed, soft, hard) in all {
        for (video, preset) in [(VideoEncoder::X264, soft), (VideoEncoder::NvencAv1, hard)] {
            let args = build_args(&req(EncodeSettings {
                video,
                speed,
                ..Default::default()
            }));
            assert_eq!(value_of(&args, "-preset").as_deref(), Some(preset));
        }
    }
}

#[test]
fn containers_know_their_extension() {
    assert_eq!(Container::Mp4.extension(), "mp4");
    assert_eq!(Container::Mkv.extension(), "mkv");
    assert_eq!(Container::Mp3.extension(), "mp3");
    assert!(Container::Mp3.is_audio_only());
    assert!(!Container::Mp4.is_audio_only() && !Container::Mkv.is_audio_only());
}

#[test]
fn only_h264_asks_for_a_pixel_format() {
    for (video, wanted) in [
        (VideoEncoder::X264, true),
        (VideoEncoder::NvencH264, true),
        (VideoEncoder::NvencHevc, false),
        (VideoEncoder::NvencAv1, false),
    ] {
        let args = build_args(&req(EncodeSettings {
            video,
            ..Default::default()
        }));
        assert_eq!(
            value_of(&args, "-pix_fmt").as_deref(),
            if wanted { Some("yuv420p") } else { None }
        );
    }
}

/// One command of each kind, whole.
#[test]
fn commands_are_these() {
    let of = |settings: EncodeSettings| {
        let ext = settings.container.extension();
        let req = ExportRequest {
            input: "D:\\recordings\\Session 2026-08-14.mkv".to_string(),
            output: format!("D:\\clips\\Session 2026-08-14_001.{ext}"),
            start: sec(754.5),
            duration: sec(32.0),
            audio_track: None,
            settings,
        };
        display_command("ffmpeg", &build_args(&req))
    };
    let front = "ffmpeg -hide_banner -nostdin -ss 00:12:34.500 \
                 -i \"D:\\recordings\\Session 2026-08-14.mkv\" -map 0:v:0 -map 0:a:0?";
    let back = "-progress pipe:1 -nostats -y \"D:\\clips\\Session 2026-08-14_001.";

    let nvenc = of(EncodeSettings {
        mode: CutMode::Precise,
        video: VideoEncoder::NvencH264,
        quality: 23,
        speed: Speed::Slow,
        audio: AudioHandling::Aac { kbps: 192 },
        container: Container::Mp4,
    });
    assert_eq!(
        nvenc,
        format!(
            "{front} -c:v h264_nvenc -rc vbr -cq 23 -b:v 0 -preset p6 -pix_fmt yuv420p -c:a aac \
             -b:a 192k -t 00:00:32.000 -movflags +faststart {back}mp4\""
        )
    );

    let av1 = of(EncodeSettings {
        mode: CutMode::Precise,
        video: VideoEncoder::NvencAv1,
        quality: 28,
        speed: Speed::Balanced,
        audio: AudioHandling::Copy,
        container: Container::Mkv,
    });
    assert_eq!(
        av1,
        format!(
            "{front} -c:v av1_nvenc -rc vbr -cq 28 -b:v 0 -preset p4 -c:a copy \
             -t 00:00:32.000 {back}mkv\""
        )
    );

    let fast = of(EncodeSettings {
        mode: CutMode::Fast,
        container: Container::Mkv,
        ..Default::default()
    });
    assert_eq!(
        fast,
        format!("{front} -c copy -avoid_negative_ts make_zero -t 00:00:32.000 {back}mkv\"")
    );
}

/// The words of a line, as a terminal takes it apart.
fn words(line: &str) -> Vec<String> {
    let mut all = vec![String::new()];
    let mut quoting = false;
    for c in line.chars() {
        if c == '"' {
            quoting = !quoting;
        } else if c == ' ' && !quoting {
            all.push(String::new());
        } else {
            all.last_mut().unwrap().push(c);
        }
    }
    all
}

#[test]
fn a_rendered_line_reads_back() {
    let mut r = req(EncodeSettings::default());
    r.input = "/my videos/a  b.mkv".to_string();
    r.output = "/clips/out 1.mp4".to_string();
    let args = build_args(&r);
    let back = words(&display_command("/opt/my tools/ffmpeg", &args));
    assert_eq!(back[0], "/opt/my tools/ffmpeg");
    assert_eq!(back[1..], args[..]);
}
