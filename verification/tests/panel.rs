use clipcut::encode::{AudioHandling, Container, CutMode, EncodeSettings, Speed, VideoEncoder};
use clipcut::media::parse_encoders;
use clipcut::panel::{
    audio_index, audio_modes, availability, container_index, containers, encoder_index,
    encoder_labels, encoder_warning, encoders, encoding_view, labels, set_audio, set_container,
    set_encoder, set_mode, set_quality, set_speed, speed_index, speeds,
};

#[test]
fn the_options_are_these() {
    assert_eq!(
        labels(&encoders()),
        vec!["H.264 (x264, software)", "H.264 (NVENC)", "HEVC (NVENC)", "AV1 (NVENC)"]
    );
    assert_eq!(
        labels(&speeds()),
        vec!["Fastest", "Fast", "Balanced", "Slow", "Slowest (best quality)"]
    );
    assert_eq!(labels(&containers()), vec!["MP4", "MKV", "MP3 (audio only)"]);
    assert_eq!(
        labels(&audio_modes()),
        vec!["AAC 192 kbps", "AAC 320 kbps", "Copy original"]
    );
}

#[test]
fn every_value_stands_where_its_index_says() {
    for (i, (_, v)) in encoders().iter().enumerate() {
        assert_eq!(encoder_index(*v), i as i32);
    }
    for (i, (_, v)) in speeds().iter().enumerate() {
        assert_eq!(speed_index(*v), i as i32);
    }
    for (i, (_, v)) in containers().iter().enumerate() {
        assert_eq!(container_index(*v), i as i32);
    }
    for (i, (_, v)) in audio_modes().iter().enumerate() {
        assert_eq!(audio_index(*v), i as i32);
    }
    assert_eq!(audio_index(AudioHandling::Aac { kbps: 64 }), 0, "unlisted: the top");
}

#[test]
fn options_are_chosen_by_their_place() {
    let mut e = EncodeSettings { quality: 60, ..Default::default() };
    set_encoder(&mut e, 3);
    assert_eq!((e.video, e.quality), (VideoEncoder::NvencAv1, 51));
    set_speed(&mut e, 0);
    assert_eq!(e.speed, Speed::Fastest);
    set_container(&mut e, 2);
    assert_eq!(e.container, Container::Mp3);
    set_audio(&mut e, 1);
    assert_eq!(e.audio, AudioHandling::Aac { kbps: 320 });
    set_mode(&mut e, false);
    assert_eq!(e.mode, CutMode::Fast);
    set_mode(&mut e, true);
    assert_eq!(e.mode, CutMode::Precise);
}

#[test]
fn a_place_outside_the_list_changes_nothing() {
    let mut e = EncodeSettings { quality: 60, ..Default::default() };
    let before = e;
    for i in [-1, 5, 100] {
        set_encoder(&mut e, i);
        set_speed(&mut e, i);
        set_container(&mut e, i);
        set_audio(&mut e, i);
        assert_eq!(e, before);
    }
}

#[test]
fn quality_stays_on_the_scale() {
    let mut e = EncodeSettings::default();
    for (asked, got) in [(0, 0), (18, 18), (51, 51), (52, 51), (-1, 51)] {
        set_quality(&mut e, asked);
        assert_eq!(e.quality, got);
    }
}

#[test]
fn the_panel_follows_the_settings() {
    let v = encoding_view(&EncodeSettings::default());
    assert!(v.precise && !v.audio_only);
    assert_eq!((v.encoder_index, v.speed_index), (0, 2));
    assert_eq!((v.container_index, v.audio_index), (0, 0));
    assert_eq!((v.quality, v.quality_min, v.quality_max), (20, 0, 51));
    assert_eq!((v.quality_label, v.output_extension), ("CRF", "mp4"));
    assert_eq!(v.summary, "H.264 (x264, software) · CRF 20");

    let v = encoding_view(&EncodeSettings {
        video: VideoEncoder::NvencHevc,
        quality: 26,
        container: Container::Mp3,
        ..Default::default()
    });
    assert!(v.audio_only);
    assert_eq!(v.summary, "HEVC (NVENC) · CQ 26");
    assert_eq!(v.output_extension, "mp3");

    let v = encoding_view(&EncodeSettings { mode: CutMode::Fast, ..Default::default() });
    assert!(!v.precise);
    assert_eq!(v.summary, "Stream copy");
}

#[test]
fn encoders_that_cannot_be_used_are_marked() {
    let usable = parse_encoders(" -----\n V libx264 x\n V av1_nvenc x\n");
    let available = availability(&usable);
    assert_eq!(available, vec![true, false, false, true]);
    assert_eq!(
        encoder_labels(&available),
        vec![
            "H.264 (x264, software)",
            "H.264 (NVENC) — unavailable",
            "HEVC (NVENC) — unavailable",
            "AV1 (NVENC)"
        ]
    );
}

#[test]
fn the_warning_says_what_is_missing() {
    let available = [false, false, true, true];
    assert_eq!(
        encoder_warning(0, &available),
        (false, "Your ffmpeg build does not provide this encoder. Choose another.")
    );
    assert_eq!(
        encoder_warning(1, &available),
        (false, "This encoder needs an NVIDIA GPU that ffmpeg can reach. Choose another.")
    );
    assert_eq!(encoder_warning(2, &available), (true, ""));
    // Assumed available until the probe has reported.
    assert_eq!(encoder_warning(1, &[]), (true, ""));
    assert_eq!(encoder_warning(-1, &available), (true, ""));
}
