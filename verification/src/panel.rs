//! The encoding panel: the options it offers, and what it shows of the settings.

use vstd::prelude::*;

use crate::config::{held, hold};
use crate::encode::{
    AudioHandling, Container, CutMode, EncodeSettings, Speed, VideoEncoder,
};
use crate::media::EncoderSet;
use crate::text::{digits, push_digits};

verus! {

// ---- options ------------------------------------------------------------------

/// Option lists shown in the encoding panel, paired with the values they map to.
pub open spec fn encoder_options() -> Seq<(Seq<char>, VideoEncoder)> {
    seq![
        ("H.264 (x264, software)"@, VideoEncoder::X264),
        ("H.264 (NVENC)"@, VideoEncoder::NvencH264),
        ("HEVC (NVENC)"@, VideoEncoder::NvencHevc),
        ("AV1 (NVENC)"@, VideoEncoder::NvencAv1),
    ]
}

pub open spec fn speed_options() -> Seq<(Seq<char>, Speed)> {
    seq![
        ("Fastest"@, Speed::Fastest),
        ("Fast"@, Speed::Fast),
        ("Balanced"@, Speed::Balanced),
        ("Slow"@, Speed::Slow),
        ("Slowest (best quality)"@, Speed::Slowest),
    ]
}

pub open spec fn container_options() -> Seq<(Seq<char>, Container)> {
    seq![
        ("MP4"@, Container::Mp4),
        ("MKV"@, Container::Mkv),
        ("MP3 (audio only)"@, Container::Mp3),
    ]
}

pub open spec fn audio_options() -> Seq<(Seq<char>, AudioHandling)> {
    seq![
        ("AAC 192 kbps"@, AudioHandling::Aac { kbps: 192 }),
        ("AAC 320 kbps"@, AudioHandling::Aac { kbps: 320 }),
        ("Copy original"@, AudioHandling::Copy),
    ]
}

/// What a list of options holds.
pub open spec fn option_views<T>(list: Seq<(&'static str, T)>) -> Seq<(Seq<char>, T)> {
    list.map_values(|o: (&'static str, T)| (o.0@, o.1))
}

pub fn encoders() -> (r: Vec<(&'static str, VideoEncoder)>)
    ensures
        option_views(r@) == encoder_options(),
{
    let mut r: Vec<(&'static str, VideoEncoder)> = Vec::new();
    r.push(("H.264 (x264, software)", VideoEncoder::X264));
    r.push(("H.264 (NVENC)", VideoEncoder::NvencH264));
    r.push(("HEVC (NVENC)", VideoEncoder::NvencHevc));
    r.push(("AV1 (NVENC)", VideoEncoder::NvencAv1));
    assert(option_views(r@) =~= encoder_options());
    r
}

pub fn speeds() -> (r: Vec<(&'static str, Speed)>)
    ensures
        option_views(r@) == speed_options(),
{
    let mut r: Vec<(&'static str, Speed)> = Vec::new();
    r.push(("Fastest", Speed::Fastest));
    r.push(("Fast", Speed::Fast));
    r.push(("Balanced", Speed::Balanced));
    r.push(("Slow", Speed::Slow));
    r.push(("Slowest (best quality)", Speed::Slowest));
    assert(option_views(r@) =~= speed_options());
    r
}

pub fn containers() -> (r: Vec<(&'static str, Container)>)
    ensures
        option_views(r@) == container_options(),
{
    let mut r: Vec<(&'static str, Container)> = Vec::new();
    r.push(("MP4", Container::Mp4));
    r.push(("MKV", Container::Mkv));
    r.push(("MP3 (audio only)", Container::Mp3));
    assert(option_views(r@) =~= container_options());
    r
}

pub fn audio_modes() -> (r: Vec<(&'static str, AudioHandling)>)
    ensures
        option_views(r@) == audio_options(),
{
    let mut r: Vec<(&'static str, AudioHandling)> = Vec::new();
    r.push(("AAC 192 kbps", AudioHandling::Aac { kbps: 192 }));
    r.push(("AAC 320 kbps", AudioHandling::Aac { kbps: 320 }));
    r.push(("Copy original", AudioHandling::Copy));
    assert(option_views(r@) =~= audio_options());
    r
}

/// The labels of a list of options, in its order.
pub fn labels<T>(list: &[(&'static str, T)]) -> (r: Vec<&'static str>)
    ensures
        r@.len() == list@.len(),
        forall|i: int| 0 <= i < list@.len() ==> (#[trigger] r@[i])@ == list@[i].0@,
{
    let mut r: Vec<&'static str> = Vec::new();
    let mut i: usize = 0;
    while i < list.len()
        invariant
            i <= list@.len(),
            r@.len() == i,
            forall|k: int| 0 <= k < i ==> (#[trigger] r@[k])@ == list@[k].0@,
        decreases list@.len() - i,
    {
        r.push(list[i].0);
        i += 1;
    }
    r
}

/// Where a value stands among the options: the first place, or the top when it is
/// none of them.
pub open spec fn place_of<T>(options: Seq<(Seq<char>, T)>, value: T) -> int
    decreases options.len(),
{
    if options.len() == 0 {
        0
    } else if options[0].1 == value {
        0
    } else if exists|i: int| 0 < i < options.len() && (#[trigger] options[i]).1 == value {
        1 + place_of(options.skip(1), value)
    } else {
        0
    }
}

/// A value stands at its first place.
proof fn stands_at<T>(options: Seq<(Seq<char>, T)>, value: T, at: int)
    requires
        0 <= at < options.len(),
        options[at].1 == value,
        forall|i: int| 0 <= i < at ==> (#[trigger] options[i]).1 != value,
    ensures
        place_of(options, value) == at,
    decreases at,
{
    if at > 0 {
        let rest = options.skip(1);
        assert(rest[at - 1] == options[at]);
        assert forall|i: int| 0 <= i < at - 1 implies (#[trigger] rest[i]).1 != value by {
            assert(options[i + 1].1 != value);
        }
        stands_at(rest, value, at - 1);
    }
}

pub fn encoder_index(v: VideoEncoder) -> (r: i32)
    ensures
        r == place_of(encoder_options(), v),
        0 <= r < 4,
        encoder_options()[r as int].1 == v,
{
    let r: i32 = match v {
        VideoEncoder::X264 => 0,
        VideoEncoder::NvencH264 => 1,
        VideoEncoder::NvencHevc => 2,
        VideoEncoder::NvencAv1 => 3,
    };
    proof {
        stands_at(encoder_options(), v, r as int);
    }
    r
}

pub fn speed_index(v: Speed) -> (r: i32)
    ensures
        r == place_of(speed_options(), v),
{
    let r: i32 = match v {
        Speed::Fastest => 0,
        Speed::Fast => 1,
        Speed::Balanced => 2,
        Speed::Slow => 3,
        Speed::Slowest => 4,
    };
    proof {
        stands_at(speed_options(), v, r as int);
    }
    r
}

pub fn container_index(v: Container) -> (r: i32)
    ensures
        r == place_of(container_options(), v),
{
    let r: i32 = match v {
        Container::Mp4 => 0,
        Container::Mkv => 1,
        Container::Mp3 => 2,
    };
    proof {
        stands_at(container_options(), v, r as int);
    }
    r
}

pub fn audio_index(v: AudioHandling) -> (r: i32)
    ensures
        r == place_of(audio_options(), v),
{
    match v {
        AudioHandling::Copy => {
            proof {
                stands_at(audio_options(), v, 2);
            }
            2
        },
        AudioHandling::Aac { kbps } => {
            if kbps == 320 {
                proof {
                    stands_at(audio_options(), v, 1);
                }
                1
            } else {
                0
            }
        },
    }
}

// ---- changes ------------------------------------------------------------------

/// The settings after an option was chosen, by its place in the list. A place
/// outside the list changes nothing.
pub open spec fn chosen<T>(options: Seq<(Seq<char>, T)>, i: int, now: T) -> T {
    if 0 <= i < options.len() {
        options[i].1
    } else {
        now
    }
}

/// The quality range of an encoder.
pub open spec fn quality_held(q: u32) -> u32 {
    held(q, 0, 51)
}

pub open spec fn with_mode(e: EncodeSettings, precise: bool) -> EncodeSettings {
    EncodeSettings {
        mode: if precise {
            CutMode::Precise
        } else {
            CutMode::Fast
        },
        ..e
    }
}

pub fn set_mode(e: &mut EncodeSettings, precise: bool)
    ensures
        *final(e) == with_mode(*old(e), precise),
{
    e.mode = if precise {
        CutMode::Precise
    } else {
        CutMode::Fast
    };
}

pub open spec fn with_encoder(e: EncodeSettings, i: int) -> EncodeSettings {
    EncodeSettings {
        video: chosen(encoder_options(), i, e.video),
        quality: if 0 <= i < encoder_options().len() {
            quality_held(e.quality)
        } else {
            e.quality
        },
        ..e
    }
}

/// The quality scale differs per encoder, so it is kept in range.
pub fn set_encoder(e: &mut EncodeSettings, i: i32)
    ensures
        *final(e) == with_encoder(*old(e), i as int),
{
    let list: Vec<(&'static str, VideoEncoder)> = encoders();
    assert(option_views(list@).len() == list@.len());
    if i >= 0 && (i as usize) < list.len() {
        let v: VideoEncoder = list[i as usize].1;
        assert(option_views(list@)[i as int].1 == v);
        e.video = v;
        let (lo, hi, _): (u32, u32, u32) = v.quality_range();
        e.quality = hold(e.quality, lo, hi);
    }
}

pub open spec fn with_speed(e: EncodeSettings, i: int) -> EncodeSettings {
    EncodeSettings { speed: chosen(speed_options(), i, e.speed), ..e }
}

pub fn set_speed(e: &mut EncodeSettings, i: i32)
    ensures
        *final(e) == with_speed(*old(e), i as int),
{
    let list: Vec<(&'static str, Speed)> = speeds();
    assert(option_views(list@).len() == list@.len());
    if i >= 0 && (i as usize) < list.len() {
        assert(option_views(list@)[i as int].1 == list@[i as int].1);
        e.speed = list[i as usize].1;
    }
}

pub open spec fn with_container(e: EncodeSettings, i: int) -> EncodeSettings {
    EncodeSettings { container: chosen(container_options(), i, e.container), ..e }
}

pub fn set_container(e: &mut EncodeSettings, i: i32)
    ensures
        *final(e) == with_container(*old(e), i as int),
{
    let list: Vec<(&'static str, Container)> = containers();
    assert(option_views(list@).len() == list@.len());
    if i >= 0 && (i as usize) < list.len() {
        assert(option_views(list@)[i as int].1 == list@[i as int].1);
        e.container = list[i as usize].1;
    }
}

pub open spec fn with_audio(e: EncodeSettings, i: int) -> EncodeSettings {
    EncodeSettings { audio: chosen(audio_options(), i, e.audio), ..e }
}

pub fn set_audio(e: &mut EncodeSettings, i: i32)
    ensures
        *final(e) == with_audio(*old(e), i as int),
{
    let list: Vec<(&'static str, AudioHandling)> = audio_modes();
    assert(option_views(list@).len() == list@.len());
    if i >= 0 && (i as usize) < list.len() {
        assert(option_views(list@)[i as int].1 == list@[i as int].1);
        e.audio = list[i as usize].1;
    }
}

pub open spec fn with_quality(e: EncodeSettings, q: i32) -> EncodeSettings {
    EncodeSettings {
        quality: if q < 0 {
            51
        } else {
            quality_held(q as u32)
        },
        ..e
    }
}

/// A quality below the scale is taken as one above it: the slider has no sign.
pub fn set_quality(e: &mut EncodeSettings, q: i32)
    ensures
        *final(e) == with_quality(*old(e), q),
{
    let (lo, hi, _): (u32, u32, u32) = e.video.quality_range();
    e.quality = if q < 0 {
        hi
    } else {
        hold(q as u32, lo, hi)
    };
}

// ---- what the panel shows -----------------------------------------------------

/// The panel as it is shown.
#[derive(Debug, Clone, PartialEq, Eq)]
pub struct EncodingView {
    pub precise: bool,
    pub audio_only: bool,
    pub encoder_index: i32,
    pub speed_index: i32,
    pub container_index: i32,
    pub audio_index: i32,
    pub quality: i32,
    pub quality_label: &'static str,
    pub quality_min: i32,
    pub quality_max: i32,
    pub output_extension: &'static str,
    pub summary: String,
}

pub open spec fn quality_name(v: VideoEncoder) -> Seq<char> {
    if v == VideoEncoder::X264 {
        "CRF"@
    } else {
        "CQ"@
    }
}

/// One line of what will be done.
pub open spec fn summary_text(e: EncodeSettings) -> Seq<char> {
    if e.mode == CutMode::Precise {
        encoder_options()[place_of(encoder_options(), e.video)].0 + " · "@ + quality_name(
            e.video,
        ).push(' ') + digits(e.quality as nat)
    } else {
        "Stream copy"@
    }
}

/// The settings as the panel shows them, including the derived labels.
pub fn encoding_view(e: &EncodeSettings) -> (r: EncodingView)
    ensures
        r.precise == (e.mode == CutMode::Precise),
        r.audio_only == (e.container == Container::Mp3),
        r.encoder_index == place_of(encoder_options(), e.video),
        r.speed_index == place_of(speed_options(), e.speed),
        r.container_index == place_of(container_options(), e.container),
        r.audio_index == place_of(audio_options(), e.audio),
        r.quality == e.quality as i32,
        r.quality_label@ == quality_name(e.video),
        r.quality_min == 0,
        r.quality_max == 51,
        r.output_extension@ == e.container.suffix(),
        r.summary@ == summary_text(*e),
{
    let precise: bool = e.mode == CutMode::Precise;
    let (lo, hi, _): (u32, u32, u32) = e.video.quality_range();
    let encoder_index: i32 = encoder_index(e.video);
    let summary: String = if precise {
        let list: Vec<(&'static str, VideoEncoder)> = encoders();
        assert(option_views(list@).len() == list@.len());
        assert(option_views(list@)[encoder_index as int].0 == list@[encoder_index as int].0@);
        let mut text: String = list[encoder_index as usize].0.to_string();
        text.append(" · ");
        text.append(e.video.quality_label());
        text.push(' ');
        push_digits(&mut text, e.quality as u128);
        assert(text@ =~= summary_text(*e));
        text
    } else {
        "Stream copy".to_string()
    };
    EncodingView {
        precise,
        audio_only: e.container.is_audio_only(),
        encoder_index,
        speed_index: speed_index(e.speed),
        container_index: container_index(e.container),
        audio_index: audio_index(e.audio),
        quality: e.quality as i32,
        quality_label: e.video.quality_label(),
        quality_min: lo as i32,
        quality_max: hi as i32,
        output_extension: e.container.extension(),
        summary,
    }
}

// ---- availability -------------------------------------------------------------

/// Which of the encoders can be used, in the order of the options.
pub fn availability(usable: &EncoderSet) -> (r: Vec<bool>)
    ensures
        r@.len() == encoder_options().len(),
        forall|i: int|
            0 <= i < r@.len() ==> (#[trigger] r@[i] <==> usable@.contains(
                encoder_options()[i].1.name(),
            )),
{
    let list: Vec<(&'static str, VideoEncoder)> = encoders();
    let mut r: Vec<bool> = Vec::new();
    let mut i: usize = 0;
    assert(option_views(list@).len() == list@.len());
    while i < list.len()
        invariant
            i <= list@.len(),
            option_views(list@) == encoder_options(),
            option_views(list@).len() == list@.len(),
            r@.len() == i,
            forall|k: int|
                0 <= k < i ==> (#[trigger] r@[k] <==> usable@.contains(
                    encoder_options()[k].1.name(),
                )),
        decreases list@.len() - i,
    {
        assert(option_views(list@)[i as int].1 == list@[i as int].1);
        r.push(usable.contains(list[i].1.ffmpeg_name()));
        i += 1;
    }
    r
}

/// The label of an option, and whether it can be used.
pub open spec fn option_label(label: Seq<char>, available: bool) -> Seq<char> {
    if available {
        label
    } else {
        label + " — unavailable"@
    }
}

/// The encoders' labels, with those marked that cannot be used.
pub fn encoder_labels(available: &Vec<bool>) -> (r: Vec<String>)
    requires
        available@.len() == encoder_options().len(),
    ensures
        r@.len() == available@.len(),
        forall|i: int|
            0 <= i < r@.len() ==> (#[trigger] r@[i])@ == option_label(
                encoder_options()[i].0,
                available@[i],
            ),
{
    let list: Vec<(&'static str, VideoEncoder)> = encoders();
    let mut r: Vec<String> = Vec::new();
    let mut i: usize = 0;
    assert(option_views(list@).len() == list@.len());
    while i < list.len()
        invariant
            i <= list@.len(),
            list@.len() == available@.len(),
            option_views(list@) == encoder_options(),
            r@.len() == i,
            forall|k: int|
                0 <= k < i ==> (#[trigger] r@[k])@ == option_label(
                    encoder_options()[k].0,
                    available@[k],
                ),
        decreases list@.len() - i,
    {
        assert(option_views(list@)[i as int].0 == list@[i as int].0@);
        let mut label: String = list[i].0.to_string();
        if !available[i] {
            label.append(" — unavailable");
        }
        r.push(label);
        i += 1;
    }
    r
}

/// Whether the chosen encoder can run on this machine. It is assumed to until
/// the probe has reported.
pub open spec fn runs_here(index: i32, available: Seq<bool>) -> bool {
    0 <= index < available.len() ==> available[index as int]
}

/// What to warn of.
pub open spec fn encoder_warning_text(index: i32, available: Seq<bool>) -> Seq<char> {
    if runs_here(index, available) {
        ""@
    } else if 0 <= index < encoder_options().len() && encoder_options()[index as int].1
        != VideoEncoder::X264 {
        "This encoder needs an NVIDIA GPU that ffmpeg can reach. Choose another."@
    } else {
        "Your ffmpeg build does not provide this encoder. Choose another."@
    }
}

/// Warn when the chosen encoder cannot run on this machine.
///
/// The common case is an NVENC encoder compiled into ffmpeg on a machine with no
/// NVIDIA card: it looks available until the export fails.
pub fn encoder_warning(index: i32, available: &[bool]) -> (r: (bool, &'static str))
    ensures
        r.0 == runs_here(index, available@),
        r.1@ == encoder_warning_text(index, available@),
{
    let ok: bool = if index >= 0 && (index as usize) < available.len() {
        available[index as usize]
    } else {
        true
    };
    if ok {
        return (true, "");
    }
    let list: Vec<(&'static str, VideoEncoder)> = encoders();
    assert(option_views(list@).len() == list@.len());
    let needs_gpu: bool = if (index as usize) < list.len() {
        assert(option_views(list@)[index as int].1 == list@[index as int].1);
        list[index as usize].1.needs_nvidia()
    } else {
        false
    };
    if needs_gpu {
        (false, "This encoder needs an NVIDIA GPU that ffmpeg can reach. Choose another.")
    } else {
        (false, "Your ffmpeg build does not provide this encoder. Choose another.")
    }
}

// ---- laws ---------------------------------------------------------------------

/// Choosing what is shown changes nothing: every value stands where its index
/// says, so that the panel and the settings agree. A bit rate that is not among
/// the options is the one exception.
pub proof fn the_panel_shows_what_is_set(e: EncodeSettings)
    ensures
        chosen(encoder_options(), place_of(encoder_options(), e.video), e.video) == e.video,
        chosen(speed_options(), place_of(speed_options(), e.speed), e.speed) == e.speed,
        chosen(container_options(), place_of(container_options(), e.container), e.container)
            == e.container,
        (e.audio matches AudioHandling::Aac { kbps } ==> kbps == 192 || kbps == 320) ==> chosen(
            audio_options(),
            place_of(audio_options(), e.audio),
            e.audio,
        ) == e.audio,
{
    stands_at(
        encoder_options(),
        e.video,
        match e.video {
            VideoEncoder::X264 => 0,
            VideoEncoder::NvencH264 => 1,
            VideoEncoder::NvencHevc => 2,
            VideoEncoder::NvencAv1 => 3,
        },
    );
    stands_at(
        speed_options(),
        e.speed,
        match e.speed {
            Speed::Fastest => 0,
            Speed::Fast => 1,
            Speed::Balanced => 2,
            Speed::Slow => 3,
            Speed::Slowest => 4,
        },
    );
    stands_at(
        container_options(),
        e.container,
        match e.container {
            Container::Mp4 => 0,
            Container::Mkv => 1,
            Container::Mp3 => 2,
        },
    );
    match e.audio {
        AudioHandling::Copy => stands_at(audio_options(), e.audio, 2),
        AudioHandling::Aac { kbps } => if kbps == 320 {
            stands_at(audio_options(), e.audio, 1)
        } else if kbps == 192 {
            stands_at(audio_options(), e.audio, 0)
        },
    }
}

/// The lists of options, from the top: every encoder, speed and container is offered,
/// each once, under its own label.
pub proof fn every_choice_is_offered(v: VideoEncoder, s: Speed, c: Container)
    ensures
        encoder_options().len() == 4 && speed_options().len() == 5 && container_options().len() == 3
            && audio_options().len() == 3,
        encoder_options()[place_of(encoder_options(), v)] == match v {
            VideoEncoder::X264 => ("H.264 (x264, software)"@, v),
            VideoEncoder::NvencH264 => ("H.264 (NVENC)"@, v),
            VideoEncoder::NvencHevc => ("HEVC (NVENC)"@, v),
            VideoEncoder::NvencAv1 => ("AV1 (NVENC)"@, v),
        },
        speed_options()[place_of(speed_options(), s)] == match s {
            Speed::Fastest => ("Fastest"@, s),
            Speed::Fast => ("Fast"@, s),
            Speed::Balanced => ("Balanced"@, s),
            Speed::Slow => ("Slow"@, s),
            Speed::Slowest => ("Slowest (best quality)"@, s),
        },
        container_options()[place_of(container_options(), c)] == match c {
            Container::Mp4 => ("MP4"@, c),
            Container::Mkv => ("MKV"@, c),
            Container::Mp3 => ("MP3 (audio only)"@, c),
        },
{
    stands_at(
        encoder_options(),
        v,
        match v {
            VideoEncoder::X264 => 0,
            VideoEncoder::NvencH264 => 1,
            VideoEncoder::NvencHevc => 2,
            VideoEncoder::NvencAv1 => 3,
        },
    );
    stands_at(
        speed_options(),
        s,
        match s {
            Speed::Fastest => 0,
            Speed::Fast => 1,
            Speed::Balanced => 2,
            Speed::Slow => 3,
            Speed::Slowest => 4,
        },
    );
    stands_at(
        container_options(),
        c,
        match c {
            Container::Mp4 => 0,
            Container::Mkv => 1,
            Container::Mp3 => 2,
        },
    );
}

/// A value is shown at the first place where it stands, and at the top where it does
/// not stand at all. Choosing a place gives what stands there; a place that is none
/// changes nothing.
pub proof fn a_value_is_shown_where_it_stands<T>(options: Seq<(Seq<char>, T)>, value: T, i: int)
    ensures
        0 <= i < options.len() && options[i].1 == value && (forall|k: int|
            0 <= k < i ==> (#[trigger] options[k]).1 != value) ==> place_of(options, value) == i,
        (forall|k: int| 0 <= k < options.len() ==> (#[trigger] options[k]).1 != value) ==> place_of(
            options,
            value,
        ) == 0,
        0 <= i < options.len() ==> chosen(options, i, value) == options[i].1,
        i < 0 || i >= options.len() ==> chosen(options, i, value) == value,
{
    if 0 <= i < options.len() && options[i].1 == value && (forall|k: int|
        0 <= k < i ==> (#[trigger] options[k]).1 != value) {
        stands_at(options, value, i);
    }
}

/// The quality stays on the scale from 0 to 51, and is left alone there.
pub proof fn the_quality_stays_on_its_scale(q: u32)
    ensures
        q <= 51 ==> quality_held(q) == q,
        q > 51 ==> quality_held(q) == 51,
{
}

/// The summary names the encoder and its quality in that encoder's own words, or says
/// that nothing is encoded.
pub proof fn the_summary_says_what_will_be_done(e: EncodeSettings)
    ensures
        e.mode == CutMode::Fast ==> summary_text(e) == "Stream copy"@,
        e.mode == CutMode::Precise ==> summary_text(e) == match e.video {
            VideoEncoder::X264 => "H.264 (x264, software)"@ + " · "@ + "CRF"@.push(' ') + digits(
                e.quality as nat,
            ),
            VideoEncoder::NvencH264 => "H.264 (NVENC)"@ + " · "@ + "CQ"@.push(' ') + digits(
                e.quality as nat,
            ),
            VideoEncoder::NvencHevc => "HEVC (NVENC)"@ + " · "@ + "CQ"@.push(' ') + digits(
                e.quality as nat,
            ),
            VideoEncoder::NvencAv1 => "AV1 (NVENC)"@ + " · "@ + "CQ"@.push(' ') + digits(
                e.quality as nat,
            ),
        },
        quality_name(e.video) == (if e.video == VideoEncoder::X264 {
            "CRF"@
        } else {
            "CQ"@
        }),
{
    every_choice_is_offered(e.video, e.speed, e.container);
}

/// There is a warning exactly when the encoder is known not to run here; it says whether
/// a graphics card is what is missing, which it is for all but the first.
pub proof fn an_encoder_that_cannot_run_is_warned_of(index: i32, available: Seq<bool>)
    ensures
        runs_here(index, available) <==> !(0 <= index < available.len() && !available[index as int]),
        runs_here(index, available) ==> encoder_warning_text(index, available) == ""@,
        !runs_here(index, available) && 1 <= index <= 3 ==> encoder_warning_text(index, available)
            == "This encoder needs an NVIDIA GPU that ffmpeg can reach. Choose another."@,
        !runs_here(index, available) && (index == 0 || index > 3) ==> encoder_warning_text(
            index,
            available,
        ) == "Your ffmpeg build does not provide this encoder. Choose another."@,
{
}

/// An option keeps its label, and one that cannot be used says so behind it.
pub proof fn a_label_tells_what_cannot_be_used(label: Seq<char>)
    ensures
        option_label(label, true) == label,
        option_label(label, false) == label + " — unavailable"@,
{
}

/// Every control sets what it is for, and nothing else. What is chosen is what stands at
/// its place in the list.
pub proof fn every_control_sets_its_own(e: EncodeSettings, precise: bool, i: int, q: i32)
    ensures
        with_mode(e, precise).mode == CutMode::Precise <==> precise,
        with_mode(e, precise) == (EncodeSettings { mode: with_mode(e, precise).mode, ..e }),
        0 <= i < 4 ==> with_encoder(e, i).video == seq![
            VideoEncoder::X264,
            VideoEncoder::NvencH264,
            VideoEncoder::NvencHevc,
            VideoEncoder::NvencAv1,
        ][i],
        e.quality <= 51 ==> with_encoder(e, i) == (EncodeSettings {
            video: with_encoder(e, i).video,
            ..e
        }),
        with_encoder(e, i) == (EncodeSettings {
            video: with_encoder(e, i).video,
            quality: with_encoder(e, i).quality,
            ..e
        }),
        0 <= i < 5 ==> with_speed(e, i).speed == seq![
            Speed::Fastest,
            Speed::Fast,
            Speed::Balanced,
            Speed::Slow,
            Speed::Slowest,
        ][i],
        with_speed(e, i) == (EncodeSettings { speed: with_speed(e, i).speed, ..e }),
        0 <= i < 3 ==> with_container(e, i).container == seq![
            Container::Mp4,
            Container::Mkv,
            Container::Mp3,
        ][i],
        with_container(e, i) == (EncodeSettings { container: with_container(e, i).container, ..e }),
        0 <= i < 3 ==> with_audio(e, i).audio == seq![
            AudioHandling::Aac { kbps: 192 },
            AudioHandling::Aac { kbps: 320 },
            AudioHandling::Copy,
        ][i],
        with_audio(e, i) == (EncodeSettings { audio: with_audio(e, i).audio, ..e }),
        0 <= q <= 51 ==> with_quality(e, q).quality == q,
        q > 51 ==> with_quality(e, q).quality == 51,
        with_quality(e, q) == (EncodeSettings { quality: with_quality(e, q).quality, ..e }),
        i < 0 || i >= 5 ==> with_encoder(e, i) == e && with_speed(e, i) == e && with_container(e, i)
            == e && with_audio(e, i) == e,
{
}

/// Sound is offered at two rates and as it is, each under its own name.
pub proof fn every_sound_is_offered()
    ensures
        audio_options() == seq![
            ("AAC 192 kbps"@, AudioHandling::Aac { kbps: 192 }),
            ("AAC 320 kbps"@, AudioHandling::Aac { kbps: 320 }),
            ("Copy original"@, AudioHandling::Copy),
        ],
{
}

/// Any quality that is asked for becomes the nearest on the scale; one below zero, which
/// stands for no quality at all, becomes the end of it.
pub proof fn an_asked_quality_is_put_on_the_scale(e: EncodeSettings, q: i32)
    ensures
        0 <= q <= 51 ==> with_quality(e, q).quality == q,
        q < 0 || q > 51 ==> with_quality(e, q).quality == 51,
{
}

} // verus!
