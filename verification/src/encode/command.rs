//! Builds ffmpeg argument vectors for clip exports.
//!
//! Pure: no I/O, no process spawning. Every export the app performs is
//! reproducible by pasting the produced argv into a terminal.
//!
//! Built around this command:
//!
//! ```text
//! ffmpeg -ss $Start -i "$File" -c:v $Vcodec -t $Duration -crf $CRF -y foo.mp4
//! ```
//!
//! `-ss` before `-i` performs a fast input seek. When re-encoding, ffmpeg still
//! decodes and discards up to the exact frame, so the cut is frame-accurate *and*
//! fast. `-t` after `-i` is an output option and is unambiguous across versions.

use vstd::prelude::*;

use crate::fixed::Real;
use crate::text::{
    chars_of, digits, digits_read_back, find, first_at_finds, is_digit, padded, padded_reads_back,
    push_digits, texts,
};
use crate::timecode::{hours, timestamp_text};

/// Seconds as `HH:MM:SS.mmm` — see [`crate::timecode`] for why not a bare number.
pub use crate::timecode::ffmpeg_timestamp as format_timestamp;

verus! {

/// How the clip is produced.
#[derive(Debug, Clone, Copy, PartialEq, Eq, Structural)]
pub enum CutMode {
    /// Stream copy. Instant and lossless, but the start snaps back to the
    /// nearest preceding keyframe.
    Fast,
    /// Re-encode. Honours the marks exactly, at the cost of encoding time.
    Precise,
}

#[derive(Debug, Clone, Copy, PartialEq, Eq, Structural)]
pub enum VideoEncoder {
    X264,
    NvencH264,
    NvencHevc,
    NvencAv1,
}

impl VideoEncoder {
    /// The name ffmpeg knows the encoder by.
    pub open spec fn name(self) -> Seq<char> {
        match self {
            VideoEncoder::X264 => "libx264"@,
            VideoEncoder::NvencH264 => "h264_nvenc"@,
            VideoEncoder::NvencHevc => "hevc_nvenc"@,
            VideoEncoder::NvencAv1 => "av1_nvenc"@,
        }
    }

    /// True when this encoder needs an NVIDIA GPU with NVENC.
    ///
    /// Presence in `ffmpeg -encoders` only proves the build has the encoder
    /// compiled in, not that a card is present — see [`crate::media::Tools`].
    pub fn needs_nvidia(self) -> (r: bool)
        ensures
            r == (self != VideoEncoder::X264),
    {
        self.is_nvenc()
    }

    pub fn ffmpeg_name(self) -> (r: &'static str)
        ensures
            r@ == self.name(),
    {
        match self {
            VideoEncoder::X264 => "libx264",
            VideoEncoder::NvencH264 => "h264_nvenc",
            VideoEncoder::NvencHevc => "hevc_nvenc",
            VideoEncoder::NvencAv1 => "av1_nvenc",
        }
    }

    fn is_nvenc(self) -> (r: bool)
        ensures
            r == (self != VideoEncoder::X264),
    {
        !matches!(self, VideoEncoder::X264)
    }

    /// The lowest and the highest quality number.
    pub open spec fn quality_ends(self) -> (u32, u32) {
        (0, 51)
    }

    /// Inclusive range of the quality scale, and a sane default.
    pub fn quality_range(self) -> (r: (u32, u32, u32))
        ensures
            (r.0, r.1) == self.quality_ends(),
            r == (0u32, 51u32, if self == VideoEncoder::X264 {
                20u32
            } else {
                23u32
            }),
    {
        match self {
            // x264 CRF: 0 lossless, 23 default, 51 worst.
            VideoEncoder::X264 => (0, 51, 20),
            // NVENC CQ uses the same nominal 0-51 scale.
            _ => (0, 51, 23),
        }
    }

    /// What the quality number is called in this encoder's own vocabulary.
    pub fn quality_label(self) -> (r: &'static str)
        ensures
            r@ == if self == VideoEncoder::X264 {
                "CRF"@
            } else {
                "CQ"@
            },
    {
        if self.is_nvenc() {
            "CQ"
        } else {
            "CRF"
        }
    }

    /// H.264 in MP4 is widely assumed to be 8-bit 4:2:0; forcing it avoids
    /// producing clips that some players refuse.
    fn wants_yuv420p(self) -> (r: bool)
        ensures
            r == (self == VideoEncoder::X264 || self == VideoEncoder::NvencH264),
    {
        matches!(self, VideoEncoder::X264 | VideoEncoder::NvencH264)
    }
}

/// Encoder-neutral speed/quality tradeoff, mapped per encoder.
#[derive(Debug, Clone, Copy, PartialEq, Eq, Structural)]
pub enum Speed {
    Fastest,
    Fast,
    Balanced,
    Slow,
    Slowest,
}

impl Speed {
    /// The preset's name: NVENC counts from p1 (fastest) to p7 (slowest).
    pub open spec fn preset(self, enc: VideoEncoder) -> Seq<char> {
        let nvenc = enc != VideoEncoder::X264;
        match self {
            Speed::Fastest => if nvenc {
                "p1"@
            } else {
                "ultrafast"@
            },
            Speed::Fast => if nvenc {
                "p3"@
            } else {
                "veryfast"@
            },
            Speed::Balanced => if nvenc {
                "p4"@
            } else {
                "medium"@
            },
            Speed::Slow => if nvenc {
                "p6"@
            } else {
                "slow"@
            },
            Speed::Slowest => if nvenc {
                "p7"@
            } else {
                "veryslow"@
            },
        }
    }

    fn preset_for(self, enc: VideoEncoder) -> (r: &'static str)
        ensures
            r@ == self.preset(enc),
    {
        if enc.is_nvenc() {
            match self {
                Speed::Fastest => "p1",
                Speed::Fast => "p3",
                Speed::Balanced => "p4",
                Speed::Slow => "p6",
                Speed::Slowest => "p7",
            }
        } else {
            match self {
                Speed::Fastest => "ultrafast",
                Speed::Fast => "veryfast",
                Speed::Balanced => "medium",
                Speed::Slow => "slow",
                Speed::Slowest => "veryslow",
            }
        }
    }
}

#[derive(Debug, Clone, Copy, PartialEq, Eq, Structural)]
pub enum AudioHandling {
    /// Pass the audio through untouched. Not always valid for the target
    /// container (e.g. AC3 into MP4), so the UI should offer AAC as a fallback.
    Copy,
    Aac { kbps: u32 },
}

#[derive(Debug, Clone, Copy, PartialEq, Eq, Structural)]
pub enum Container {
    Mp4,
    Mkv,
    /// Audio only. The video track is dropped entirely.
    Mp3,
}

impl Container {
    /// The extension of the file, without its dot.
    pub open spec fn suffix(self) -> Seq<char> {
        match self {
            Container::Mp4 => "mp4"@,
            Container::Mkv => "mkv"@,
            Container::Mp3 => "mp3"@,
        }
    }

    pub fn extension(self) -> (r: &'static str)
        ensures
            r@ == self.suffix(),
    {
        match self {
            Container::Mp4 => "mp4",
            Container::Mkv => "mkv",
            Container::Mp3 => "mp3",
        }
    }

    /// True when the output carries no video, making every video setting moot.
    pub fn is_audio_only(self) -> (r: bool)
        ensures
            r == (self == Container::Mp3),
    {
        matches!(self, Container::Mp3)
    }
}

#[derive(Debug, Clone, Copy, PartialEq, Eq, Structural)]
pub struct EncodeSettings {
    pub mode: CutMode,
    pub video: VideoEncoder,
    /// CRF for x264, CQ for NVENC. See [`VideoEncoder::quality_label`].
    pub quality: u32,
    pub speed: Speed,
    pub audio: AudioHandling,
    pub container: Container,
}

impl EncodeSettings {
    /// An exact cut, re-encoded by x264 into an MP4.
    pub open spec fn initial() -> EncodeSettings {
        EncodeSettings {
            mode: CutMode::Precise,
            video: VideoEncoder::X264,
            quality: 20,
            speed: Speed::Balanced,
            audio: AudioHandling::Aac { kbps: 192 },
            container: Container::Mp4,
        }
    }
}

impl Default for EncodeSettings {
    fn default() -> (r: Self)
        ensures
            r == EncodeSettings::initial(),
    {
        EncodeSettings {
            mode: CutMode::Precise,
            video: VideoEncoder::X264,
            quality: 20,
            speed: Speed::Balanced,
            audio: AudioHandling::Aac { kbps: 192 },
            container: Container::Mp4,
        }
    }
}

#[derive(Debug, Clone)]
pub struct ExportRequest {
    pub input: String,
    pub output: String,
    /// In-mark, seconds from the start of the source.
    pub start: Real,
    /// Out-mark minus in-mark, in seconds.
    pub duration: Real,
    /// Source audio stream index, or `None` to let ffmpeg choose.
    pub audio_track: Option<usize>,
    pub settings: EncodeSettings,
}

// ---- the arguments ------------------------------------------------------------

/// A fast input seek, and the input.
pub open spec fn opening(req: ExportRequest) -> Seq<Seq<char>> {
    seq![
        "-hide_banner"@,
        "-nostdin"@,
        "-ss"@,
        timestamp_text(req.start),
        "-i"@,
        req.input@,
    ]
}

/// The audio stream asked for. Left to ffmpeg, it is the first, if there is one:
/// the trailing `?` tolerates sources with no audio at all.
pub open spec fn audio_stream(track: Option<usize>) -> Seq<char> {
    match track {
        Some(i) => "0:a:"@ + digits(i as nat),
        None => "0:a:0?"@,
    }
}

/// Explicit mapping: default stream selection picks "best", which is a coin toss
/// on multi-track recordings.
pub open spec fn mapping(req: ExportRequest) -> Seq<Seq<char>> {
    let video = if req.settings.container == Container::Mp3 {
        seq![]
    } else {
        seq!["-map"@, "0:v:0"@]
    };
    video + seq!["-map"@, audio_stream(req.audio_track)]
}

/// A bit rate, as ffmpeg takes it.
pub open spec fn rate(kbps: u32) -> Seq<char> {
    digits(kbps as nat).push('k')
}

/// The audio alone. `Copy` cannot mean literal passthrough here: a good default
/// stands in for it, rather than an unplayable file.
pub open spec fn audio_only(audio: AudioHandling) -> Seq<Seq<char>> {
    seq!["-vn"@, "-c:a"@, "libmp3lame"@] + match audio {
        AudioHandling::Copy => seq!["-q:a"@, "2"@],
        AudioHandling::Aac { kbps } => seq!["-b:a"@, rate(kbps)],
    }
}

/// Streams copied, and timestamps rebased so that the clip starts at zero.
pub open spec fn stream_copy() -> Seq<Seq<char>> {
    seq!["-c"@, "copy"@, "-avoid_negative_ts"@, "make_zero"@]
}

/// Constant quality. NVENC ignores `-crf`, and needs `-rc vbr` with `-b:v 0`,
/// otherwise `-cq` is overridden by a default bitrate.
pub open spec fn quality(video: VideoEncoder, n: u32) -> Seq<Seq<char>> {
    if video == VideoEncoder::X264 {
        seq!["-crf"@, digits(n as nat)]
    } else {
        seq!["-rc"@, "vbr"@, "-cq"@, digits(n as nat), "-b:v"@, "0"@]
    }
}

pub open spec fn pixel_format(video: VideoEncoder) -> Seq<Seq<char>> {
    if video == VideoEncoder::X264 || video == VideoEncoder::NvencH264 {
        seq!["-pix_fmt"@, "yuv420p"@]
    } else {
        seq![]
    }
}

pub open spec fn audio_codec(audio: AudioHandling) -> Seq<Seq<char>> {
    match audio {
        AudioHandling::Copy => seq!["-c:a"@, "copy"@],
        AudioHandling::Aac { kbps } => seq!["-c:a"@, "aac"@, "-b:a"@, rate(kbps)],
    }
}

pub open spec fn re_encode(s: EncodeSettings) -> Seq<Seq<char>> {
    seq!["-c:v"@, s.video.name()] + quality(s.video, s.quality) + seq![
        "-preset"@,
        s.speed.preset(s.video),
    ] + pixel_format(s.video) + audio_codec(s.audio)
}

pub open spec fn codecs(s: EncodeSettings) -> Seq<Seq<char>> {
    if s.container == Container::Mp3 {
        audio_only(s.audio)
    } else if s.mode == CutMode::Fast {
        stream_copy()
    } else {
        re_encode(s)
    }
}

/// The index goes to the front, so that the clip is seekable immediately.
pub open spec fn index_in_front(container: Container) -> Seq<Seq<char>> {
    if container == Container::Mp4 {
        seq!["-movflags"@, "+faststart"@]
    } else {
        seq![]
    }
}

/// The length of the output, machine-readable progress on stdout, and the output.
pub open spec fn closing(req: ExportRequest) -> Seq<Seq<char>> {
    seq!["-t"@, timestamp_text(req.duration)] + index_in_front(req.settings.container) + seq![
        "-progress"@,
        "pipe:1"@,
        "-nostats"@,
        "-y"@,
        req.output@,
    ]
}

/// The full argument vector.
pub open spec fn arguments(req: ExportRequest) -> Seq<Seq<char>> {
    opening(req) + mapping(req) + codecs(req.settings) + closing(req)
}

fn put(a: &mut Vec<String>, arg: String)
    ensures
        texts(final(a)@) == texts(old(a)@).push(arg@),
{
    a.push(arg);
    assert(texts(a@) =~= texts(old(a)@).push(arg@));
}

fn put_str(a: &mut Vec<String>, arg: &str)
    ensures
        texts(final(a)@) == texts(old(a)@).push(arg@),
{
    put(a, arg.to_string());
}

fn number(n: u128) -> (r: String)
    ensures
        r@ == digits(n as nat),
{
    let mut r: String = String::new();
    push_digits(&mut r, n);
    assert(r@ =~= digits(n as nat));
    r
}

fn bit_rate(kbps: u32) -> (r: String)
    ensures
        r@ == rate(kbps),
{
    let mut r: String = number(kbps as u128);
    r.push('k');
    r
}

fn put_opening(a: &mut Vec<String>, req: &ExportRequest)
    ensures
        texts(final(a)@) == texts(old(a)@) + opening(*req),
{
    put_str(a, "-hide_banner");
    // Never block waiting on console input; we are not a terminal.
    put_str(a, "-nostdin");
    put_str(a, "-ss");
    put(a, format_timestamp(req.start));
    put_str(a, "-i");
    put_str(a, req.input.as_str());
    assert(texts(a@) =~= texts(old(a)@) + opening(*req));
}

fn put_mapping(a: &mut Vec<String>, req: &ExportRequest)
    ensures
        texts(final(a)@) == texts(old(a)@) + mapping(*req),
{
    if !req.settings.container.is_audio_only() {
        put_str(a, "-map");
        put_str(a, "0:v:0");
    }
    put_str(a, "-map");
    match req.audio_track {
        Some(i) => {
            let mut stream: String = "0:a:".to_string();
            push_digits(&mut stream, i as u128);
            put(a, stream);
        },
        None => put_str(a, "0:a:0?"),
    }
    assert(texts(a@) =~= texts(old(a)@) + mapping(*req));
}

fn put_audio_only(a: &mut Vec<String>, audio: AudioHandling)
    ensures
        texts(final(a)@) == texts(old(a)@) + audio_only(audio),
{
    put_str(a, "-vn");
    put_str(a, "-c:a");
    put_str(a, "libmp3lame");
    match audio {
        AudioHandling::Copy => {
            put_str(a, "-q:a");
            put_str(a, "2");
        },
        AudioHandling::Aac { kbps } => {
            put_str(a, "-b:a");
            put(a, bit_rate(kbps));
        },
    }
    assert(texts(a@) =~= texts(old(a)@) + audio_only(audio));
}

fn put_stream_copy(a: &mut Vec<String>)
    ensures
        texts(final(a)@) == texts(old(a)@) + stream_copy(),
{
    put_str(a, "-c");
    put_str(a, "copy");
    put_str(a, "-avoid_negative_ts");
    put_str(a, "make_zero");
    assert(texts(a@) =~= texts(old(a)@) + stream_copy());
}

fn put_video(a: &mut Vec<String>, s: &EncodeSettings)
    ensures
        texts(final(a)@) == texts(old(a)@) + (seq!["-c:v"@, s.video.name()] + quality(
            s.video,
            s.quality,
        ) + seq!["-preset"@, s.speed.preset(s.video)]),
{
    put_str(a, "-c:v");
    put_str(a, s.video.ffmpeg_name());
    if s.video.is_nvenc() {
        put_str(a, "-rc");
        put_str(a, "vbr");
        put_str(a, "-cq");
        put(a, number(s.quality as u128));
        put_str(a, "-b:v");
        put_str(a, "0");
    } else {
        put_str(a, "-crf");
        put(a, number(s.quality as u128));
    }
    put_str(a, "-preset");
    put_str(a, s.speed.preset_for(s.video));
    assert(texts(a@) =~= texts(old(a)@) + (seq!["-c:v"@, s.video.name()] + quality(
        s.video,
        s.quality,
    ) + seq!["-preset"@, s.speed.preset(s.video)]));
}

fn put_audio(a: &mut Vec<String>, s: &EncodeSettings)
    ensures
        texts(final(a)@) == texts(old(a)@) + (pixel_format(s.video) + audio_codec(s.audio)),
{
    if s.video.wants_yuv420p() {
        put_str(a, "-pix_fmt");
        put_str(a, "yuv420p");
    }
    match s.audio {
        AudioHandling::Copy => {
            put_str(a, "-c:a");
            put_str(a, "copy");
        },
        AudioHandling::Aac { kbps } => {
            put_str(a, "-c:a");
            put_str(a, "aac");
            put_str(a, "-b:a");
            put(a, bit_rate(kbps));
        },
    }
    assert(texts(a@) =~= texts(old(a)@) + (pixel_format(s.video) + audio_codec(s.audio)));
}

fn put_closing(a: &mut Vec<String>, req: &ExportRequest)
    ensures
        texts(final(a)@) == texts(old(a)@) + closing(*req),
{
    // Output-side duration: unambiguous, unlike -to after a -ss input seek.
    put_str(a, "-t");
    put(a, format_timestamp(req.duration));
    if req.settings.container == Container::Mp4 {
        put_str(a, "-movflags");
        put_str(a, "+faststart");
    }
    put_str(a, "-progress");
    put_str(a, "pipe:1");
    put_str(a, "-nostats");
    put_str(a, "-y");
    put_str(a, req.output.as_str());
    assert(texts(a@) =~= texts(old(a)@) + closing(*req));
}

/// Build the full argument vector, excluding the ffmpeg executable itself.
pub fn build_args(req: &ExportRequest) -> (r: Vec<String>)
    ensures
        texts(r@) == arguments(*req),
{
    let s: &EncodeSettings = &req.settings;
    let mut a: Vec<String> = Vec::new();
    put_opening(&mut a, req);
    put_mapping(&mut a, req);
    if s.container.is_audio_only() {
        // An audio-only container has nothing to copy the video into, so the
        // Fast/Precise distinction does not apply — there is only the audio.
        put_audio_only(&mut a, s.audio);
    } else {
        match s.mode {
            CutMode::Fast => put_stream_copy(&mut a),
            CutMode::Precise => {
                put_video(&mut a, s);
                put_audio(&mut a, s);
            },
        }
    }
    put_closing(&mut a, req);
    assert(texts(a@) =~= arguments(*req));
    a
}

// ---- the command line ---------------------------------------------------------

/// An argument, in quotes where it holds a space.
pub open spec fn quoted(arg: Seq<char>) -> Seq<char> {
    if arg.contains(' ') {
        seq!['"'] + arg + seq!['"']
    } else {
        arg
    }
}

/// The program and its arguments on one line.
pub open spec fn command_line(program: Seq<char>, args: Seq<Seq<char>>) -> Seq<char>
    decreases args.len(),
{
    if args.len() == 0 {
        quoted(program)
    } else {
        command_line(program, args.drop_last()).push(' ') + quoted(args.last())
    }
}

fn push_quoted(out: &mut String, arg: &str)
    ensures
        final(out)@ == old(out)@ + quoted(arg@),
{
    let cs: Vec<char> = chars_of(arg);
    let at: usize = find(cs.as_slice(), ' ', 0);
    proof {
        first_at_finds(arg@, ' ', 0);
        if at < arg@.len() {
            assert(arg@[at as int] == ' ');
        }
    }
    if at < cs.len() {
        out.push('"');
        out.append(arg);
        out.push('"');
    } else {
        out.append(arg);
    }
    assert(out@ =~= old(out)@ + quoted(arg@));
}

/// Render the command as a copy-pasteable shell line, for logs and error reports.
pub fn display_command(ffmpeg: &str, args: &[String]) -> (out: String)
    ensures
        out@ == command_line(ffmpeg@, texts(args@)),
{
    let mut out: String = String::new();
    push_quoted(&mut out, ffmpeg);
    assert(out@ =~= command_line(ffmpeg@, texts(args@).take(0)));
    let mut i: usize = 0;
    while i < args.len()
        invariant
            i <= args@.len(),
            out@ == command_line(ffmpeg@, texts(args@).take(i as int)),
        decreases args@.len() - i,
    {
        out.push(' ');
        push_quoted(&mut out, args[i].as_str());
        proof {
            let upto = texts(args@).take(i + 1);
            assert(upto.drop_last() =~= texts(args@).take(i as int));
            assert(upto.last() == args@[i as int]@);
            assert(out@ =~= command_line(ffmpeg@, upto));
        }
        i += 1;
    }
    assert(texts(args@).take(i as int) =~= texts(args@));
    out
}

// ---- laws ---------------------------------------------------------------------

/// `flag` stands among the arguments with `value` right behind it.
pub open spec fn gives(args: Seq<Seq<char>>, flag: Seq<char>, value: Seq<char>) -> bool {
    exists|i: int| 0 <= i < args.len() - 1 && #[trigger] args[i] == flag && args[i + 1] == value
}

/// What is neither the input nor the output nor in any of the four parts is not
/// among the arguments.
proof fn found_in_a_part(req: ExportRequest, flag: Seq<char>)
    requires
        arguments(req).contains(flag),
    ensures
        opening(req).contains(flag) || mapping(req).contains(flag) || codecs(
            req.settings,
        ).contains(flag) || closing(req).contains(flag),
{
    let a = arguments(req);
    let i = choose|i: int| 0 <= i < a.len() && a[i] == flag;
    let n1 = opening(req).len();
    let n2 = n1 + mapping(req).len();
    let n3 = n2 + codecs(req.settings).len();
    if i < n1 {
        assert(opening(req)[i] == flag);
    } else if i < n2 {
        assert(mapping(req)[i - n1] == flag);
    } else if i < n3 {
        assert(codecs(req.settings)[i - n2] == flag);
    } else {
        assert(closing(req)[i - n3] == flag);
    }
}

/// Numbers, times and stream names begin with a digit.
proof fn values_begin_with_digits(req: ExportRequest, n: nat)
    ensures
        timestamp_text(req.start).len() > 0,
        is_digit(timestamp_text(req.start)[0]),
        timestamp_text(req.duration).len() > 0,
        is_digit(timestamp_text(req.duration)[0]),
        digits(n).len() > 0,
        is_digit(digits(n)[0]),
        digits(n).push('k').len() > 0,
        is_digit(digits(n).push('k')[0]),
        audio_stream(req.audio_track).len() > 0,
        audio_stream(req.audio_track)[0] == '0',
        at(digits(n), 1) != ':',
        at(digits(n).push('k'), 1) != ':',
{
    reveal_strlit("0:a:");
    reveal_strlit("0:a:0?");
    padded_reads_back(hours(req.start), 2);
    padded_reads_back(hours(req.duration), 2);
    digits_read_back(n);
    assert(is_digit(padded(hours(req.start), 2)[0]));
    assert(is_digit(padded(hours(req.duration), 2)[0]));
    assert(is_digit(digits(n)[0]));
    if digits(n).len() > 1 {
        assert(is_digit(digits(n)[1]));
    }
    assert(digits(n).push('k')[0] == digits(n)[0]);
    assert(timestamp_text(req.start)[0] == padded(hours(req.start), 2)[0]);
    assert(timestamp_text(req.duration)[0] == padded(hours(req.duration), 2)[0]);
}

/// The character at `i`, or a space beyond the end.
spec fn at(s: Seq<char>, i: int) -> char {
    if i < s.len() {
        s[i]
    } else {
        ' '
    }
}

/// Enough of an argument to tell it from the flags that the laws below look for.
spec fn key(s: Seq<char>) -> (nat, char, char, char, char) {
    (s.len(), at(s, 0), at(s, 1), at(s, 2), at(s, 3))
}

proof fn keys()
    ensures
        key("-hide_banner"@) == (12nat, '-', 'h', 'i', 'd'),
        key("-nostdin"@) == (8nat, '-', 'n', 'o', 's'),
        key("-ss"@) == (3nat, '-', 's', 's', ' '),
        key("-i"@) == (2nat, '-', 'i', ' ', ' '),
        key("-map"@) == (4nat, '-', 'm', 'a', 'p'),
        key("0:v:0"@) == (5nat, '0', ':', 'v', ':'),
        key("0:a:0?"@) == (6nat, '0', ':', 'a', ':'),
        key("-vn"@) == (3nat, '-', 'v', 'n', ' '),
        key("-c:a"@) == (4nat, '-', 'c', ':', 'a'),
        key("libmp3lame"@) == (10nat, 'l', 'i', 'b', 'm'),
        key("-q:a"@) == (4nat, '-', 'q', ':', 'a'),
        key("2"@) == (1nat, '2', ' ', ' ', ' '),
        key("-b:a"@) == (4nat, '-', 'b', ':', 'a'),
        key("-c"@) == (2nat, '-', 'c', ' ', ' '),
        key("copy"@) == (4nat, 'c', 'o', 'p', 'y'),
        key("-avoid_negative_ts"@) == (18nat, '-', 'a', 'v', 'o'),
        key("make_zero"@) == (9nat, 'm', 'a', 'k', 'e'),
        key("-c:v"@) == (4nat, '-', 'c', ':', 'v'),
        key("libx264"@) == (7nat, 'l', 'i', 'b', 'x'),
        key("h264_nvenc"@) == (10nat, 'h', '2', '6', '4'),
        key("hevc_nvenc"@) == (10nat, 'h', 'e', 'v', 'c'),
        key("av1_nvenc"@) == (9nat, 'a', 'v', '1', '_'),
        key("-crf"@) == (4nat, '-', 'c', 'r', 'f'),
        key("-rc"@) == (3nat, '-', 'r', 'c', ' '),
        key("vbr"@) == (3nat, 'v', 'b', 'r', ' '),
        key("-cq"@) == (3nat, '-', 'c', 'q', ' '),
        key("-b:v"@) == (4nat, '-', 'b', ':', 'v'),
        key("0"@) == (1nat, '0', ' ', ' ', ' '),
        key("-preset"@) == (7nat, '-', 'p', 'r', 'e'),
        key("p1"@) == (2nat, 'p', '1', ' ', ' '),
        key("p3"@) == (2nat, 'p', '3', ' ', ' '),
        key("p4"@) == (2nat, 'p', '4', ' ', ' '),
        key("p6"@) == (2nat, 'p', '6', ' ', ' '),
        key("p7"@) == (2nat, 'p', '7', ' ', ' '),
        key("ultrafast"@) == (9nat, 'u', 'l', 't', 'r'),
        key("veryfast"@) == (8nat, 'v', 'e', 'r', 'y'),
        key("medium"@) == (6nat, 'm', 'e', 'd', 'i'),
        key("slow"@) == (4nat, 's', 'l', 'o', 'w'),
        key("veryslow"@) == (8nat, 'v', 'e', 'r', 'y'),
        key("-pix_fmt"@) == (8nat, '-', 'p', 'i', 'x'),
        key("yuv420p"@) == (7nat, 'y', 'u', 'v', '4'),
        key("aac"@) == (3nat, 'a', 'a', 'c', ' '),
        key("-t"@) == (2nat, '-', 't', ' ', ' '),
        key("-movflags"@) == (9nat, '-', 'm', 'o', 'v'),
        key("+faststart"@) == (10nat, '+', 'f', 'a', 's'),
        key("-progress"@) == (9nat, '-', 'p', 'r', 'o'),
        key("pipe:1"@) == (6nat, 'p', 'i', 'p', 'e'),
        key("-nostats"@) == (8nat, '-', 'n', 'o', 's'),
        key("-y"@) == (2nat, '-', 'y', ' ', ' '),
{
    reveal_strlit("-hide_banner");
    reveal_strlit("-nostdin");
    reveal_strlit("-ss");
    reveal_strlit("-i");
    reveal_strlit("-map");
    reveal_strlit("0:v:0");
    reveal_strlit("0:a:0?");
    reveal_strlit("-vn");
    reveal_strlit("-c:a");
    reveal_strlit("libmp3lame");
    reveal_strlit("-q:a");
    reveal_strlit("2");
    reveal_strlit("-b:a");
    reveal_strlit("-c");
    reveal_strlit("copy");
    reveal_strlit("-avoid_negative_ts");
    reveal_strlit("make_zero");
    reveal_strlit("-c:v");
    reveal_strlit("libx264");
    reveal_strlit("h264_nvenc");
    reveal_strlit("hevc_nvenc");
    reveal_strlit("av1_nvenc");
    reveal_strlit("-crf");
    reveal_strlit("-rc");
    reveal_strlit("vbr");
    reveal_strlit("-cq");
    reveal_strlit("-b:v");
    reveal_strlit("0");
    reveal_strlit("-preset");
    reveal_strlit("p1");
    reveal_strlit("p3");
    reveal_strlit("p4");
    reveal_strlit("p6");
    reveal_strlit("p7");
    reveal_strlit("ultrafast");
    reveal_strlit("veryfast");
    reveal_strlit("medium");
    reveal_strlit("slow");
    reveal_strlit("veryslow");
    reveal_strlit("-pix_fmt");
    reveal_strlit("yuv420p");
    reveal_strlit("aac");
    reveal_strlit("-t");
    reveal_strlit("-movflags");
    reveal_strlit("+faststart");
    reveal_strlit("-progress");
    reveal_strlit("pipe:1");
    reveal_strlit("-nostats");
    reveal_strlit("-y");
}

/// The flags that the laws below look for.
spec fn looked_for(flag: Seq<char>) -> bool {
    flag == "-crf"@ || flag == "-cq"@ || flag == "-c:v"@ || flag == "copy"@ || flag == "-movflags"@
        || flag == "0:v:0"@
}

/// None of those flags is a part of what opens the command or maps its streams,
/// but for the video stream, which is mapped unless there is audio only.
proof fn front_without(req: ExportRequest, flag: Seq<char>)
    requires
        looked_for(flag),
        flag != req.input@,
    ensures
        !opening(req).contains(flag),
        mapping(req).contains(flag) ==> flag == "0:v:0"@ && req.settings.container
            != Container::Mp3,
{
    keys();
    values_begin_with_digits(req, 0);
    if opening(req).contains(flag) {
        let i = choose|i: int| 0 <= i < opening(req).len() && opening(req)[i] == flag;
        assert(key(opening(req)[i]) == key(flag));
    }
    if mapping(req).contains(flag) {
        let i = choose|i: int| 0 <= i < mapping(req).len() && mapping(req)[i] == flag;
        assert(key(mapping(req)[i]) == key(flag));
        assert(at(audio_stream(req.audio_track), 2) == 'a') by {
            reveal_strlit("0:a:");
            reveal_strlit("0:a:0?");
        }
    }
}

/// Nor are they of what closes it, but for the index of an MP4.
proof fn back_without(req: ExportRequest, flag: Seq<char>)
    requires
        looked_for(flag),
        flag != req.output@,
    ensures
        closing(req).contains(flag) ==> flag == "-movflags"@ && req.settings.container
            == Container::Mp4,
{
    keys();
    values_begin_with_digits(req, 0);
    if closing(req).contains(flag) {
        let i = choose|i: int| 0 <= i < closing(req).len() && closing(req)[i] == flag;
        assert(key(closing(req)[i]) == key(flag));
    }
}

/// Which of those flags each way of coding the streams holds.
proof fn codecs_without(req: ExportRequest, flag: Seq<char>)
    requires
        looked_for(flag),
        codecs(req.settings).contains(flag),
    ensures
        ({
            let s = req.settings;
            let recoded = s.container != Container::Mp3 && s.mode == CutMode::Precise;
            &&& flag == "-crf"@ ==> recoded && s.video == VideoEncoder::X264
            &&& flag == "-cq"@ ==> recoded && s.video != VideoEncoder::X264
            &&& flag == "-c:v"@ ==> recoded
            &&& flag == "copy"@ ==> s.container != Container::Mp3
            &&& flag != "-movflags"@
            &&& flag != "0:v:0"@
        }),
{
    keys();
    let s = req.settings;
    values_begin_with_digits(req, s.quality as nat);
    if let AudioHandling::Aac { kbps } = s.audio {
        values_begin_with_digits(req, kbps as nat);
    }
    let i = choose|i: int| 0 <= i < codecs(s).len() && codecs(s)[i] == flag;
    assert(key(codecs(s)[i]) == key(flag));
    if s.container == Container::Mp3 {
        assert(codecs(s) == audio_only(s.audio));
    } else if s.mode == CutMode::Fast {
        assert(codecs(s) == stream_copy());
    } else {
        let n = quality(s.video, s.quality).len();
        let m = n + 4 + pixel_format(s.video).len();
        if i >= m {
            assert(codecs(s)[i] == audio_codec(s.audio)[i - m]);
        } else if i >= n + 4 {
            assert(codecs(s)[i] == pixel_format(s.video)[i - n - 4]);
        } else if i >= n + 2 {
            assert(codecs(s)[i] == seq!["-preset"@, s.speed.preset(s.video)][i - n - 2]);
        } else if i >= 2 {
            assert(codecs(s)[i] == quality(s.video, s.quality)[i - 2]);
        }
    }
}

/// The argument is there only as the name of a file.
pub open spec fn only_a_file(req: ExportRequest, flag: Seq<char>) -> bool {
    arguments(req).contains(flag) ==> flag == req.input@ || flag == req.output@
}

/// Where each part of the arguments begins.
proof fn parts_stand(req: ExportRequest)
    ensures
        ({
            let a = arguments(req);
            let n1 = opening(req).len();
            let n2 = n1 + mapping(req).len();
            let n3 = n2 + codecs(req.settings).len();
            &&& n1 == 6
            &&& a.len() == n3 + closing(req).len()
            &&& forall|i: int| 0 <= i < n1 ==> #[trigger] a[i] == opening(req)[i]
            &&& forall|i: int| n1 <= i < n2 ==> #[trigger] a[i] == mapping(req)[i - n1]
            &&& forall|i: int| n2 <= i < n3 ==> #[trigger] a[i] == codecs(req.settings)[i - n2]
            &&& forall|i: int| n3 <= i < a.len() ==> #[trigger] a[i] == closing(req)[i - n3]
        }),
{
}

/// The seek comes before the input, which makes it a fast input seek; the
/// duration comes after it, which makes it a limit on the output. Whatever the
/// settings.
pub proof fn the_input_is_sought_and_the_output_limited(req: ExportRequest)
    ensures
        ({
            let a = arguments(req);
            let t = a.len() - closing(req).len();
            &&& a[2] == "-ss"@ && a[3] == timestamp_text(req.start)
            &&& a[4] == "-i"@ && a[5] == req.input@
            &&& 5 < t < a.len() - 1
            &&& a[t] == "-t"@ && a[t + 1] == timestamp_text(req.duration)
        }),
{
    parts_stand(req);
}

/// Progress is machine-readable, and the output comes last, to be written without
/// a question.
pub proof fn the_output_comes_last(req: ExportRequest)
    ensures
        ({
            let a = arguments(req);
            let n = a.len() as int;
            &&& n >= 5
            &&& a.skip(n - 5) == seq!["-progress"@, "pipe:1"@, "-nostats"@, "-y"@, req.output@]
        }),
{
    parts_stand(req);
    let a = arguments(req);
    let n = a.len() as int;
    assert(a.skip(n - 5) =~= seq!["-progress"@, "pipe:1"@, "-nostats"@, "-y"@, req.output@]);
}

/// NVENC ignores `-crf`, so it never receives it, whatever else is asked for. When
/// it re-encodes, it is given a constant quality with all that keeps it from being
/// overridden.
pub proof fn nvenc_never_receives_crf(req: ExportRequest)
    requires
        req.settings.video != VideoEncoder::X264,
    ensures
        only_a_file(req, "-crf"@),
        req.settings.mode == CutMode::Precise && req.settings.container != Container::Mp3
            ==> gives(arguments(req), "-rc"@, "vbr"@) && gives(
            arguments(req),
            "-cq"@,
            digits(req.settings.quality as nat),
        ) && gives(arguments(req), "-b:v"@, "0"@),
{
    let s = req.settings;
    let a = arguments(req);
    absent_but_for_files(req, "-crf"@);
    if s.mode == CutMode::Precise && s.container != Container::Mp3 {
        parts_stand(req);
        let n = opening(req).len() + mapping(req).len() as int;
        assert(a[n + 2] == "-rc"@ && a[n + 3] == "vbr"@);
        assert(a[n + 4] == "-cq"@ && a[n + 5] == digits(s.quality as nat));
        assert(a[n + 6] == "-b:v"@ && a[n + 7] == "0"@);
    }
}

/// x264 is given its quality as `-crf`, and never receives `-cq`.
pub proof fn x264_never_receives_cq(req: ExportRequest)
    requires
        req.settings.video == VideoEncoder::X264,
    ensures
        only_a_file(req, "-cq"@),
        req.settings.mode == CutMode::Precise && req.settings.container != Container::Mp3
            ==> gives(arguments(req), "-crf"@, digits(req.settings.quality as nat)),
{
    let s = req.settings;
    let a = arguments(req);
    absent_but_for_files(req, "-cq"@);
    if s.mode == CutMode::Precise && s.container != Container::Mp3 {
        parts_stand(req);
        let n = opening(req).len() + mapping(req).len() as int;
        assert(a[n + 2] == "-crf"@ && a[n + 3] == digits(s.quality as nat));
    }
}

/// A flag that no part holds can only be a file.
proof fn absent_but_for_files(req: ExportRequest, flag: Seq<char>)
    requires
        looked_for(flag),
    ensures
        ({
            let s = req.settings;
            let mp3 = s.container == Container::Mp3;
            let recoded = !mp3 && s.mode == CutMode::Precise;
            &&& flag == "-crf"@ && !(recoded && s.video == VideoEncoder::X264) ==> only_a_file(
                req,
                flag,
            )
            &&& flag == "-cq"@ && !(recoded && s.video != VideoEncoder::X264) ==> only_a_file(
                req,
                flag,
            )
            &&& flag == "-c:v"@ && !recoded ==> only_a_file(req, flag)
            &&& flag == "copy"@ && mp3 ==> only_a_file(req, flag)
            &&& flag == "0:v:0"@ && mp3 ==> only_a_file(req, flag)
            &&& flag == "-movflags"@ && s.container != Container::Mp4 ==> only_a_file(req, flag)
        }),
{
    keys();
    if flag != req.input@ && flag != req.output@ {
        front_without(req, flag);
        back_without(req, flag);
        if codecs(req.settings).contains(flag) {
            codecs_without(req, flag);
        }
        if arguments(req).contains(flag) {
            found_in_a_part(req, flag);
        }
    }
}

/// An audio-only container drops the video entirely: no stream is mapped, no
/// video codec is named, nothing is copied, and there is no index to move.
pub proof fn mp3_drops_the_video_entirely(req: ExportRequest)
    requires
        req.settings.container == Container::Mp3,
    ensures
        arguments(req).contains("-vn"@),
        gives(arguments(req), "-c:a"@, "libmp3lame"@),
        only_a_file(req, "0:v:0"@),
        only_a_file(req, "-c:v"@),
        only_a_file(req, "copy"@),
        only_a_file(req, "-movflags"@),
{
    let a = arguments(req);
    parts_stand(req);
    let n = opening(req).len() + mapping(req).len() as int;
    assert(a[n] == "-vn"@);
    assert(a[n + 1] == "-c:a"@ && a[n + 2] == "libmp3lame"@);
    absent_but_for_files(req, "0:v:0"@);
    absent_but_for_files(req, "-c:v"@);
    absent_but_for_files(req, "copy"@);
    absent_but_for_files(req, "-movflags"@);
}

/// The same files, span and stream.
pub open spec fn same_clip(a: ExportRequest, b: ExportRequest) -> bool {
    &&& a.input@ == b.input@
    &&& a.output@ == b.output@
    &&& a.start == b.start
    &&& a.duration == b.duration
    &&& a.audio_track == b.audio_track
}

/// Stream copy is meaningless for an MP3, and so is every video setting: they
/// change nothing.
pub proof fn mp3_ignores_the_cut_mode(a: ExportRequest, b: ExportRequest)
    requires
        same_clip(a, b),
        a.settings.container == Container::Mp3,
        b.settings.container == Container::Mp3,
        a.settings.audio == b.settings.audio,
    ensures
        arguments(a) == arguments(b),
{
}

/// A fast cut copies the streams, and ignores every encoder setting, the audio's
/// among them.
pub proof fn fast_mode_ignores_encoder_settings(a: ExportRequest, b: ExportRequest)
    requires
        same_clip(a, b),
        a.settings.mode == CutMode::Fast,
        b.settings.mode == CutMode::Fast,
        a.settings.container == b.settings.container,
        a.settings.container != Container::Mp3,
    ensures
        arguments(a) == arguments(b),
        gives(arguments(a), "-c"@, "copy"@),
        gives(arguments(a), "-avoid_negative_ts"@, "make_zero"@),
        only_a_file(a, "-crf"@),
        only_a_file(a, "-cq"@),
        only_a_file(a, "-c:v"@),
{
    let args = arguments(a);
    parts_stand(a);
    let n = opening(a).len() + mapping(a).len() as int;
    assert(args[n] == "-c"@ && args[n + 1] == "copy"@);
    assert(args[n + 2] == "-avoid_negative_ts"@ && args[n + 3] == "make_zero"@);
    absent_but_for_files(a, "-crf"@);
    absent_but_for_files(a, "-cq"@);
    absent_but_for_files(a, "-c:v"@);
}

/// The index goes to the front of an MP4, which is the only container to have one.
pub proof fn faststart_only_for_mp4(req: ExportRequest)
    ensures
        req.settings.container == Container::Mp4 ==> gives(
            arguments(req),
            "-movflags"@,
            "+faststart"@,
        ),
        req.settings.container != Container::Mp4 ==> only_a_file(req, "-movflags"@),
{
    parts_stand(req);
    absent_but_for_files(req, "-movflags"@);
    if req.settings.container == Container::Mp4 {
        let a = arguments(req);
        let n = a.len() - 7;
        assert(a[n] == "-movflags"@ && a[n + 1] == "+faststart"@);
    }
}

/// The audio stream asked for is mapped, or the first if there is one. So is the
/// video stream, unless the output carries none.
pub proof fn streams_are_mapped_explicitly(req: ExportRequest)
    ensures
        gives(arguments(req), "-map"@, audio_stream(req.audio_track)),
        req.settings.container != Container::Mp3 ==> gives(arguments(req), "-map"@, "0:v:0"@),
{
    parts_stand(req);
    let a = arguments(req);
    let n = 6 + mapping(req).len() as int;
    assert(a[n - 2] == "-map"@ && a[n - 1] == audio_stream(req.audio_track));
    if req.settings.container != Container::Mp3 {
        assert(a[6] == "-map"@ && a[7] == "0:v:0"@);
    }
}

/// The audio of a re-encode is said outright, rather than left to what the
/// container defaults to.
pub proof fn audio_is_explicit(req: ExportRequest)
    requires
        req.settings.mode == CutMode::Precise || req.settings.container == Container::Mp3,
    ensures
        ({
            let a = arguments(req);
            let mp3 = req.settings.container == Container::Mp3;
            match req.settings.audio {
                AudioHandling::Copy => if mp3 {
                    gives(a, "-c:a"@, "libmp3lame"@) && gives(a, "-q:a"@, "2"@)
                } else {
                    gives(a, "-c:a"@, "copy"@)
                },
                AudioHandling::Aac { kbps } => gives(
                    a,
                    "-c:a"@,
                    if mp3 {
                        "libmp3lame"@
                    } else {
                        "aac"@
                    },
                ) && gives(a, "-b:a"@, rate(kbps)),
            }
        }),
{
    parts_stand(req);
    let a = arguments(req);
    let s = req.settings;
    let n = opening(req).len() + mapping(req).len() as int;
    if s.container == Container::Mp3 {
        assert(a[n + 1] == "-c:a"@);
        assert(a[n + 3] == codecs(s)[3]);
    } else {
        let m = n + 4 + quality(s.video, s.quality).len() + pixel_format(s.video).len();
        assert(a[m] == "-c:a"@);
        if s.audio is Aac {
            assert(a[m + 2] == "-b:a"@);
        }
    }
}

/// A line being read: the words read, the word begun, and whether a quote is open.
pub ghost struct Reading {
    pub words: Seq<Seq<char>>,
    pub word: Seq<char>,
    pub quoting: bool,
}

/// Reads a line as a terminal does: words stand between spaces, and quotes hold a
/// word together.
pub open spec fn read_on(r: Reading, s: Seq<char>) -> Reading
    decreases s.len(),
{
    if s.len() == 0 {
        r
    } else {
        let before = read_on(r, s.drop_last());
        let c = s.last();
        if c == '"' {
            Reading { quoting: !before.quoting, ..before }
        } else if c == ' ' && !before.quoting {
            Reading { words: before.words.push(before.word), word: seq![], quoting: false }
        } else {
            Reading { word: before.word.push(c), ..before }
        }
    }
}

/// The words of a line.
pub open spec fn words(line: Seq<char>) -> Seq<Seq<char>> {
    let r = read_on(Reading { words: seq![], word: seq![], quoting: false }, line);
    r.words.push(r.word)
}

proof fn read_in_two(r: Reading, a: Seq<char>, b: Seq<char>)
    ensures
        read_on(r, a + b) == read_on(read_on(r, a), b),
    decreases b.len(),
{
    if b.len() == 0 {
        assert(a + b =~= a);
    } else {
        assert((a + b).drop_last() =~= a + b.drop_last());
        read_in_two(r, a, b.drop_last());
    }
}

proof fn read_plain(r: Reading, s: Seq<char>)
    requires
        !s.contains('"'),
        r.quoting || !s.contains(' '),
    ensures
        read_on(r, s) == (Reading { word: r.word + s, ..r }),
    decreases s.len(),
{
    if s.len() == 0 {
        assert(r.word + s =~= r.word);
    } else {
        assert(s.contains(s.last()));
        assert forall|c: char| !s.contains(c) implies !s.drop_last().contains(c) by {
            if s.drop_last().contains(c) {
                let i = choose|i: int| 0 <= i < s.len() - 1 && s.drop_last()[i] == c;
                assert(s[i] == c);
            }
        }
        read_plain(r, s.drop_last());
        assert((r.word + s.drop_last()).push(s.last()) =~= r.word + s);
    }
}

proof fn read_quoted(r: Reading, arg: Seq<char>)
    requires
        !arg.contains('"'),
        !r.quoting,
        r.word.len() == 0,
    ensures
        read_on(r, quoted(arg)) == (Reading { word: arg, ..r }),
{
    assert(r.word + arg =~= arg);
    if arg.contains(' ') {
        let q = seq!['"'];
        let open = Reading { quoting: true, ..r };
        reveal_with_fuel(read_on, 2);
        assert(q.drop_last() =~= Seq::<char>::empty());
        assert(read_on(r, q) == open);
        read_plain(open, arg);
        let held = Reading { word: arg, ..open };
        assert(read_on(held, q) == Reading { quoting: false, ..held });
        read_in_two(r, q, arg);
        read_in_two(r, q + arg, q);
    } else {
        read_plain(r, arg);
    }
}

proof fn read_line(program: Seq<char>, args: Seq<Seq<char>>)
    requires
        !program.contains('"'),
        forall|i: int| 0 <= i < args.len() ==> !#[trigger] args[i].contains('"'),
    ensures
        ({
            let all = seq![program] + args;
            read_on(
                Reading { words: seq![], word: seq![], quoting: false },
                command_line(program, args),
            ) == (Reading { words: all.drop_last(), word: all.last(), quoting: false })
        }),
    decreases args.len(),
{
    let all = seq![program] + args;
    let start = Reading { words: seq![], word: seq![], quoting: false };
    if args.len() == 0 {
        read_quoted(start, program);
        assert(all.drop_last() =~= seq![]);
    } else {
        read_line(program, args.drop_last());
        let before = seq![program] + args.drop_last();
        let line = command_line(program, args.drop_last());
        let next = Reading { words: before, word: seq![], quoting: false };
        assert(before.drop_last().push(before.last()) =~= before);
        assert(line.push(' ').drop_last() =~= line);
        assert(read_on(start, line.push(' ')) == next);
        assert(!args[args.len() - 1].contains('"'));
        read_quoted(next, args.last());
        read_in_two(start, line.push(' '), quoted(args.last()));
        assert(all.drop_last() =~= before);
    }
}

/// The rendered line can be pasted: read as a terminal reads it, it is the program
/// and its arguments again, spaces and all. Only a quote inside an argument is
/// beyond it.
pub proof fn a_rendered_command_reads_back(program: Seq<char>, args: Seq<Seq<char>>)
    requires
        !program.contains('"'),
        forall|i: int| 0 <= i < args.len() ==> !#[trigger] args[i].contains('"'),
    ensures
        words(command_line(program, args)) == seq![program] + args,
{
    read_line(program, args);
    let all = seq![program] + args;
    assert(all.drop_last().push(all.last()) =~= all);
}

/// What every export begins with: no questions asked, the seek, and the input.
pub open spec fn begins_an_export(args: Seq<Seq<char>>, req: ExportRequest) -> bool {
    &&& args.len() >= 6
    &&& args.take(6) == seq![
        "-hide_banner"@,
        "-nostdin"@,
        "-ss"@,
        timestamp_text(req.start),
        "-i"@,
        req.input@,
    ]
}

/// A preset is on its encoder's own scale: every NVENC encoder counts from p1 to p7,
/// and x264 has names. Whatever else is asked for.
pub proof fn the_preset_is_on_the_encoders_scale(req: ExportRequest)
    requires
        req.settings.mode == CutMode::Precise,
        req.settings.container != Container::Mp3,
    ensures
        ({
            let a = arguments(req);
            match (req.settings.video, req.settings.speed) {
                (VideoEncoder::X264, Speed::Fastest) => gives(a, "-preset"@, "ultrafast"@),
                (VideoEncoder::X264, Speed::Fast) => gives(a, "-preset"@, "veryfast"@),
                (VideoEncoder::X264, Speed::Balanced) => gives(a, "-preset"@, "medium"@),
                (VideoEncoder::X264, Speed::Slow) => gives(a, "-preset"@, "slow"@),
                (VideoEncoder::X264, Speed::Slowest) => gives(a, "-preset"@, "veryslow"@),
                (VideoEncoder::NvencH264, Speed::Fastest) => gives(a, "-preset"@, "p1"@),
                (VideoEncoder::NvencH264, Speed::Fast) => gives(a, "-preset"@, "p3"@),
                (VideoEncoder::NvencH264, Speed::Balanced) => gives(a, "-preset"@, "p4"@),
                (VideoEncoder::NvencH264, Speed::Slow) => gives(a, "-preset"@, "p6"@),
                (VideoEncoder::NvencH264, Speed::Slowest) => gives(a, "-preset"@, "p7"@),
                (VideoEncoder::NvencHevc, Speed::Fastest) => gives(a, "-preset"@, "p1"@),
                (VideoEncoder::NvencHevc, Speed::Fast) => gives(a, "-preset"@, "p3"@),
                (VideoEncoder::NvencHevc, Speed::Balanced) => gives(a, "-preset"@, "p4"@),
                (VideoEncoder::NvencHevc, Speed::Slow) => gives(a, "-preset"@, "p6"@),
                (VideoEncoder::NvencHevc, Speed::Slowest) => gives(a, "-preset"@, "p7"@),
                (VideoEncoder::NvencAv1, Speed::Fastest) => gives(a, "-preset"@, "p1"@),
                (VideoEncoder::NvencAv1, Speed::Fast) => gives(a, "-preset"@, "p3"@),
                (VideoEncoder::NvencAv1, Speed::Balanced) => gives(a, "-preset"@, "p4"@),
                (VideoEncoder::NvencAv1, Speed::Slow) => gives(a, "-preset"@, "p6"@),
                (VideoEncoder::NvencAv1, Speed::Slowest) => gives(a, "-preset"@, "p7"@),
            }
        }),
{
    let s = req.settings;
    let a = arguments(req);
    parts_stand(req);
    let n = 10 + 2 + quality(s.video, s.quality).len() as int;
    assert(a[n] == "-preset"@ && a[n + 1] == s.speed.preset(s.video));
}

/// A re-encode is this command, from the first argument to the last: x264 by its
/// constant rate factor, NVENC by its constant quality, each with its preset; H.264
/// as 8-bit 4:2:0; the audio as it is asked for; and the index in front of an MP4.
pub proof fn a_re_encode_in_full(req: ExportRequest, preset: Seq<char>)
    requires
        req.settings.mode == CutMode::Precise,
        req.settings.container != Container::Mp3,
        preset == match (req.settings.video == VideoEncoder::X264, req.settings.speed) {
            (true, Speed::Fastest) => "ultrafast"@,
            (true, Speed::Fast) => "veryfast"@,
            (true, Speed::Balanced) => "medium"@,
            (true, Speed::Slow) => "slow"@,
            (true, Speed::Slowest) => "veryslow"@,
            (false, Speed::Fastest) => "p1"@,
            (false, Speed::Fast) => "p3"@,
            (false, Speed::Balanced) => "p4"@,
            (false, Speed::Slow) => "p6"@,
            (false, Speed::Slowest) => "p7"@,
        },
    ensures
        begins_an_export(arguments(req), req),
        arguments(req).skip(6) == seq![
            "-map"@,
            "0:v:0"@,
            "-map"@,
            match req.audio_track {
                Some(i) => "0:a:"@ + digits(i as nat),
                None => "0:a:0?"@,
            },
            "-c:v"@,
        ] + match req.settings.video {
            VideoEncoder::X264 => seq![
                "libx264"@,
                "-crf"@,
                digits(req.settings.quality as nat),
                "-preset"@,
                preset,
                "-pix_fmt"@,
                "yuv420p"@,
            ],
            VideoEncoder::NvencH264 => seq![
                "h264_nvenc"@,
                "-rc"@,
                "vbr"@,
                "-cq"@,
                digits(req.settings.quality as nat),
                "-b:v"@,
                "0"@,
                "-preset"@,
                preset,
                "-pix_fmt"@,
                "yuv420p"@,
            ],
            VideoEncoder::NvencHevc => seq![
                "hevc_nvenc"@,
                "-rc"@,
                "vbr"@,
                "-cq"@,
                digits(req.settings.quality as nat),
                "-b:v"@,
                "0"@,
                "-preset"@,
                preset,
            ],
            VideoEncoder::NvencAv1 => seq![
                "av1_nvenc"@,
                "-rc"@,
                "vbr"@,
                "-cq"@,
                digits(req.settings.quality as nat),
                "-b:v"@,
                "0"@,
                "-preset"@,
                preset,
            ],
        } + match req.settings.audio {
            AudioHandling::Copy => seq!["-c:a"@, "copy"@],
            AudioHandling::Aac { kbps } => seq![
                "-c:a"@,
                "aac"@,
                "-b:a"@,
                digits(kbps as nat).push('k'),
            ],
        } + seq!["-t"@, timestamp_text(req.duration)] + (if req.settings.container
            == Container::Mp4 {
            seq!["-movflags"@, "+faststart"@]
        } else {
            seq![]
        }) + seq!["-progress"@, "pipe:1"@, "-nostats"@, "-y"@, req.output@],
{
    let s = req.settings;
    let a = arguments(req);
    assert(preset == s.speed.preset(s.video));
    assert(a.take(6) =~= opening(req));
    assert(a.skip(6) =~= mapping(req) + codecs(s) + closing(req));
}

/// A fast cut is this command: both streams copied, and rebased to start at zero.
pub proof fn a_fast_cut_in_full(req: ExportRequest)
    requires
        req.settings.mode == CutMode::Fast,
        req.settings.container != Container::Mp3,
    ensures
        begins_an_export(arguments(req), req),
        arguments(req).skip(6) == seq![
            "-map"@,
            "0:v:0"@,
            "-map"@,
            match req.audio_track {
                Some(i) => "0:a:"@ + digits(i as nat),
                None => "0:a:0?"@,
            },
            "-c"@,
            "copy"@,
            "-avoid_negative_ts"@,
            "make_zero"@,
            "-t"@,
            timestamp_text(req.duration),
        ] + (if req.settings.container == Container::Mp4 {
            seq!["-movflags"@, "+faststart"@]
        } else {
            seq![]
        }) + seq!["-progress"@, "pipe:1"@, "-nostats"@, "-y"@, req.output@],
{
    let a = arguments(req);
    assert(a.take(6) =~= opening(req));
    assert(a.skip(6) =~= mapping(req) + codecs(req.settings) + closing(req));
}

/// An MP3 is this command: no video, and the audio by its bit rate, or at a good
/// quality where it was to be copied.
pub proof fn an_mp3_in_full(req: ExportRequest)
    requires
        req.settings.container == Container::Mp3,
    ensures
        begins_an_export(arguments(req), req),
        arguments(req).skip(6) == seq![
            "-map"@,
            match req.audio_track {
                Some(i) => "0:a:"@ + digits(i as nat),
                None => "0:a:0?"@,
            },
            "-vn"@,
            "-c:a"@,
            "libmp3lame"@,
        ] + match req.settings.audio {
            AudioHandling::Copy => seq!["-q:a"@, "2"@],
            AudioHandling::Aac { kbps } => seq!["-b:a"@, digits(kbps as nat).push('k')],
        } + seq![
            "-t"@,
            timestamp_text(req.duration),
            "-progress"@,
            "pipe:1"@,
            "-nostats"@,
            "-y"@,
            req.output@,
        ],
{
    let a = arguments(req);
    assert(a.take(6) =~= opening(req));
    assert(a.skip(6) =~= mapping(req) + codecs(req.settings) + closing(req));
}

/// HEVC and AV1 are encoded alike: the commands differ in the encoder's name alone.
pub proof fn the_encoder_changes_its_name_alone(a: ExportRequest, b: ExportRequest)
    requires
        same_clip(a, b),
        a.settings.mode == CutMode::Precise,
        a.settings.container != Container::Mp3,
        a.settings.video == VideoEncoder::NvencHevc,
        b.settings == (EncodeSettings { video: VideoEncoder::NvencAv1, ..a.settings }),
    ensures
        arguments(a).len() == arguments(b).len(),
        arguments(a)[11] == "hevc_nvenc"@ && arguments(b)[11] == "av1_nvenc"@,
        forall|i: int|
            0 <= i < arguments(a).len() && i != 11 ==> #[trigger] arguments(a)[i] == arguments(b)[i],
{
    parts_stand(a);
    parts_stand(b);
    assert(codecs(b.settings) =~= codecs(a.settings).update(1, "av1_nvenc"@));
    assert(arguments(b) =~= arguments(a).update(11, "av1_nvenc"@));
}

/// The file is named for what it holds.
pub proof fn a_file_is_named_for_its_container(c: Container)
    ensures
        c.suffix() == match c {
            Container::Mp4 => "mp4"@,
            Container::Mkv => "mkv"@,
            Container::Mp3 => "mp3"@,
        },
{
}

} // verus!
