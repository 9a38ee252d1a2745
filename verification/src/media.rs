//! Locating ffmpeg and asking ffprobe about a file.

use vstd::prelude::*;

use crate::export::answered;
use crate::fixed::{
    at_most, decimals_are_worth, parse_real, push_real, real_number, real_text, Real,
};
use crate::queue::{stepped, Step};
use crate::text::{
    a_text_is_read_line_by_line, all_ascii, ascii_text, begins_with, chars_of, contents, decode,
    digits, digits_read_back, first_at, first_at_finds, is_digit, is_space, lines, lines_from,
    lossy_text, lowered, padded, padded_reads_back, pieces, pieces_of_one, pieces_of_parts, pow10,
    second_word, split, starts_with, text_of, texts, trim, trimmed, trimmed_already,
    trimming_drops_blanks_alone, trimming_keeps_the_first, word_two,
};

verus! {

/// Generous next to a typical 10 s GOP, without making the probe expensive.
pub const LOOKBACK: i128 = 60_000_000_000;

/// A little lookahead, so a mark sitting exactly on a keyframe is recognised.
pub const LOOKAHEAD: i128 = 2_000_000_000;

// ---- the tools ----------------------------------------------------------------

#[derive(Debug, Clone)]
pub struct Tools {
    pub ffmpeg: String,
    pub ffprobe: String,
}

/// Why there are no tools.
#[derive(Debug, Clone)]
pub enum ToolsError {
    /// The configured path is no folder and lies in none.
    NoFolder { path: String },
    /// The configured folder does not hold both.
    NoPair { dir: String },
    NoFfmpeg,
    NoFfprobe,
}

impl ToolsError {
    pub open spec fn text(self) -> Seq<char> {
        match self {
            ToolsError::NoFolder { path } => path@ + " has no parent directory"@,
            ToolsError::NoPair { dir } => "no ffmpeg/ffprobe pair in "@ + dir@
                + " — check the configured path"@,
            ToolsError::NoFfmpeg => "ffmpeg is not on PATH"@,
            ToolsError::NoFfprobe => "ffprobe is not on PATH"@,
        }
    }

    pub fn message(&self) -> (r: String)
        ensures
            r@ == self.text(),
    {
        match self {
            ToolsError::NoFolder { path } => {
                let mut r: String = path.as_str().to_string();
                r.append(" has no parent directory");
                r
            },
            ToolsError::NoPair { dir } => {
                let mut r: String = "no ffmpeg/ffprobe pair in ".to_string();
                r.append(dir.as_str());
                r.append(" — check the configured path");
                r
            },
            ToolsError::NoFfmpeg => "ffmpeg is not on PATH".to_string(),
            ToolsError::NoFfprobe => "ffprobe is not on PATH".to_string(),
        }
    }
}

/// A configured folder: where each of the tools would be, and whether it is.
#[derive(Debug, Clone)]
pub struct Folder {
    pub dir: String,
    pub ffmpeg: String,
    pub ffprobe: String,
    pub has_ffmpeg: bool,
    pub has_ffprobe: bool,
}

/// Where the tools were looked for, and what was there.
#[derive(Debug, Clone)]
pub enum Search {
    InFolder(Folder),
    /// On `PATH`: where each was found.
    OnPath { ffmpeg: Option<String>, ffprobe: Option<String> },
}

impl Search {
    /// What a search comes to: both tools, or the first that is missing.
    pub open spec fn comes_to(self, r: Result<Tools, ToolsError>) -> bool {
        match self {
            Search::InFolder(f) => if f.has_ffmpeg && f.has_ffprobe {
                r matches Ok(t) && t.ffmpeg@ == f.ffmpeg@ && t.ffprobe@ == f.ffprobe@
            } else {
                r matches Err(ToolsError::NoPair { dir }) && dir@ == f.dir@
            },
            Search::OnPath { ffmpeg: None, ffprobe } => r matches Err(ToolsError::NoFfmpeg),
            Search::OnPath { ffmpeg: Some(_), ffprobe: None } => r matches Err(
                ToolsError::NoFfprobe,
            ),
            Search::OnPath { ffmpeg: Some(a), ffprobe: Some(b) } => r matches Ok(t) && t.ffmpeg@
                == a@ && t.ffprobe@ == b@,
        }
    }
}

/// The path leads to a file of that name, in capitals or not: nothing but a folder
/// stands before it, and nothing but an extension after it.
pub open spec fn leads_to(path: Seq<char>, program: Seq<char>) -> bool {
    exists|i: int|
        {
            let end = i + program.len();
            &&& 0 <= i <= path.len() - program.len()
            &&& lowered(#[trigger] path.subrange(i, i + program.len())) == lowered(program)
            &&& i == 0 || path[i - 1] == '/' || path[i - 1] == '\\' || path[i - 1] == ':'
            &&& end == path.len() || path[end] == '.'
        }
}

/// A name of small letters alone, without a folder or an extension.
pub open spec fn is_plain_name(program: Seq<char>) -> bool {
    program.len() > 0 && forall|i: int|
        0 <= i < program.len() ==> 'a' <= #[trigger] program[i] <= 'z'
}

/// Calls `which::which`: where a program is on `PATH`, if it is there. Whether it is,
/// and in which folder, rests on the environment and the disk, and nothing is
/// claimed of that. The path found is that of a file of this name: which joins the
/// name to a folder of `PATH`, or on Windows to a bare drive; appends an extension
/// there, which begins with a dot; and takes over the capitals of the file. What is
/// not UTF-8 in the path is replaced.
#[verifier::external_body]
fn on_path(program: &str) -> (r: Option<String>)
    requires
        is_plain_name(program@),
    ensures
        r matches Some(path) ==> leads_to(path@, program@),
{
    which::which(program).ok().map(|path| path.to_string_lossy().into_owned())
}

/// A program's file name on the platform.
pub open spec fn program_name(name: Seq<char>, windows: bool) -> Seq<char> {
    if windows {
        name + ".exe"@
    } else {
        name
    }
}

pub fn exe(name: &str, windows: bool) -> (r: String)
    ensures
        r@ == program_name(name@, windows),
{
    let mut r: String = name.to_string();
    if windows {
        r.append(".exe");
    }
    r
}

/// The folder that a configured path stands for: itself, or the one that it lies in.
pub fn configured_folder(path: &str, is_dir: bool, parent: Option<String>) -> (r: Result<
    String,
    ToolsError,
>)
    ensures
        is_dir ==> (r matches Ok(dir) && dir@ == path@),
        !is_dir ==> match parent {
            Some(p) => r matches Ok(dir) && dir@ == p@,
            None => r matches Err(ToolsError::NoFolder { path: p }) && p@ == path@,
        },
{
    if is_dir {
        return Ok(path.to_string());
    }
    match parent {
        Some(p) => Ok(p),
        None => Err(ToolsError::NoFolder { path: path.to_string() }),
    }
}

/// The arguments that list the encoders.
pub open spec fn encoders_arguments() -> Seq<Seq<char>> {
    seq!["-hide_banner"@, "-loglevel"@, "error"@, "-encoders"@]
}

/// The arguments that encode one frame and throw it away.
pub open spec fn trial_arguments(encoder: Seq<char>) -> Seq<Seq<char>> {
    seq![
        "-hide_banner"@,
        "-loglevel"@,
        "error"@,
        "-f"@,
        "lavfi"@,
        "-i"@,
        "nullsrc=s=256x144:r=25:d=0.2"@,
        "-c:v"@,
        encoder,
        "-frames:v"@,
        "1"@,
        "-f"@,
        "null"@,
        "-"@,
    ]
}

/// Where the probe begins: as far back as it looks, but not before the start.
pub open spec fn probe_start(around: Real) -> Real {
    match around {
        Real::Finite(t) => if t <= LOOKBACK {
            Real::Finite(0)
        } else {
            Real::Finite((t - LOOKBACK) as i128)
        },
        Real::PosInf => Real::PosInf,
        _ => Real::Finite(0),
    }
}

/// Where it ends.
pub open spec fn probe_end(around: Real) -> Real {
    match around {
        Real::Finite(t) => if t + LOOKAHEAD > i128::MAX {
            Real::PosInf
        } else {
            Real::Finite((t + LOOKAHEAD) as i128)
        },
        other => other,
    }
}

pub open spec fn interval_text(around: Real) -> Seq<char> {
    real_text(probe_start(around), 3, false).push('%') + real_text(probe_end(around), 3, false)
}

/// The arguments that list the packets near a mark.
pub open spec fn probe_arguments(file: Seq<char>, around: Real) -> Seq<Seq<char>> {
    seq![
        "-v"@,
        "error"@,
        "-select_streams"@,
        "v:0"@,
        "-show_packets"@,
        "-show_entries"@,
        "packet=pts_time,flags"@,
        "-read_intervals"@,
        interval_text(around),
        "-of"@,
        "csv=p=0"@,
        file,
    ]
}

fn list(a: &[&str]) -> (r: Vec<String>)
    ensures
        texts(r@) == Seq::new(a@.len(), |i: int| a@[i]@),
{
    let mut r: Vec<String> = Vec::new();
    let mut i: usize = 0;
    while i < a.len()
        invariant
            i <= a@.len(),
            texts(r@) == Seq::new(i as nat, |k: int| a@[k]@),
        decreases a@.len() - i,
    {
        let arg: &str = a[i];
        let ghost before = texts(r@);
        r.push(arg.to_string());
        assert(texts(r@) =~= before.push(arg@));
        i += 1;
        assert(texts(r@) =~= Seq::new(i as nat, |k: int| a@[k]@));
    }
    assert(texts(r@) =~= Seq::new(a@.len(), |i: int| a@[i]@));
    r
}

impl Tools {
    /// Resolve the tools, preferring an explicit path over `PATH`.
    ///
    /// Where there is a configured folder, `PATH` is not looked at. Where there is
    /// none, both are looked for there.
    pub fn discover(configured: Option<Folder>) -> (r: Result<Tools, ToolsError>)
        ensures
            match configured {
                Some(folder) => Search::InFolder(folder).comes_to(r),
                None => exists|ffmpeg: Option<String>, ffprobe: Option<String>|
                    #[trigger] (Search::OnPath { ffmpeg, ffprobe }).comes_to(r),
            },
            configured is None ==> (r matches Ok(t) ==> leads_to(t.ffmpeg@, "ffmpeg"@)
                && leads_to(t.ffprobe@, "ffprobe"@)),
    {
        match configured {
            Some(folder) => Tools::resolve(Search::InFolder(folder)),
            None => {
                proof {
                    reveal_strlit("ffmpeg");
                    reveal_strlit("ffprobe");
                }
                let search: Search = Search::OnPath {
                    ffmpeg: on_path("ffmpeg"),
                    ffprobe: on_path("ffprobe"),
                };
                Tools::resolve(search)
            },
        }
    }

    /// The tools that a search came upon.
    pub fn resolve(search: Search) -> (r: Result<Tools, ToolsError>)
        ensures
            search.comes_to(r),
    {
        match search {
            Search::InFolder(f) => {
                if f.has_ffmpeg && f.has_ffprobe {
                    Ok(Tools { ffmpeg: f.ffmpeg, ffprobe: f.ffprobe })
                } else {
                    Err(ToolsError::NoPair { dir: f.dir })
                }
            },
            Search::OnPath { ffmpeg, ffprobe } => {
                match ffmpeg {
                    None => Err(ToolsError::NoFfmpeg),
                    Some(a) => match ffprobe {
                        None => Err(ToolsError::NoFfprobe),
                        Some(b) => Ok(Tools { ffmpeg: a, ffprobe: b }),
                    },
                }
            },
        }
    }

    /// Asks ffmpeg for its encoders.
    pub fn encoders_args() -> (r: Vec<String>)
        ensures
            texts(r@) == encoders_arguments(),
    {
        let r: Vec<String> = list(&["-hide_banner", "-loglevel", "error", "-encoders"]);
        assert(texts(r@) =~= encoders_arguments());
        r
    }

    /// Asks ffmpeg to try an encoder.
    pub fn can_encode_args(encoder: &str) -> (r: Vec<String>)
        ensures
            texts(r@) == trial_arguments(encoder@),
    {
        let r: Vec<String> = list(
            &[
                "-hide_banner",
                "-loglevel",
                "error",
                "-f",
                "lavfi",
                "-i",
                "nullsrc=s=256x144:r=25:d=0.2",
                "-c:v",
                encoder,
                "-frames:v",
                "1",
                "-f",
                "null",
                "-",
            ],
        );
        assert(texts(r@) =~= trial_arguments(encoder@));
        r
    }

    /// Whether an encoder can actually be used on this machine, by how the trial
    /// ended: `None` when it could not even be run.
    ///
    /// Listing in `ffmpeg -encoders` only proves the binary was *built* with the
    /// encoder. NVENC additionally needs an NVIDIA driver and a card that
    /// supports the codec — a full ffmpeg build on an AMD machine still lists
    /// `h264_nvenc`, and only fails when you try to use it. The sole reliable
    /// test is to encode a frame and see whether it works.
    pub fn can_encode(succeeded: Option<bool>) -> (r: bool)
        ensures
            r == (succeeded == Some(true)),
    {
        match succeeded {
            Some(ok) => ok,
            None => false,
        }
    }

    /// Asks ffprobe for the packets near a mark.
    pub fn keyframes_near_args(file: &str, around: Real) -> (r: Vec<String>)
        ensures
            texts(r@) == probe_arguments(file@, around),
    {
        let start: Real = match around {
            Real::Finite(t) => if t <= LOOKBACK {
                Real::Finite(0)
            } else {
                Real::Finite(t - LOOKBACK)
            },
            Real::PosInf => Real::PosInf,
            _ => Real::Finite(0),
        };
        let end: Real = match around {
            Real::Finite(t) => if t > i128::MAX - LOOKAHEAD {
                Real::PosInf
            } else {
                Real::Finite(t + LOOKAHEAD)
            },
            other => other,
        };
        let mut interval: String = String::new();
        push_real(&mut interval, start, 3, false);
        interval.push('%');
        push_real(&mut interval, end, 3, false);
        assert(interval@ =~= interval_text(around));
        let r: Vec<String> = list(
            &[
                "-v",
                "error",
                "-select_streams",
                "v:0",
                "-show_packets",
                "-show_entries",
                "packet=pts_time,flags",
                "-read_intervals",
                interval.as_str(),
                "-of",
                "csv=p=0",
                file,
            ],
        );
        assert(texts(r@) =~= probe_arguments(file@, around));
        r
    }
}

// ---- encoders -----------------------------------------------------------------

/// A set of encoders, by name.
#[derive(Debug, Clone)]
pub struct EncoderSet {
    names: Vec<String>,
}

impl View for EncoderSet {
    type V = Set<Seq<char>>;

    closed spec fn view(&self) -> Set<Seq<char>> {
        texts(self.names@).to_set()
    }
}

impl EncoderSet {
    pub fn new() -> (r: Self)
        ensures
            r@ == Set::<Seq<char>>::empty(),
    {
        let r = EncoderSet { names: Vec::new() };
        assert(r@ =~= Set::<Seq<char>>::empty());
        r
    }

    pub fn contains(&self, name: &str) -> (r: bool)
        ensures
            r == self@.contains(name@),
    {
        let wanted: Vec<char> = chars_of(name);
        let mut i: usize = 0;
        while i < self.names.len()
            invariant
                i <= self.names@.len(),
                wanted@ == name@,
                forall|j: int| 0 <= j < i ==> texts(self.names@)[j] != name@,
            decreases self.names@.len() - i,
        {
            let have: Vec<char> = chars_of(self.names[i].as_str());
            assert(texts(self.names@)[i as int] == have@);
            if crate::text::same(have.as_slice(), wanted.as_slice()) {
                assert(texts(self.names@).contains(name@));
                return true;
            }
            i += 1;
        }
        assert(!texts(self.names@).contains(name@));
        false
    }

    fn insert(&mut self, name: String)
        ensures
            final(self)@ == old(self)@.insert(name@),
    {
        let ghost before = texts(self.names@);
        if !self.contains(name.as_str()) {
            self.names.push(name);
            assert(texts(self.names@) =~= before.push(name@));
            assert forall|s: Seq<char>| #[trigger] before.push(name@).contains(s) <==> s == name@
                || before.contains(s) by {
                if before.contains(s) {
                    let i = choose|i: int| 0 <= i < before.len() && before[i] == s;
                    assert(before.push(name@)[i] == s);
                }
                if s == name@ {
                    assert(before.push(name@)[before.len() as int] == s);
                }
                if before.push(name@).contains(s) {
                    let i = choose|i: int| 0 <= i <= before.len() && before.push(name@)[i] == s;
                    if i < before.len() {
                        assert(before[i] == s);
                    }
                }
            }
        }
        assert(self@ =~= old(self)@.insert(name@));
    }
}

/// The rows below the rule of the table.
pub open spec fn rows(lines: Seq<Seq<char>>) -> Seq<Seq<char>>
    decreases lines.len(),
{
    if lines.len() == 0 {
        Seq::empty()
    } else if begins_with(lines[0], " -----"@) {
        lines.skip(1)
    } else {
        rows(lines.skip(1))
    }
}

/// The second words of the rows.
pub open spec fn names_in(rows: Seq<Seq<char>>) -> Set<Seq<char>>
    decreases rows.len(),
{
    if rows.len() == 0 {
        Set::empty()
    } else {
        match second_word(rows.last()) {
            Some(name) => names_in(rows.drop_last()).insert(name),
            None => names_in(rows.drop_last()),
        }
    }
}

/// The encoders that a table lists.
pub open spec fn encoders_in(text: Seq<char>) -> Set<Seq<char>> {
    names_in(rows(lines_from(text, 0)))
}

/// Extract encoder names from `ffmpeg -encoders` output.
///
/// Lines look like ` V....D h264_nvenc           NVIDIA NVENC H.264 encoder`.
pub fn parse_encoders(text: &str) -> (r: EncoderSet)
    ensures
        r@ == encoders_in(text@),
{
    let cs: Vec<char> = chars_of(text);
    let all: Vec<&[char]> = lines(cs.as_slice());
    let ghost ls = contents(all@);
    let mut from: usize = 0;
    let mut found: EncoderSet = EncoderSet::new();
    assert(ls.skip(0) =~= ls);
    while from < all.len()
        invariant_except_break
            from <= all@.len(),
            rows(ls) == rows(ls.skip(from as int)),
        invariant
            ls == contents(all@),
        ensures
            from <= all@.len(),
            rows(ls) == ls.skip(from as int),
        decreases all@.len() - from,
    {
        assert(ls.skip(from as int)[0] == all@[from as int]@);
        assert(ls.skip(from as int).skip(1) =~= ls.skip(from + 1));
        if starts_with(all[from], " -----") {
            from += 1;
            break;
        }
        from += 1;
    }
    let ghost table = ls.skip(from as int);
    let mut i: usize = from;
    assert(table.take(0) =~= Seq::<Seq<char>>::empty());
    while i < all.len()
        invariant
            from <= i <= all@.len(),
            ls == contents(all@),
            table == ls.skip(from as int),
            found@ == names_in(table.take(i - from)),
        decreases all@.len() - i,
    {
        proof {
            let upto = table.take(i + 1 - from);
            assert(upto.drop_last() =~= table.take(i - from));
            assert(upto.last() == all@[i as int]@);
        }
        if let Some(name) = word_two(all[i]) {
            found.insert(text_of(name));
        }
        i += 1;
    }
    assert(table.take(i - from) =~= table);
    found
}

impl Tools {
    /// What the build was compiled with, by what ffmpeg printed: `None` when it
    /// could not be run. See [`Self::can_encode`] for usability.
    pub fn encoders(stdout: Option<&[u8]>) -> (r: EncoderSet)
        ensures
            match stdout {
                Some(bytes) => r@ == encoders_in(lossy_text(bytes@)) && (all_ascii(bytes@)
                    ==> lossy_text(bytes@) == ascii_text(bytes@)),
                None => r@ == Set::<Seq<char>>::empty(),
            },
    {
        match stdout {
            Some(bytes) => {
                let text: String = decode(bytes);
                parse_encoders(text.as_str())
            },
            None => EncoderSet::new(),
        }
    }

    /// Filter `candidates` down to the encoders this machine can really use.
    /// Only what is built in is tried.
    pub fn usable_encoders<T: Fn(&str) -> bool>(
        candidates: &[&str],
        built_in: &EncoderSet,
        can_encode: T,
    ) -> (r: EncoderSet)
        requires
            forall|name: &str|
                built_in@.contains(name@) ==> #[trigger] call_requires(can_encode, (name,)),
        ensures
            forall|name: Seq<char>| #[trigger]
                r@.contains(name) ==> built_in@.contains(name) && answered(can_encode, name, true)
                    && exists|i: int| 0 <= i < candidates@.len() && (#[trigger] candidates@[i])@
                    == name,
            forall|i: int|
                0 <= i < candidates@.len() && built_in@.contains((#[trigger] candidates@[i])@)
                    ==> r@.contains(candidates@[i]@) || answered(
                    can_encode,
                    candidates@[i]@,
                    false,
                ),
    {
        let mut usable: EncoderSet = EncoderSet::new();
        let mut i: usize = 0;
        while i < candidates.len()
            invariant
                i <= candidates@.len(),
                forall|name: &str|
                    built_in@.contains(name@) ==> #[trigger] call_requires(can_encode, (name,)),
                forall|name: Seq<char>| #[trigger]
                    usable@.contains(name) ==> built_in@.contains(name) && answered(
                        can_encode,
                        name,
                        true,
                    ) && exists|k: int|
                        0 <= k < candidates@.len() && (#[trigger] candidates@[k])@ == name,
                forall|k: int|
                    0 <= k < i && built_in@.contains((#[trigger] candidates@[k])@)
                        ==> usable@.contains(candidates@[k]@) || answered(
                        can_encode,
                        candidates@[k]@,
                        false,
                    ),
            decreases candidates@.len() - i,
        {
            let name: &str = candidates[i];
            if built_in.contains(name) {
                if can_encode(name) {
                    assert(answered(can_encode, name@, true));
                    assert(candidates@[i as int]@ == name@);
                    usable.insert(name.to_string());
                } else {
                    assert(answered(can_encode, name@, false));
                }
            }
            i += 1;
        }
        usable
    }
}

// ---- keyframes ----------------------------------------------------------------

/// The time of a row, in nanoseconds, if it is a keyframe's and known.
pub open spec fn keyframe_in(line: Seq<char>) -> Option<i128> {
    let fields = pieces(trimmed(line), ',', 0);
    if fields.len() < 2 || trimmed(fields[1]).len() == 0 || trimmed(fields[1])[0] != 'K' {
        None
    } else {
        match real_number(trimmed(fields[0])) {
            Some(Real::Finite(t)) if t >= 0 => Some(t),
            _ => None,
        }
    }
}

/// The times of the keyframes that a table lists.
pub open spec fn keyframes_in(csv: Seq<char>) -> Set<i128> {
    Set::new(
        |t: i128|
            exists|k: int|
                0 <= k < lines_from(csv, 0).len() && keyframe_in(
                    #[trigger] lines_from(csv, 0)[k],
                ) == Some(t),
    )
}

pub open spec fn ascending(times: Seq<i128>) -> bool {
    forall|i: int, j: int| 0 <= i < j < times.len() ==> times[i] < times[j]
}

fn keyframe_of(line: &[char]) -> (r: Option<i128>)
    ensures
        r == keyframe_in(line@),
{
    let fields: Vec<&[char]> = split(trim(line), ',');
    assert(contents(fields@).len() == fields@.len());
    if fields.len() < 2 {
        return None;
    }
    assert(contents(fields@)[0] == fields@[0]@);
    assert(contents(fields@)[1] == fields@[1]@);
    let time = trim(fields[0]);
    let flags = trim(fields[1]);
    if flags.len() == 0 || flags[0] != 'K' {
        return None;
    }
    match parse_real(time) {
        Some(Real::Finite(t)) => {
            if t >= 0 {
                Some(t)
            } else {
                None
            }
        },
        _ => None,
    }
}

fn put_time(times: &mut Vec<i128>, t: i128)
    requires
        ascending(old(times)@),
    ensures
        ascending(final(times)@),
        final(times)@.to_set() == old(times)@.to_set().insert(t),
{
    let mut low: usize = 0;
    let mut high: usize = times.len();
    while low < high
        invariant
            low <= high <= times@.len(),
            times@ == old(times)@,
            ascending(times@),
            forall|i: int| 0 <= i < low ==> #[trigger] times@[i] < t,
            forall|i: int| high <= i < times@.len() ==> t <= #[trigger] times@[i],
        decreases high - low,
    {
        let mid: usize = low + (high - low) / 2;
        if times[mid] < t {
            low = mid + 1;
        } else {
            high = mid;
        }
    }
    if low < times.len() && times[low] == t {
        assert(times@.to_set().contains(t)) by {
            assert(times@[low as int] == t);
        }
        assert(times@.to_set() =~= old(times)@.to_set().insert(t));
        return;
    }
    times.insert(low, t);
    proof {
        let was = old(times)@;
        let now = times@;
        assert forall|x: i128| #[trigger] now.to_set().contains(x) <==> was.to_set().insert(
            t,
        ).contains(x) by {
            if now.contains(x) {
                let i = choose|i: int| 0 <= i < now.len() && now[i] == x;
                if i < low {
                    assert(was[i] == x);
                } else if i > low {
                    assert(was[i - 1] == x);
                }
            }
            if was.contains(x) {
                let i = choose|i: int| 0 <= i < was.len() && was[i] == x;
                if i < low {
                    assert(now[i] == x);
                } else {
                    assert(now[i + 1] == x);
                }
            }
            if x == t {
                assert(now[low as int] == x);
            }
        }
        assert(now.to_set() =~= was.to_set().insert(t));
    }
}

/// Extract keyframe timestamps from ffprobe's `pts_time,flags` CSV.
///
/// A packet is a keyframe when its flags begin with `K`. Rows with an
/// unavailable timestamp are skipped rather than guessed at. In ascending order,
/// each once, in nanoseconds.
pub fn parse_keyframes(csv: &str) -> (r: Vec<i128>)
    ensures
        ascending(r@),
        r@.to_set() == keyframes_in(csv@),
{
    let cs: Vec<char> = chars_of(csv);
    let all: Vec<&[char]> = lines(cs.as_slice());
    let ghost ls = lines_from(csv@, 0);
    let mut times: Vec<i128> = Vec::new();
    let mut i: usize = 0;
    assert(times@.to_set() =~= Set::<i128>::empty());
    while i < all.len()
        invariant
            i <= all@.len(),
            contents(all@) == ls,
            ascending(times@),
            forall|t: i128| #[trigger]
                times@.to_set().contains(t) <==> exists|k: int|
                    0 <= k < i && keyframe_in(#[trigger] ls[k]) == Some(t),
        decreases all@.len() - i,
    {
        assert(ls[i as int] == all@[i as int]@);
        let ghost before = times@.to_set();
        if let Some(t) = keyframe_of(all[i]) {
            put_time(&mut times, t);
            assert(keyframe_in(ls[i as int]) == Some(t));
        }
        proof {
            assert forall|t: i128| #[trigger] times@.to_set().contains(t) <==> exists|k: int|
                0 <= k < i + 1 && keyframe_in(#[trigger] ls[k]) == Some(t) by {
                if before.contains(t) {
                    let k = choose|k: int| 0 <= k < i && keyframe_in(#[trigger] ls[k]) == Some(t);
                    assert(keyframe_in(ls[k]) == Some(t));
                }
                if exists|k: int| 0 <= k < i + 1 && keyframe_in(#[trigger] ls[k]) == Some(t) {
                    let k = choose|k: int|
                        0 <= k < i + 1 && keyframe_in(#[trigger] ls[k]) == Some(t);
                    if k < i {
                        assert(before.contains(t));
                    }
                }
            }
        }
        i += 1;
    }
    assert(times@.to_set() =~= keyframes_in(csv@));
    times
}

/// How a probe ended.
#[derive(Debug)]
pub enum ProbeOutput {
    /// It could not be run.
    NotRun,
    /// It failed, with this on its stderr.
    Failed { stderr: Vec<u8> },
    /// It printed this.
    Printed { stdout: Vec<u8> },
}

/// Why there are no keyframes.
#[derive(Debug)]
pub enum ProbeError {
    NotRun,
    /// In ffprobe's own words.
    Failed { reason: String },
}

impl ProbeError {
    pub open spec fn text(self) -> Seq<char> {
        match self {
            ProbeError::NotRun => "could not run ffprobe"@,
            ProbeError::Failed { reason } => "ffprobe failed: "@ + reason@,
        }
    }

    pub fn message(&self) -> (r: String)
        ensures
            r@ == self.text(),
    {
        match self {
            ProbeError::NotRun => "could not run ffprobe".to_string(),
            ProbeError::Failed { reason } => {
                let mut r: String = "ffprobe failed: ".to_string();
                r.append(reason.as_str());
                r
            },
        }
    }
}

impl Tools {
    /// Keyframe timestamps in the probed window, in nanoseconds.
    pub fn keyframes_near(output: &ProbeOutput) -> (r: Result<Vec<i128>, ProbeError>)
        ensures
            match output {
                ProbeOutput::NotRun => r matches Err(ProbeError::NotRun),
                ProbeOutput::Failed { stderr } => r matches Err(ProbeError::Failed { reason })
                    && reason@ == trimmed(lossy_text(stderr@)),
                ProbeOutput::Printed { stdout } => r matches Ok(times) && ascending(times@)
                    && times@.to_set() == keyframes_in(lossy_text(stdout@)) && (all_ascii(stdout@)
                    ==> lossy_text(stdout@) == ascii_text(stdout@)),
            },
    {
        match output {
            ProbeOutput::NotRun => Err(ProbeError::NotRun),
            ProbeOutput::Failed { stderr } => {
                let text: String = decode(stderr.as_slice());
                let cs: Vec<char> = chars_of(text.as_str());
                Err(ProbeError::Failed { reason: text_of(trim(cs.as_slice())) })
            },
            ProbeOutput::Printed { stdout } => {
                let text: String = decode(stdout.as_slice());
                Ok(parse_keyframes(text.as_str()))
            },
        }
    }
}

/// Whether a keyframe stands at or before the mark.
pub open spec fn reached(keyframe: i128, mark: Real) -> bool {
    at_most(Real::Finite(keyframe), mark)
}

/// The last of the keyframes at or before the mark.
pub open spec fn last_reached(keyframes: Seq<i128>, mark: Real) -> Option<i128>
    decreases keyframes.len(),
{
    if keyframes.len() == 0 {
        None
    } else if reached(keyframes.last(), mark) {
        Some(keyframes.last())
    } else {
        last_reached(keyframes.drop_last(), mark)
    }
}

/// The keyframe a stream copy would actually start from.
///
/// Returns the latest keyframe at or before `mark`. `None` means the window did
/// not contain one, in which case the UI should say nothing rather than show a
/// position it cannot justify.
pub fn snap_target(keyframes: &[i128], mark: Real) -> (r: Option<i128>)
    ensures
        r == last_reached(keyframes@, mark),
        r matches Some(k) ==> at_most(Real::Finite(k), mark),
{
    let mut i: usize = keyframes.len();
    assert(keyframes@.take(i as int) =~= keyframes@);
    while i > 0
        invariant
            i <= keyframes@.len(),
            last_reached(keyframes@, mark) == last_reached(keyframes@.take(i as int), mark),
        decreases i,
    {
        assert(keyframes@.take(i as int).last() == keyframes@[i - 1]);
        assert(keyframes@.take(i as int).drop_last() =~= keyframes@.take(i - 1));
        if Real::Finite(keyframes[i - 1]).le(&mark) {
            return Some(keyframes[i - 1]);
        }
        i -= 1;
    }
    None
}

/// `found` is the latest of the keyframes at or before the mark, or there is none.
pub open spec fn is_latest(found: Option<i128>, keyframes: Set<i128>, mark: Real) -> bool {
    match found {
        Some(k) => keyframes.contains(k) && reached(k, mark) && forall|j: i128| #[trigger]
            keyframes.contains(j) && reached(j, mark) ==> j <= k,
        None => forall|j: i128| #[trigger] keyframes.contains(j) ==> !reached(j, mark),
    }
}

/// A cut snaps to the latest keyframe at or before the mark. It never jumps
/// forward: landing after the mark would silently drop wanted footage.
pub proof fn a_snap_is_the_latest_keyframe(keyframes: Seq<i128>, mark: Real)
    requires
        ascending(keyframes),
    ensures
        is_latest(last_reached(keyframes, mark), keyframes.to_set(), mark),
        match (last_reached(keyframes, mark), mark) {
            (Some(k), Real::Finite(m)) => k <= m,
            _ => true,
        },
    decreases keyframes.len(),
{
    if keyframes.len() > 0 {
        let last = keyframes.last();
        let rest = keyframes.drop_last();
        assert(keyframes.to_set().contains(last)) by {
            assert(keyframes[keyframes.len() - 1] == last);
        }
        assert forall|j: i128| #[trigger] keyframes.to_set().contains(j) implies j == last
            || j < last && rest.to_set().contains(j) by {
            let i = choose|i: int| 0 <= i < keyframes.len() && keyframes[i] == j;
            if i < rest.len() {
                assert(rest[i] == j);
                assert(keyframes[i] < keyframes[keyframes.len() - 1]);
            }
        }
        a_snap_is_the_latest_keyframe(rest, mark);
        if let Some(k) = last_reached(rest, mark) {
            assert(keyframes.to_set().contains(k)) by {
                let i = choose|i: int| 0 <= i < rest.len() && rest[i] == k;
                assert(keyframes[i] == k);
            }
        }
    }
}

#[derive(Debug, Clone, PartialEq, Eq)]
pub struct SnapResult {
    pub file: String,
    pub mark: i128,
    pub snapped: Option<i128>,
}

/// Keyframe probes, coalescing rapid requests.
///
/// Dragging a mark can produce a request per frame; only the most recent one
/// matters, so queued requests are collapsed. What that promises over many requests
/// is [`the_newest_request_is_never_lost`](crate::queue::the_newest_request_is_never_lost).
#[derive(Debug)]
pub struct SnapProbe {
    pending: Option<(String, i128)>,
}

impl SnapProbe {
    /// The file and mark to probe next, if there is one.
    pub closed spec fn waiting(&self) -> Option<(Seq<char>, i128)> {
        match self.pending {
            Some((file, mark)) => Some((file@, mark)),
            None => None,
        }
    }

    pub fn new() -> (r: Self)
        ensures
            r.waiting() is None,
    {
        SnapProbe { pending: None }
    }

    /// Ask for a probe. It takes the place of any that still waits.
    pub fn request(&mut self, file: String, mark: i128)
        ensures
            final(self).waiting() == stepped(old(self).waiting(), Step::Asked((file@, mark))).0,
            final(self).waiting() == Some((file@, mark)),
    {
        self.pending = Some((file, mark));
    }

    /// What to probe now. The request is then served, and nothing waits until the
    /// next one.
    pub fn next(&mut self) -> (r: Option<(String, i128)>)
        ensures
            ({
                let (left, taken) = stepped(old(self).waiting(), Step::Taken);
                &&& final(self).waiting() == left
                &&& match r {
                    Some((file, mark)) => taken == Some((file@, mark)),
                    None => taken is None,
                }
            }),
            final(self).waiting() is None,
    {
        self.pending.take()
    }

    /// The answer to a request. A failed probe tells nothing.
    pub fn answer(file: String, mark: i128, output: &ProbeOutput) -> (r: SnapResult)
        ensures
            r.file@ == file@,
            r.mark == mark,
            match output {
                ProbeOutput::Printed { stdout } => is_latest(
                    r.snapped,
                    keyframes_in(lossy_text(stdout@)),
                    Real::Finite(mark),
                ) && (all_ascii(stdout@) ==> lossy_text(stdout@) == ascii_text(stdout@)),
                _ => r.snapped is None,
            },
    {
        let snapped: Option<i128> = match Tools::keyframes_near(output) {
            Ok(times) => {
                proof {
                    a_snap_is_the_latest_keyframe(times@, Real::Finite(mark));
                }
                snap_target(times.as_slice(), Real::Finite(mark))
            },
            Err(_) => None,
        };
        SnapResult { file, mark, snapped }
    }
}

// ---- laws ---------------------------------------------------------------------

/// A row of the packet list: a time, a comma, and what follows.
pub open spec fn row(time: Seq<char>, flags: Seq<char>) -> Seq<char> {
    time.push(',') + flags
}

/// A row counts by what is written in it, and by nothing else: a packet whose flags
/// begin with `K` is a keyframe at its time, whenever that is, as long as it is a time
/// of the file; no other packet is one, and neither is one without a time.
pub proof fn a_keyframe_is_a_row_flagged_k(time: Seq<char>, flags: Seq<char>)
    requires
        time.len() > 0,
        !time.contains(','),
        !is_space(time[0]),
        !is_space(time.last()),
        flags.len() > 0,
        !is_space(flags[0]),
        !is_space(flags.last()),
    ensures
        flags[0] != 'K' ==> keyframe_in(row(time, flags)) is None,
        flags[0] == 'K' ==> match real_number(time) {
            Some(Real::Finite(t)) => keyframe_in(row(time, flags)) == (if t >= 0 {
                Some(t)
            } else {
                None
            }),
            _ => keyframe_in(row(time, flags)) is None,
        },
        keyframe_in(time) is None,
{
    let line = row(time, flags);
    assert(line[0] == time[0]);
    assert(line.last() == flags.last());
    trimmed_already(line);
    trimmed_already(time);
    pieces_of_parts(time, ',', flags);
    pieces_of_one(time, ',');
    let fields = pieces(line, ',', 0);
    let rest = pieces(flags, ',', 0);
    assert(fields[0] == time);
    assert(fields[1] == rest[0]);
    first_at_finds(flags, ',', 0);
    if flags[0] == ',' {
        assert(rest[0].len() == 0);
        assert(trimmed(rest[0]).len() == 0);
    } else {
        assert(rest[0].len() > 0 && rest[0][0] == flags[0]);
        trimming_keeps_the_first(rest[0]);
    }
}

/// A keyframe's time is read to the microsecond, however far into the file it is.
pub proof fn a_keyframe_is_read_at_its_time(secs: nat, micros: nat, flags: Seq<char>)
    requires
        micros < 1_000_000,
        secs * 1_000_000_000 + micros * 1000 <= i128::MAX,
        flags.len() > 0,
        flags[0] == 'K',
        !is_space(flags.last()),
    ensures
        keyframe_in(row(digits(secs).push('.') + padded(micros, 6), flags)) == Some(
            (secs * 1_000_000_000 + micros * 1000) as i128,
        ),
{
    let time = digits(secs).push('.') + padded(micros, 6);
    reveal_with_fuel(pow10, 7);
    assert(pow10(6) == 1_000_000 && pow10(3) == 1000);
    decimals_are_worth(secs, micros, 6);
    assert((secs * 1_000_000 + micros) * 1000 == secs * 1_000_000_000 + micros * 1000);
    digits_read_back(secs);
    padded_reads_back(micros, 6);
    assert(is_digit(digits(secs)[0]));
    assert(time[0] == digits(secs)[0]);
    assert(time.last() == padded(micros, 6).last());
    assert(is_digit(padded(micros, 6)[padded(micros, 6).len() - 1]));
    assert(!time.contains(',')) by {
        assert forall|j: int| 0 <= j < time.len() implies time[j] != ',' by {
            if j < digits(secs).len() {
                assert(is_digit(digits(secs)[j]));
                assert(time[j] == digits(secs)[j]);
            } else if j > digits(secs).len() {
                let k = j - digits(secs).len() - 1;
                assert(is_digit(padded(micros, 6)[k]));
                assert(time[j] == padded(micros, 6)[k]);
            }
        }
    }
    a_keyframe_is_a_row_flagged_k(time, flags);
}

/// A list is read row by row: its keyframes are those of its first row and those of
/// the others.
pub proof fn a_list_is_read_row_by_row(first: Seq<char>, rest: Seq<char>)
    requires
        !first.contains('\n'),
        first.len() == 0 || first.last() != '\r',
    ensures
        forall|t: i128| #[trigger]
            keyframes_in(first.push('\n') + rest).contains(t) <==> keyframe_in(first) == Some(t)
                || keyframes_in(rest).contains(t),
        forall|t: i128| !#[trigger] keyframes_in(Seq::empty()).contains(t),
{
    a_text_is_read_line_by_line(first, rest);
    let all = lines_from(first.push('\n') + rest, 0);
    let others = lines_from(rest, 0);
    assert(all == seq![first] + others);
    assert forall|t: i128| #[trigger]
        keyframes_in(first.push('\n') + rest).contains(t) <==> keyframe_in(first) == Some(t)
            || keyframes_in(rest).contains(t) by {
        if keyframe_in(first) == Some(t) {
            assert(keyframe_in(all[0]) == Some(t));
        }
        if keyframes_in(rest).contains(t) {
            let k = choose|k: int|
                0 <= k < others.len() && keyframe_in(#[trigger] others[k]) == Some(t);
            assert(all[k + 1] == others[k]);
            assert(keyframe_in(all[k + 1]) == Some(t));
        }
        if keyframes_in(first.push('\n') + rest).contains(t) {
            let k = choose|k: int| 0 <= k < all.len() && keyframe_in(#[trigger] all[k]) == Some(t);
            if k > 0 {
                assert(others[k - 1] == all[k]);
                assert(keyframe_in(others[k - 1]) == Some(t));
            }
        }
    }
}

/// Where a stream copy starts: at the latest of the keyframes that is not after the
/// mark. Where every keyframe is after it, nothing is said.
pub proof fn a_copy_starts_at_or_before_its_mark(keyframes: Seq<i128>, mark: i128)
    requires
        ascending(keyframes),
    ensures
        match last_reached(keyframes, Real::Finite(mark)) {
            Some(k) => {
                &&& k <= mark
                &&& keyframes.contains(k)
                &&& forall|i: int|
                    0 <= i < keyframes.len() && #[trigger] keyframes[i] <= mark ==> keyframes[i] <= k
            },
            None => forall|i: int| 0 <= i < keyframes.len() ==> #[trigger] keyframes[i] > mark,
        },
        last_reached(keyframes, Real::PosInf) == (if keyframes.len() == 0 {
            None
        } else {
            Some(keyframes.last())
        }),
        last_reached(keyframes, Real::NaN) is None,
{
    a_snap_is_the_latest_keyframe(keyframes, Real::Finite(mark));
    nothing_is_at_no_number(keyframes);
    let set = keyframes.to_set();
    assert forall|i: int| 0 <= i < keyframes.len() implies set.contains(#[trigger] keyframes[i]) by {}
}

proof fn nothing_is_at_no_number(keyframes: Seq<i128>)
    ensures
        last_reached(keyframes, Real::NaN) is None,
    decreases keyframes.len(),
{
    if keyframes.len() > 0 {
        nothing_is_at_no_number(keyframes.drop_last());
    }
}

/// The probe looks a minute back from the mark, but not before the start, and two
/// seconds ahead of it: the window always holds the mark.
pub proof fn the_probe_looks_around_the_mark(mark: i128)
    requires
        0 <= mark <= i128::MAX - 2_000_000_000,
    ensures
        probe_start(Real::Finite(mark)) matches Real::Finite(from) && probe_end(Real::Finite(mark))
            matches Real::Finite(to) && {
            &&& 0 <= from <= mark < to
            &&& to - mark == 2_000_000_000
            &&& mark >= 60_000_000_000 ==> mark - from == 60_000_000_000
            &&& mark < 60_000_000_000 ==> from == 0
        },
        interval_text(Real::Finite(mark)) == real_text(
            probe_start(Real::Finite(mark)),
            3,
            false,
        ).push('%') + real_text(probe_end(Real::Finite(mark)), 3, false),
{
}

/// The table of encoders begins below its rule; what stands above it is no encoder.
pub proof fn the_table_begins_below_the_rule(
    head: Seq<Seq<char>>,
    rule: Seq<char>,
    table: Seq<Seq<char>>,
)
    requires
        forall|i: int| 0 <= i < head.len() ==> !begins_with(#[trigger] head[i], " -----"@),
        rule.len() >= 6,
        rule.take(6) == seq![' ', '-', '-', '-', '-', '-'],
    ensures
        rows(head + seq![rule] + table) == table,
    decreases head.len(),
{
    let all = head + seq![rule] + table;
    reveal_strlit(" -----");
    assert(" -----"@ =~= seq![' ', '-', '-', '-', '-', '-']);
    if head.len() == 0 {
        assert(all[0] == rule);
        assert(begins_with(rule, " -----"@));
        assert(all.skip(1) =~= table);
    } else {
        assert(all[0] == head[0]);
        assert(all.skip(1) =~= head.skip(1) + seq![rule] + table);
        the_table_begins_below_the_rule(head.skip(1), rule, table);
    }
}

/// An encoder is listed exactly when its name is the second word of a row.
pub proof fn an_encoder_is_the_second_word_of_a_row(table: Seq<Seq<char>>, name: Seq<char>)
    ensures
        names_in(table).contains(name) <==> exists|i: int|
            0 <= i < table.len() && second_word(#[trigger] table[i]) == Some(name),
    decreases table.len(),
{
    if table.len() > 0 {
        let rest = table.drop_last();
        an_encoder_is_the_second_word_of_a_row(rest, name);
        if names_in(rest).contains(name) {
            let i = choose|i: int| 0 <= i < rest.len() && second_word(#[trigger] rest[i]) == Some(name);
            assert(second_word(table[i]) == Some(name));
        }
        if second_word(table.last()) == Some(name) {
            assert(second_word(table[table.len() - 1]) == Some(name));
        }
        if exists|i: int| 0 <= i < table.len() && second_word(#[trigger] table[i]) == Some(name) {
            let i = choose|i: int|
                0 <= i < table.len() && second_word(#[trigger] table[i]) == Some(name);
            if i < rest.len() {
                assert(second_word(rest[i]) == Some(name));
            }
        }
    }
}

/// Both tools or none: a search succeeds exactly when it came upon both, and then
/// gives them where they were found.
pub proof fn tools_come_as_a_pair(search: Search, r: Result<Tools, ToolsError>)
    requires
        search.comes_to(r),
    ensures
        match search {
            Search::InFolder(f) => {
                &&& r is Ok <==> f.has_ffmpeg && f.has_ffprobe
                &&& r matches Ok(t) ==> t.ffmpeg@ == f.ffmpeg@ && t.ffprobe@ == f.ffprobe@
            },
            Search::OnPath { ffmpeg, ffprobe } => {
                &&& r is Ok <==> ffmpeg is Some && ffprobe is Some
                &&& r matches Ok(t) ==> t.ffmpeg@ == ffmpeg->0@ && t.ffprobe@ == ffprobe->0@
                &&& r matches Err(ToolsError::NoFfprobe) ==> ffmpeg is Some
                &&& r matches Err(ToolsError::NoFfmpeg) ==> ffmpeg is None
            },
        },
{
}

/// A program has its own name, and an extension on Windows.
pub proof fn a_program_has_an_extension_on_windows(name: Seq<char>)
    ensures
        program_name(name, false) == name,
        program_name(name, true) == name + ".exe"@,
{
}

/// The probe asks for the times and flags of the video packets of this very file, within
/// its window.
pub proof fn the_probe_asks_about_the_file(file: Seq<char>, around: Real)
    ensures
        ({
            let a = probe_arguments(file, around);
            &&& a.len() == 12
            &&& a.last() == file
            &&& a[2] == "-select_streams"@ && a[3] == "v:0"@
            &&& a[5] == "-show_entries"@ && a[6] == "packet=pts_time,flags"@
            &&& a[7] == "-read_intervals"@ && a[8] == interval_text(around)
            &&& a[9] == "-of"@ && a[10] == "csv=p=0"@
        }),
{
}

/// A trial encodes one frame with the encoder in question.
pub proof fn a_trial_is_of_the_encoder_in_question(encoder: Seq<char>)
    ensures
        ({
            let a = trial_arguments(encoder);
            &&& a.len() == 14
            &&& a[7] == "-c:v"@ && a[8] == encoder
            &&& a[9] == "-frames:v"@ && a[10] == "1"@
        }),
{
}

/// Why there are no tools is said with the path it is about.
pub proof fn what_is_missing_is_said(path: String)
    ensures
        (ToolsError::NoFolder { path }).text() == path@ + " has no parent directory"@,
        (ToolsError::NoPair { dir: path }).text() == "no ffmpeg/ffprobe pair in "@ + path@
            + " — check the configured path"@,
        ToolsError::NoFfmpeg.text() == "ffmpeg is not on PATH"@,
        ToolsError::NoFfprobe.text() == "ffprobe is not on PATH"@,
        (ProbeError::Failed { reason: path }).text() == "ffprobe failed: "@ + path@,
        ProbeError::NotRun.text() == "could not run ffprobe"@,
{
}

/// What ffmpeg prints is read from the rule on: a line above it is passed over, and below
/// it every line names an encoder by its second word.
pub proof fn encoders_are_read_from_the_rule_on(first: Seq<char>, rest: Seq<char>)
    requires
        !first.contains('\n'),
        first.len() == 0 || first.last() != '\r',
    ensures
        ({
            let dashes = seq![' ', '-', '-', '-', '-', '-'];
            let is_rule = first.len() >= 6 && first.take(6) == dashes;
            let all = encoders_in(first.push('\n') + rest);
            &&& !is_rule ==> all == encoders_in(rest)
            &&& is_rule ==> forall|name: Seq<char>| #[trigger]
                all.contains(name) <==> exists|i: int|
                    0 <= i < lines_from(rest, 0).len() && second_word(
                        #[trigger] lines_from(rest, 0)[i],
                    ) == Some(name)
        }),
        encoders_in(Seq::empty()) == Set::<Seq<char>>::empty(),
{
    a_text_is_read_line_by_line(first, rest);
    let all = lines_from(first.push('\n') + rest, 0);
    let others = lines_from(rest, 0);
    assert(all == seq![first] + others);
    assert(all.skip(1) =~= others);
    assert(all[0] == first);
    reveal_strlit(" -----");
    assert(" -----"@ =~= seq![' ', '-', '-', '-', '-', '-']);
    assert forall|name: Seq<char>| #[trigger]
        names_in(others).contains(name) <==> exists|i: int|
            0 <= i < others.len() && second_word(#[trigger] others[i]) == Some(name) by {
        an_encoder_is_the_second_word_of_a_row(others, name);
    }
    assert(rows(Seq::<Seq<char>>::empty()) =~= Seq::<Seq<char>>::empty());
}

/// Blanks around a row's time, in front of its flags and around the whole row do not
/// count.
pub proof fn blanks_in_a_row_do_not_count(
    a: Seq<char>,
    time: Seq<char>,
    b: Seq<char>,
    c: Seq<char>,
    flags: Seq<char>,
    d: Seq<char>,
)
    requires
        time.len() > 0,
        !time.contains(','),
        !is_space(time[0]),
        !is_space(time.last()),
        flags.len() > 0,
        !is_space(flags[0]),
        !is_space(flags.last()),
        forall|i: int| 0 <= i < a.len() ==> is_space(#[trigger] a[i]),
        forall|i: int| 0 <= i < b.len() ==> is_space(#[trigger] b[i]),
        forall|i: int| 0 <= i < c.len() ==> is_space(#[trigger] c[i]),
        forall|i: int| 0 <= i < d.len() ==> is_space(#[trigger] d[i]),
    ensures
        keyframe_in(a + row(time + b, c + flags) + d) == keyframe_in(row(time, flags)),
{
    let inner = row(time + b, c + flags);
    let plain = row(time, flags);
    assert(inner[0] == time[0] && inner.last() == flags.last());
    assert(plain[0] == time[0] && plain.last() == flags.last());
    trimming_drops_blanks_alone(a, inner, d);
    trimmed_already(inner);
    trimmed_already(plain);
    assert(!(time + b).contains(',')) by {
        assert forall|j: int| 0 <= j < (time + b).len() implies (time + b)[j] != ',' by {
            if j < time.len() {
                assert((time + b)[j] == time[j]);
            } else {
                assert((time + b)[j] == b[j - time.len()]);
            }
        }
    }
    pieces_of_parts(time + b, ',', c + flags);
    pieces_of_parts(time, ',', flags);
    let fields = pieces(inner, ',', 0);
    let bare = pieces(plain, ',', 0);
    assert(fields[0] == time + b && bare[0] == time);
    let none = Seq::<char>::empty();
    trimming_drops_blanks_alone(none, time, b);
    assert(none + time + b =~= time + b);
    trimmed_already(time);
    assert(trimmed(fields[0]) == trimmed(bare[0]));
    assert(fields[1] == pieces(c + flags, ',', 0)[0]);
    assert(bare[1] == pieces(flags, ',', 0)[0]);
    first_at_finds(flags, ',', 0);
    first_at_finds(c + flags, ',', 0);
    let i = first_at(flags, ',', 0);
    let k = first_at(c + flags, ',', 0);
    assert(k == c.len() + i) by {
        assert forall|j: int| 0 <= j < c.len() + i implies (c + flags)[j] != ',' by {
            if j < c.len() {
                assert((c + flags)[j] == c[j]);
            } else {
                assert((c + flags)[j] == flags[j - c.len()]);
            }
        }
        if i < flags.len() {
            assert((c + flags)[c.len() + i] == flags[i]);
        }
    }
    let first = bare[1];
    assert(first =~= flags.take(i));
    assert(fields[1] =~= c + first);
    if first.len() > 0 {
        trimming_keeps_the_first(first);
        blanks_then_a_word(c, first);
    } else {
        trimming_drops_blanks_alone(c, first, none);
        assert(c + first + none =~= c + first);
        assert(trimmed(first) =~= first);
    }
}

proof fn blanks_then_a_word(blanks: Seq<char>, word: Seq<char>)
    requires
        forall|i: int| 0 <= i < blanks.len() ==> is_space(#[trigger] blanks[i]),
        word.len() > 0,
        !is_space(word[0]),
    ensures
        trimmed(blanks + word).len() > 0,
        trimmed(blanks + word)[0] == word[0],
    decreases word.len(),
{
    let none = Seq::<char>::empty();
    let n = last_unblank(word);
    let kept = word.take(n + 1);
    let rest = word.skip(n + 1);
    assert(kept[0] == word[0] && kept.last() == word[n]);
    assert forall|i: int| 0 <= i < rest.len() implies is_space(#[trigger] rest[i]) by {
        assert(rest[i] == word[n + 1 + i]);
    }
    trimming_drops_blanks_alone(blanks, kept, rest);
    assert(blanks + kept + rest =~= blanks + word);
}

proof fn last_unblank(word: Seq<char>) -> (n: int)
    requires
        word.len() > 0,
        !is_space(word[0]),
    ensures
        0 <= n < word.len(),
        !is_space(word[n]),
        forall|i: int| n < i < word.len() ==> is_space(#[trigger] word[i]),
    decreases word.len(),
{
    if is_space(word.last()) {
        let n = last_unblank(word.drop_last());
        assert forall|i: int| n < i < word.len() implies is_space(#[trigger] word[i]) by {
            if i < word.len() - 1 {
                assert(word.drop_last()[i] == word[i]);
            }
        }
        n
    } else {
        word.len() - 1
    }
}

/// Where the probe looks for a mark outside the file: from the start of the file on for
/// one before its start, and as far as a number goes, and no further, for one at the end
/// of all numbers.
pub proof fn the_probe_keeps_to_numbers(mark: i128)
    ensures
        mark < 60_000_000_000 ==> probe_start(Real::Finite(mark)) == Real::Finite(0),
        mark >= 60_000_000_000 ==> probe_start(Real::Finite(mark)) == Real::Finite(
            (mark - 60_000_000_000) as i128,
        ),
        mark <= i128::MAX - 2_000_000_000 ==> probe_end(Real::Finite(mark)) == Real::Finite(
            (mark + 2_000_000_000) as i128,
        ),
        mark > i128::MAX - 2_000_000_000 ==> probe_end(Real::Finite(mark)) == Real::PosInf,
        probe_start(Real::NaN) == Real::Finite(0) && probe_end(Real::NaN) == Real::NaN,
        probe_start(Real::NegInf) == Real::Finite(0) && probe_end(Real::NegInf) == Real::NegInf,
        probe_start(Real::PosInf) == Real::PosInf && probe_end(Real::PosInf) == Real::PosInf,
{
}

/// ffmpeg is asked for its encoders, and to say nothing else.
pub proof fn ffmpeg_is_asked_for_its_encoders()
    ensures
        encoders_arguments().len() == 4,
        encoders_arguments()[0] == "-hide_banner"@,
        encoders_arguments()[1] == "-loglevel"@,
        encoders_arguments()[2] == "error"@,
        encoders_arguments()[3] == "-encoders"@,
{
}

} // verus!
