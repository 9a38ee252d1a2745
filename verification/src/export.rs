//! Producing a clip: naming its file, and telling how the export went.
//!
//! The export itself runs as a child process so a decoder crash kills the export
//! rather than the app, cancellation is a plain kill, and the exact command stays
//! reproducible in a terminal.
//!
//! Failures surface ffmpeg's own diagnostics. A generic "export failed" is
//! useless; `Unknown encoder 'av1_nvenc'` tells you what to change.

use vstd::prelude::*;
use vstd::slice::slice_subrange;

use crate::encode::command::{arguments, command_line};
use crate::encode::progress::read_lines;
use crate::encode::{build_args, display_command, ExportRequest, Progress, ProgressParser};
use crate::media::Tools;
use crate::text::{
    all_ascii, all_digits, ascii_text, chars_of, digit, digits, digits_read_back, find_last,
    is_digit, is_space, last_before, last_before_finds, lossy_text, number, padded,
    padded_reads_back, parse_whole, push_digits, push_padded, space, text_of, texts, trim, trimmed,
    trimmed_start,
};

verus! {

// ---- the name -----------------------------------------------------------------

/// Characters that cannot appear in a filename.
pub open spec fn is_illegal(c: char) -> bool {
    c == '<' || c == '>' || c == ':' || c == '"' || c == '/' || c == '\\' || c == '|' || c == '?'
        || c == '*' || c < ' '
}

fn illegal(c: char) -> (r: bool)
    ensures
        r == is_illegal(c),
{
    c == '<' || c == '>' || c == ':' || c == '"' || c == '/' || c == '\\' || c == '|' || c == '?'
        || c == '*' || c < ' '
}

pub open spec fn cleaned(s: Seq<char>) -> Seq<char> {
    s.map_values(
        |c: char|
            if is_illegal(c) {
                '_'
            } else {
                c
            },
    )
}

/// `s` without the dots and white space it ends with.
pub open spec fn shorn(s: Seq<char>) -> Seq<char>
    decreases s.len(),
{
    if s.len() > 0 && (s.last() == '.' || is_space(s.last())) {
        shorn(s.drop_last())
    } else {
        s
    }
}

/// What is left of a name without white space in front, and without dots and white
/// space at the end.
pub open spec fn bare_name(s: Seq<char>) -> Seq<char> {
    shorn(trimmed_start(cleaned(s)))
}

pub open spec fn stem_text(s: Seq<char>) -> Seq<char> {
    if bare_name(s).len() == 0 {
        "clip"@
    } else {
        bare_name(s)
    }
}

/// Strip characters that cannot appear in a filename.
///
/// Applied to whatever the user typed, so a stray `/` or `:` produces a sane
/// name rather than a write to an unexpected directory.
pub fn sanitize_stem(input: &str) -> (r: String)
    ensures
        r@ == stem_text(input@),
        r@.last() != '.' && !is_space(r@.last()),
{
    let mut clean: Vec<char> = Vec::new();
    for c in it: input.chars()
        invariant
            clean@ == cleaned(input@.take(it.index())),
            it.seq() == input@,
    {
        if illegal(c) {
            clean.push('_');
        } else {
            clean.push(c);
        }
        assert(clean@ =~= cleaned(input@.take(it.index() + 1)));
    }
    assert(input@.take(input@.len() as int) =~= input@);
    let mut from: usize = 0;
    assert(clean@.skip(0) =~= clean@);
    while from < clean.len() && space(clean[from])
        invariant
            from <= clean@.len(),
            trimmed_start(clean@) == trimmed_start(clean@.skip(from as int)),
        decreases clean@.len() - from,
    {
        assert(clean@.skip(from as int).skip(1) =~= clean@.skip(from + 1));
        from += 1;
    }
    // Windows rejects trailing dots and spaces.
    let mut to: usize = clean.len();
    assert(clean@.subrange(from as int, to as int) =~= clean@.skip(from as int));
    while to > from && (clean[to - 1] == '.' || space(clean[to - 1]))
        invariant
            from <= to <= clean@.len(),
            bare_name(input@) == shorn(clean@.subrange(from as int, to as int)),
        decreases to,
    {
        assert(clean@.subrange(from as int, to as int).drop_last() =~= clean@.subrange(
            from as int,
            to - 1,
        ));
        to -= 1;
    }
    let bare = slice_subrange(clean.as_slice(), from, to);
    proof {
        a_stem_is_a_legal_name(input@);
    }
    if bare.len() == 0 {
        "clip".to_string()
    } else {
        text_of(bare)
    }
}

/// A stem's root and counter. A trailing `_NNN` counts; without one, the whole
/// stem is the root, and the counter stands at zero.
pub open spec fn counted(s: Seq<char>) -> (Seq<char>, nat) {
    let i = last_before(s, '_', s.len() as int);
    let tail = s.skip(i + 1);
    if i >= 0 && tail.len() > 0 && all_digits(tail) && number(tail) <= u32::MAX {
        (s.take(i), number(tail))
    } else {
        (s, 0)
    }
}

pub fn split_counter(stem: &str) -> (r: (String, u32))
    ensures
        r.0@ == counted(stem@).0,
        r.1 == counted(stem@).1,
{
    let s: Vec<char> = chars_of(stem);
    let at: usize = match find_last(s.as_slice(), '_') {
        Some(at) => at,
        None => {
            return (stem.to_string(), 0);
        },
    };
    let len: usize = s.len();
    let tail = slice_subrange(s.as_slice(), at + 1, len);
    assert(tail@ =~= s@.skip(at + 1));
    if tail.len() == 0 || !digit(tail[0]) {
        return (stem.to_string(), 0);
    }
    // A leading digit rules out the sign that a number may have otherwise.
    match parse_whole(tail, u32::MAX as u64) {
        Some(n) => {
            assert(s@.subrange(0, at as int) =~= s@.take(at as int));
            (text_of(slice_subrange(s.as_slice(), 0, at)), n as u32)
        },
        None => (stem.to_string(), 0),
    }
}

/// `stem.ext`
pub open spec fn plain_name(stem: Seq<char>, ext: Seq<char>) -> Seq<char> {
    stem.push('.') + ext
}

/// `root_NNN.ext`
pub open spec fn counted_name(root: Seq<char>, n: nat, ext: Seq<char>) -> Seq<char> {
    root.push('_') + padded(n, 3).push('.') + ext
}

/// `taken` was asked about the name, and gave this answer.
pub open spec fn answered<T: Fn(&str) -> bool>(taken: T, name: Seq<char>, answer: bool) -> bool {
    exists|text: &str| text@ == name && #[trigger] call_ensures(taken, (text,), answer)
}

/// The name is the one at `i`, not taken, and all before it are.
pub open spec fn is_first<T: Fn(&str) -> bool>(
    i: int,
    name: Seq<char>,
    names: Seq<Seq<char>>,
    taken: T,
) -> bool {
    &&& 0 <= i < names.len()
    &&& name == names[i]
    &&& answered(taken, names[i], false)
    &&& forall|j: int| 0 <= j < i ==> answered(taken, #[trigger] names[j], true)
}

/// The first of the names that is not taken; or none, and they all are.
pub open spec fn first_is<T: Fn(&str) -> bool>(
    r: Option<String>,
    names: Seq<Seq<char>>,
    taken: T,
) -> bool {
    match r {
        Some(name) => exists|i: int| #[trigger] is_first(i, name@, names, taken),
        None => forall|j: int| 0 <= j < names.len() ==> answered(taken, #[trigger] names[j], true),
    }
}

/// The highest number tried.
pub const LAST_COUNTER: u32 = 9999;

/// The highest number tried behind the process's own.
pub const LAST_RESORT: u32 = 999_999;

/// The names with the numbers after `start`, up to the highest.
pub open spec fn counted_names(root: Seq<char>, start: nat, last: nat, ext: Seq<char>) -> Seq<
    Seq<char>,
> {
    Seq::new(
        if start < last {
            (last - start) as nat
        } else {
            0
        },
        |i: int| counted_name(root, (start + 1 + i) as nat, ext),
    )
}

/// `root_ID`
pub open spec fn process_stem(root: Seq<char>, id: nat) -> Seq<char> {
    root.push('_') + digits(id)
}

/// The names that are tried, in order: as it was typed, then with a counter, then
/// with the number of the process, then with a counter behind that.
pub open spec fn candidates(stem: Seq<char>, ext: Seq<char>, id: nat) -> Seq<Seq<char>> {
    let (root, start) = counted(stem);
    let last_resort = process_stem(root, id);
    seq![plain_name(stem, ext)] + counted_names(root, start, LAST_COUNTER as nat, ext)
        + seq![plain_name(last_resort, ext)] + counted_names(
        last_resort,
        0,
        LAST_RESORT as nat,
        ext,
    )
}

fn plain_string(stem: &str, ext: &str) -> (r: String)
    ensures
        r@ == plain_name(stem@, ext@),
{
    let mut r: String = stem.to_string();
    r.push('.');
    r.append(ext);
    assert(r@ =~= plain_name(stem@, ext@));
    r
}

fn counted_string(root: &str, n: u32, ext: &str) -> (r: String)
    ensures
        r@ == counted_name(root@, n as nat, ext@),
{
    let mut r: String = root.to_string();
    r.push('_');
    push_padded(&mut r, n as u128, 3);
    r.push('.');
    r.append(ext);
    assert(r@ =~= counted_name(root@, n as nat, ext@));
    r
}

/// The first of the counted names that is not taken.
fn first_free<T: Fn(&str) -> bool>(
    root: &str,
    start: u32,
    last: u32,
    ext: &str,
    taken: &T,
) -> (r: Option<String>)
    requires
        last < u32::MAX,
        forall|name: &str| call_requires(*taken, (name,)),
    ensures
        first_is(r, counted_names(root@, start as nat, last as nat, ext@), *taken),
{
    let ghost names = counted_names(root@, start as nat, last as nat, ext@);
    if start < last {
        let mut n: u32 = start + 1;
        while n <= last
            invariant
                start < n <= last + 1,
                last < u32::MAX,
                names == counted_names(root@, start as nat, last as nat, ext@),
                forall|name: &str| call_requires(*taken, (name,)),
                forall|j: int|
                    0 <= j < n - start - 1 ==> answered(*taken, #[trigger] names[j], true),
            decreases last + 1 - n,
        {
            let candidate: String = counted_string(root, n, ext);
            assert(names[n - start - 1] == candidate@);
            if !taken(candidate.as_str()) {
                let r: Option<String> = Some(candidate);
                assert(is_first(n - start - 1, r->0@, names, *taken));
                return r;
            }
            assert(answered(*taken, names[n - start - 1], true));
            n += 1;
        }
    }
    None
}

/// The name of a file that does not exist yet, based on `stem`. `taken` tells
/// whether a name exists; `process_id` makes a name of last resort.
///
/// Overwriting silently is the one outcome to avoid: the source of a clip is
/// often the only copy of a moment. A trailing `_NNN` is treated as a counter
/// and advanced; otherwise one is appended. `None` means that every name tried is
/// taken.
pub fn unique_output_path<T: Fn(&str) -> bool>(
    stem: &str,
    ext: &str,
    process_id: u32,
    taken: T,
) -> (r: Option<String>)
    requires
        forall|name: &str| call_requires(taken, (name,)),
    ensures
        r matches Some(name) ==> answered(taken, name@, false),
        first_is(r, candidates(stem_text(stem@), ext@, process_id as nat), taken),
{
    let clean: String = sanitize_stem(stem);
    let ghost all = candidates(clean@, ext@, process_id as nat);
    let first: String = plain_string(clean.as_str(), ext);
    assert(all[0] == first@);
    if !taken(first.as_str()) {
        let r: Option<String> = Some(first);
        assert(is_first(0, r->0@, all, taken));
        return r;
    }
    assert(answered(taken, all[0], true));
    let (mut root, start): (String, u32) = split_counter(clean.as_str());
    let ghost counters = counted_names(root@, start as nat, LAST_COUNTER as nat, ext@);
    let ghost k = counters.len() as int;
    assert forall|j: int| 0 <= j < k implies counters[j] == #[trigger] all[j + 1] by {}
    if let Some(name) = first_free(root.as_str(), start, LAST_COUNTER, ext, &taken) {
        assert(answered(taken, name@, false));
        let ghost i = choose|i: int| is_first(i, name@, counters, taken);
        assert(is_first(i + 1, name@, all, taken)) by {
            assert forall|j: int| 0 <= j < i + 1 implies answered(taken, #[trigger] all[j], true) by {
                if j > 0 {
                    assert(answered(taken, counters[j - 1], true));
                }
            }
        }
        return Some(name);
    }
    // Pathological case: fall back to something unique rather than overwriting.
    root.push('_');
    push_digits(&mut root, process_id as u128);
    assert(root@ =~= process_stem(counted(clean@).0, process_id as nat));
    let own: String = plain_string(root.as_str(), ext);
    assert(all[k + 1] == own@);
    assert forall|j: int| 0 <= j < k + 1 implies answered(taken, #[trigger] all[j], true) by {
        if j > 0 {
            assert(answered(taken, counters[j - 1], true));
        }
    }
    if !taken(own.as_str()) {
        let r: Option<String> = Some(own);
        assert(is_first(k + 1, r->0@, all, taken));
        return r;
    }
    assert(answered(taken, all[k + 1], true));
    let ghost rest = counted_names(root@, 0, LAST_RESORT as nat, ext@);
    assert forall|j: int| 0 <= j < rest.len() implies rest[j] == #[trigger] all[j + k + 2] by {}
    match first_free(root.as_str(), 0, LAST_RESORT, ext, &taken) {
        Some(name) => {
            let ghost i = choose|i: int| is_first(i, name@, rest, taken);
            assert forall|j: int| 0 <= j < i + k + 2 implies answered(
                taken,
                #[trigger] all[j],
                true,
            ) by {
                if j > k + 1 {
                    assert(answered(taken, rest[j - k - 2], true));
                }
            }
            assert(is_first(i + k + 2, name@, all, taken));
            Some(name)
        },
        None => {
            assert forall|j: int| 0 <= j < all.len() implies answered(
                taken,
                #[trigger] all[j],
                true,
            ) by {
                if j > k + 1 {
                    assert(answered(taken, rest[j - k - 2], true));
                }
            }
            None
        },
    }
}

// ---- the outcome --------------------------------------------------------------

#[derive(Debug, Clone)]
pub enum ExportEvent {
    Progress(Progress),
    Finished { output: String },
    Failed { message: String },
    Cancelled,
}

/// How many lines of diagnostics are kept.
pub const STDERR_TAIL_LINES: usize = 40;

/// The last `n` of the lines.
pub open spec fn latest(lines: Seq<Seq<char>>, n: nat) -> Seq<Seq<char>> {
    if lines.len() > n {
        lines.skip(lines.len() - n)
    } else {
        lines
    }
}

/// The last line that is not blank.
pub open spec fn last_said(lines: Seq<Seq<char>>) -> Option<Seq<char>>
    decreases lines.len(),
{
    if lines.len() == 0 {
        None
    } else if trimmed(lines.last()).len() > 0 {
        Some(lines.last())
    } else {
        last_said(lines.drop_last())
    }
}

/// ffmpeg writes diagnostics to stderr continuously; only the tail is kept, so a
/// chatty encoder cannot exhaust memory on a long export.
#[derive(Debug)]
pub struct StderrTail {
    lines: Vec<String>,
}

impl View for StderrTail {
    type V = Seq<Seq<char>>;

    closed spec fn view(&self) -> Seq<Seq<char>> {
        texts(self.lines@)
    }
}

impl StderrTail {
    /// No more is kept than the tail.
    pub open spec fn wf(&self) -> bool {
        self@.len() <= STDERR_TAIL_LINES
    }

    pub fn new() -> (r: Self)
        ensures
            r.wf(),
            r@ == Seq::<Seq<char>>::empty(),
    {
        let r = StderrTail { lines: Vec::new() };
        assert(texts(r.lines@) =~= Seq::<Seq<char>>::empty());
        r
    }

    pub fn push(&mut self, line: String)
        requires
            old(self).wf(),
        ensures
            final(self).wf(),
            final(self)@ == latest(old(self)@.push(line@), STDERR_TAIL_LINES as nat),
    {
        if self.lines.len() == STDERR_TAIL_LINES {
            self.lines.remove(0);
        }
        self.lines.push(line);
        assert(texts(self.lines@) =~= latest(
            old(self)@.push(line@),
            STDERR_TAIL_LINES as nat,
        ));
    }

    /// What to tell of a failure: the last thing ffmpeg said, or failing that how
    /// it ended.
    pub open spec fn complaint(&self, status: Seq<char>) -> Seq<char> {
        match last_said(self@) {
            Some(line) => line,
            None => "ffmpeg exited with "@ + status,
        }
    }

    pub fn detail(&self, status: &str) -> (r: String)
        ensures
            r@ == self.complaint(status@),
    {
        let mut i: usize = self.lines.len();
        assert(self@.take(i as int) =~= self@);
        while i > 0
            invariant
                i <= self.lines@.len(),
                last_said(self@) == last_said(self@.take(i as int)),
            decreases i,
        {
            let line: &String = &self.lines[i - 1];
            let cs: Vec<char> = chars_of(line.as_str());
            assert(self@.take(i as int).last() == line@);
            assert(self@.take(i as int).drop_last() =~= self@.take(i - 1));
            if trim(cs.as_slice()).len() > 0 {
                return line.as_str().to_string();
            }
            i -= 1;
        }
        let mut r: String = "ffmpeg exited with ".to_string();
        r.append(status);
        r
    }
}

/// How the process ended.
#[derive(Debug)]
pub enum ProcessEnd {
    Succeeded,
    /// It ran, and failed: its status in words.
    Failed { status: String },
    /// It could not be waited for: the reason in words.
    Lost { reason: String },
    /// There was no process any more.
    Gone,
}

/// How the export ended, and whether what was written is to be removed.
#[derive(Debug)]
pub struct Outcome {
    pub event: ExportEvent,
    pub discard: bool,
}

/// What an export's end is. A cancelled one is just that, however its process
/// went. What a failed or cancelled one left behind is not a usable clip.
pub open spec fn ended(
    r: Outcome,
    cancelled: bool,
    end: ProcessEnd,
    tail: StderrTail,
    output: Seq<char>,
) -> bool {
    &&& r.discard == (cancelled || end is Failed)
    &&& cancelled <==> r.event is Cancelled
    &&& !cancelled ==> match end {
        ProcessEnd::Succeeded => r.event matches ExportEvent::Finished { output: o } && o@
            == output,
        ProcessEnd::Failed { status } => r.event matches ExportEvent::Failed { message } && message@
            == tail.complaint(status@),
        ProcessEnd::Lost { reason } => r.event matches ExportEvent::Failed { message } && message@
            == "could not wait for ffmpeg: "@ + reason@,
        ProcessEnd::Gone => r.event matches ExportEvent::Failed { message } && message@
            == "ffmpeg process disappeared"@,
    }
}

/// How an export ended.
pub fn outcome(cancelled: bool, end: ProcessEnd, tail: &StderrTail, output: &str) -> (r: Outcome)
    ensures
        ended(r, cancelled, end, *tail, output@),
{
    if cancelled {
        return Outcome { event: ExportEvent::Cancelled, discard: true };
    }
    match end {
        ProcessEnd::Succeeded => Outcome {
            event: ExportEvent::Finished { output: output.to_string() },
            discard: false,
        },
        ProcessEnd::Failed { status } => Outcome {
            event: ExportEvent::Failed { message: tail.detail(status.as_str()) },
            discard: true,
        },
        ProcessEnd::Lost { reason } => {
            let mut message: String = "could not wait for ffmpeg: ".to_string();
            message.append(reason.as_str());
            Outcome { event: ExportEvent::Failed { message }, discard: false }
        },
        ProcessEnd::Gone => Outcome {
            event: ExportEvent::Failed { message: "ffmpeg process disappeared".to_string() },
            discard: false,
        },
    }
}

// ---- the job ------------------------------------------------------------------

/// What to run.
#[derive(Debug)]
pub struct Launch {
    pub args: Vec<String>,
    /// The command as it is logged.
    pub rendered: String,
}

/// An export under way.
#[derive(Debug)]
pub struct ExportJob {
    output: String,
    parser: ProgressParser,
    tail: StderrTail,
}

impl ExportJob {
    /// The file being written.
    pub closed spec fn file(&self) -> Seq<char> {
        self.output@
    }

    /// The text of a line of progress that is not finished yet.
    pub closed spec fn pending(&self) -> Seq<char> {
        self.parser.pending()
    }

    pub closed spec fn known(&self) -> Progress {
        self.parser.known()
    }

    /// The diagnostics kept.
    pub closed spec fn said(&self) -> StderrTail {
        self.tail
    }

    pub open spec fn wf(&self) -> bool {
        self.said().wf()
    }
}

/// What is reported of the blocks.
pub open spec fn are_progress(events: Seq<ExportEvent>, blocks: Seq<Progress>) -> bool {
    &&& events.len() == blocks.len()
    &&& forall|i: int|
        0 <= i < events.len() ==> #[trigger] events[i] == ExportEvent::Progress(blocks[i])
}

/// Start an export: what to run, and what to make of it.
pub fn start(tools: &Tools, request: &ExportRequest) -> (r: (Launch, ExportJob))
    ensures
        texts(r.0.args@) == arguments(*request),
        r.0.rendered@ == command_line(tools.ffmpeg@, arguments(*request)),
        r.1.wf(),
        r.1.file() == request.output@,
        r.1.pending() == Seq::<char>::empty(),
        r.1.known() == Progress::none_yet(),
        r.1.said()@ == Seq::<Seq<char>>::empty(),
{
    let args: Vec<String> = build_args(request);
    let rendered: String = display_command(tools.ffmpeg.as_str(), args.as_slice());
    let job = ExportJob {
        output: request.output.as_str().to_string(),
        parser: ProgressParser::new(),
        tail: StderrTail::new(),
    };
    (Launch { args, rendered }, job)
}

impl ExportJob {
    /// Take what ffmpeg wrote to stdout, and tell what progress it makes.
    pub fn on_stdout(&mut self, bytes: &[u8]) -> (r: Vec<ExportEvent>)
        requires
            old(self).wf(),
        ensures
            final(self).wf(),
            ({
                let told = read_lines(
                    old(self).known(),
                    old(self).pending() + lossy_text(bytes@),
                );
                &&& are_progress(r@, told.blocks)
                &&& final(self).pending() == told.rest
                &&& final(self).known() == told.current
            }),
            all_ascii(bytes@) ==> lossy_text(bytes@) == ascii_text(bytes@),
            final(self).file() == old(self).file(),
            final(self).said()@ == old(self).said()@,
    {
        let blocks: Vec<Progress> = self.parser.push_bytes(bytes);
        let mut r: Vec<ExportEvent> = Vec::new();
        let mut i: usize = 0;
        while i < blocks.len()
            invariant
                i <= blocks@.len(),
                r@.len() == i,
                forall|k: int|
                    0 <= k < i ==> #[trigger] r@[k] == ExportEvent::Progress(blocks@[k]),
            decreases blocks@.len() - i,
        {
            r.push(ExportEvent::Progress(blocks[i]));
            i += 1;
        }
        r
    }

    /// Take a line that ffmpeg wrote to stderr.
    pub fn on_stderr(&mut self, line: String)
        requires
            old(self).wf(),
        ensures
            final(self).wf(),
            final(self).said()@ == latest(old(self).said()@.push(line@), STDERR_TAIL_LINES as nat),
            final(self).pending() == old(self).pending(),
            final(self).known() == old(self).known(),
            final(self).file() == old(self).file(),
    {
        self.tail.push(line);
    }

    /// Tell how it ended, and whether what was written is to be removed.
    pub fn on_end(&self, cancelled: bool, end: ProcessEnd) -> (r: Outcome)
        ensures
            ended(r, cancelled, end, self.said(), self.file()),
    {
        outcome(cancelled, end, &self.tail, self.output.as_str())
    }
}

// ---- laws ---------------------------------------------------------------------

/// Dropping what a name begins with keeps the other characters.
proof fn starts_kept(s: Seq<char>, ok: spec_fn(char) -> bool)
    requires
        forall|i: int| 0 <= i < s.len() ==> ok(#[trigger] s[i]),
    ensures
        forall|i: int| 0 <= i < trimmed_start(s).len() ==> ok(#[trigger] trimmed_start(s)[i]),
        trimmed_start(s).len() > 0 ==> !is_space(trimmed_start(s)[0]),
    decreases s.len(),
{
    if s.len() > 0 && is_space(s[0]) {
        starts_kept(s.skip(1), ok);
    }
}

/// So does dropping what it ends with.
proof fn ends_kept(s: Seq<char>, ok: spec_fn(char) -> bool)
    requires
        forall|i: int| 0 <= i < s.len() ==> ok(#[trigger] s[i]),
    ensures
        forall|i: int| 0 <= i < shorn(s).len() ==> ok(#[trigger] shorn(s)[i]),
        shorn(s).len() > 0 ==> {
            &&& shorn(s).last() != '.'
            &&& !is_space(shorn(s).last())
            &&& shorn(s)[0] == s[0]
        },
    decreases s.len(),
{
    if s.len() > 0 && (s.last() == '.' || is_space(s.last())) {
        ends_kept(s.drop_last(), ok);
    }
}

/// Whatever was typed, the name is one: it is not empty, holds nothing that
/// cannot appear in a filename, no separator among it, begins with no white space,
/// and ends with neither white space nor a dot.
pub proof fn a_stem_is_a_legal_name(s: Seq<char>)
    ensures
        stem_text(s).len() > 0,
        forall|i: int| 0 <= i < stem_text(s).len() ==> !is_illegal(#[trigger] stem_text(s)[i]),
        !is_space(stem_text(s)[0]),
        !is_space(stem_text(s).last()),
        stem_text(s).last() != '.',
{
    let ok = |c: char| !is_illegal(c);
    let clean = cleaned(s);
    assert forall|i: int| 0 <= i < clean.len() implies ok(#[trigger] clean[i]) by {}
    starts_kept(clean, ok);
    ends_kept(trimmed_start(clean), ok);
    reveal_strlit("clip");
    if bare_name(s).len() > 0 {
        assert forall|i: int| 0 <= i < stem_text(s).len() implies !is_illegal(
            #[trigger] stem_text(s)[i],
        ) by {
            assert(ok(bare_name(s)[i]));
        }
    }
}

/// A name once clean is left as it is: cleaning it again changes nothing.
pub proof fn a_clean_stem_stays(s: Seq<char>)
    ensures
        stem_text(stem_text(s)) == stem_text(s),
{
    let r = stem_text(s);
    a_stem_is_a_legal_name(s);
    assert(cleaned(r) =~= r);
}

/// The tail after any number of lines is the last of all of them.
pub proof fn the_tail_is_the_latest(lines: Seq<Seq<char>>, line: Seq<char>, n: nat)
    requires
        n > 0,
    ensures
        latest(latest(lines, n).push(line), n) == latest(lines.push(line), n),
{
    assert(latest(latest(lines, n).push(line), n) =~= latest(lines.push(line), n));
}

/// Advancing a counter gives a new name each time.
pub proof fn counted_names_differ(root: Seq<char>, a: nat, b: nat, ext: Seq<char>)
    requires
        a != b,
    ensures
        counted_name(root, a, ext) != counted_name(root, b, ext),
{
    padded_reads_back(a, 3);
    padded_reads_back(b, 3);
    let x = counted_name(root, a, ext);
    let y = counted_name(root, b, ext);
    if x == y {
        let n = root.len() + 1;
        let pa = padded(a, 3);
        let pb = padded(b, 3);
        assert(x.len() == n + pa.len() + 1 + ext.len());
        assert(y.len() == n + pb.len() + 1 + ext.len());
        assert(pa =~= pb) by {
            assert forall|i: int| 0 <= i < pa.len() implies pa[i] == pb[i] by {
                assert(x[n + i] == pa[i]);
                assert(y[n + i] == pb[i]);
            }
        }
    }
}

/// A text holds no separator of folders.
pub open spec fn is_one_name(s: Seq<char>) -> bool {
    forall|i: int| 0 <= i < s.len() ==> #[trigger] s[i] != '/' && s[i] != '\\'
}

proof fn digits_are_one_name(s: Seq<char>)
    requires
        all_digits(s),
    ensures
        is_one_name(s),
{
    assert forall|i: int| 0 <= i < s.len() implies #[trigger] s[i] != '/' && s[i] != '\\' by {
        assert(is_digit(s[i]));
    }
}

proof fn one_name_of_two(a: Seq<char>, b: Seq<char>)
    requires
        is_one_name(a),
        is_one_name(b),
    ensures
        is_one_name(a + b),
{
    let s = a + b;
    assert forall|i: int| 0 <= i < s.len() implies #[trigger] s[i] != '/' && s[i] != '\\' by {
        if i < a.len() {
            assert(s[i] == a[i]);
        } else {
            assert(s[i] == b[i - a.len()]);
        }
    }
}

/// Whatever was typed, the file lands in the folder it is meant for: no name tried
/// leads out of it.
pub proof fn a_name_stays_in_its_folder(typed: Seq<char>, ext: Seq<char>, id: nat)
    requires
        is_one_name(ext),
    ensures
        forall|i: int|
            0 <= i < candidates(stem_text(typed), ext, id).len() ==> is_one_name(
                #[trigger] candidates(stem_text(typed), ext, id)[i],
            ),
{
    let stem = stem_text(typed);
    let (root, start) = counted(stem);
    let own = process_stem(root, id);
    a_stem_is_a_legal_name(typed);
    assert(is_one_name(stem)) by {
        assert forall|i: int| 0 <= i < stem.len() implies #[trigger] stem[i] != '/' && stem[i]
            != '\\' by {
            assert(!is_illegal(stem[i]));
        }
    }
    last_before_finds(stem, '_', stem.len() as int);
    assert(is_one_name(root)) by {
        assert forall|i: int| 0 <= i < root.len() implies #[trigger] root[i] != '/' && root[i]
            != '\\' by {
            assert(root[i] == stem[i]);
        }
    }
    digits_read_back(id);
    digits_are_one_name(digits(id));
    one_name_of_two(root.push('_'), digits(id));
    let names = candidates(stem, ext, id);
    assert forall|i: int| 0 <= i < names.len() implies is_one_name(#[trigger] names[i]) by {
        one_name_of_two(stem.push('.'), ext);
        one_name_of_two(own.push('.'), ext);
        let k = counted_names(root, start, LAST_COUNTER as nat, ext).len() as int;
        if 0 < i <= k {
            counted_is_one_name(root, (start + i) as nat, ext);
        } else if i > k + 1 {
            counted_is_one_name(own, (i - k - 1) as nat, ext);
        }
    }
}

proof fn counted_is_one_name(root: Seq<char>, n: nat, ext: Seq<char>)
    requires
        is_one_name(root),
        is_one_name(ext),
    ensures
        is_one_name(counted_name(root, n, ext)),
{
    padded_reads_back(n, 3);
    digits_are_one_name(padded(n, 3));
    one_name_of_two(root.push('_'), padded(n, 3).push('.'));
    one_name_of_two(root.push('_') + padded(n, 3).push('.'), ext);
}

/// A folder runs out of names only when it holds as many as there are numbers: one
/// with fewer files has a name left.
pub proof fn a_folder_has_a_name_left(
    folder: Set<Seq<char>>,
    stem: Seq<char>,
    ext: Seq<char>,
    id: nat,
)
    requires
        folder.finite(),
        folder.len() < LAST_RESORT,
    ensures
        exists|i: int|
            0 <= i < candidates(stem, ext, id).len() && !folder.contains(
                #[trigger] candidates(stem, ext, id)[i],
            ),
{
    let names = candidates(stem, ext, id);
    let root = process_stem(counted(stem).0, id);
    let rest = counted_names(root, 0, LAST_RESORT as nat, ext);
    if forall|i: int| 0 <= i < names.len() ==> folder.contains(#[trigger] names[i]) {
        let before = names.len() - rest.len();
        assert forall|m: nat| 0 < m <= LAST_RESORT implies folder.contains(
            #[trigger] counted_name(root, m, ext),
        ) by {
            assert(rest[m - 1] == counted_name(root, m, ext));
            assert(names[before + m - 1] == rest[m - 1]);
        }
        numbers_fill(folder, root, LAST_RESORT as nat, ext);
    }
}

/// So many numbered names are so many files.
proof fn numbers_fill(folder: Set<Seq<char>>, root: Seq<char>, n: nat, ext: Seq<char>)
    requires
        folder.finite(),
        forall|m: nat| 0 < m <= n ==> folder.contains(#[trigger] counted_name(root, m, ext)),
    ensures
        folder.len() >= n,
    decreases n,
{
    if n > 0 {
        let last = counted_name(root, n, ext);
        assert forall|m: nat| 0 < m <= n - 1 implies folder.remove(last).contains(
            #[trigger] counted_name(root, m, ext),
        ) by {
            counted_names_differ(root, m, n, ext);
        }
        numbers_fill(folder.remove(last), root, (n - 1) as nat, ext);
    }
}

/// A counted name's counter can be read again, so that the next one is counted on
/// from it rather than a second counter appended.
pub proof fn a_counter_reads_back(root: Seq<char>, n: nat)
    requires
        n <= u32::MAX,
    ensures
        counted(root.push('_') + padded(n, 3)) == (root, n),
{
    let s = root.push('_') + padded(n, 3);
    padded_reads_back(n, 3);
    assert forall|j: int| root.len() < j < s.len() implies s[j] != '_' by {
        assert(s[j] == padded(n, 3)[j - root.len() - 1]);
        assert(is_digit(padded(n, 3)[j - root.len() - 1]));
    }
    last_before_finds(s, '_', s.len() as int);
    assert(s[root.len() as int] == '_');
    assert(s.skip(root.len() as int + 1) =~= padded(n, 3));
    assert(s.take(root.len() as int) =~= root);
}

/// What cannot appear in a filename is replaced, and nothing else is: a typed character
/// becomes an underscore when it is one of nine signs or a control character, and stays
/// otherwise.
pub proof fn only_what_is_illegal_is_replaced(s: Seq<char>, i: int)
    requires
        0 <= i < s.len(),
    ensures
        cleaned(s).len() == s.len(),
        s[i] == '<' || s[i] == '>' || s[i] == ':' || s[i] == '"' || s[i] == '/' || s[i] == '\\'
            || s[i] == '|' || s[i] == '?' || s[i] == '*' || (s[i] as int) < 0x20 ==> cleaned(s)[i]
            == '_',
        s[i] != '<' && s[i] != '>' && s[i] != ':' && s[i] != '"' && s[i] != '/' && s[i] != '\\'
            && s[i] != '|' && s[i] != '?' && s[i] != '*' && (s[i] as int) >= 0x20 ==> cleaned(s)[i]
            == s[i],
{
}

/// A name that is typed as it should be is taken as it is typed, with whatever blanks
/// stand around it, and whatever dots and blanks behind it; and the characters that are
/// replaced are replaced where they stand.
pub proof fn a_typed_name_is_taken_as_typed(before: Seq<char>, name: Seq<char>, after: Seq<char>)
    requires
        name.len() > 0,
        forall|i: int| 0 <= i < before.len() ==> #[trigger] before[i] == ' ',
        forall|i: int| 0 <= i < after.len() ==> #[trigger] after[i] == ' ' || after[i] == '.',
        !is_space(cleaned(name)[0]),
        !is_space(cleaned(name).last()),
        name.last() != '.',
    ensures
        stem_text(before + name + after) == cleaned(name),
{
    let s = before + name + after;
    let c = cleaned(name);
    assert(cleaned(s) =~= before + c + after);
    assert(before + c + after =~= before + (c + after));
    blanks_in_front(before, c + after);
    assert((c + after)[0] == c[0]);
    end_is_shorn(c, after);
}

proof fn blanks_in_front(before: Seq<char>, s: Seq<char>)
    requires
        forall|i: int| 0 <= i < before.len() ==> #[trigger] before[i] == ' ',
        s.len() > 0,
        !is_space(s[0]),
    ensures
        trimmed_start(before + s) == s,
    decreases before.len(),
{
    let t = before + s;
    if before.len() == 0 {
        assert(t =~= s);
    } else {
        assert(t[0] == before[0]);
        assert(t.skip(1) =~= before.skip(1) + s);
        assert forall|i: int| 0 <= i < before.skip(1).len() implies #[trigger] before.skip(1)[i]
            == ' ' by {
            assert(before.skip(1)[i] == before[i + 1]);
        }
        blanks_in_front(before.skip(1), s);
    }
}

proof fn end_is_shorn(s: Seq<char>, after: Seq<char>)
    requires
        forall|i: int| 0 <= i < after.len() ==> #[trigger] after[i] == ' ' || after[i] == '.',
        s.len() > 0,
        !is_space(s.last()),
        s.last() != '.',
    ensures
        shorn(s + after) == s,
    decreases after.len(),
{
    let t = s + after;
    if after.len() == 0 {
        assert(t =~= s);
    } else {
        assert(after[after.len() - 1] == ' ' || after[after.len() - 1] == '.');
        assert(t.last() == after[after.len() - 1]);
        assert(t.drop_last() =~= s + after.drop_last());
        end_is_shorn(s, after.drop_last());
    }
}

/// Where nothing is left of what was typed, the name is `clip`.
pub proof fn nothing_typed_is_a_clip(s: Seq<char>)
    requires
        forall|i: int| 0 <= i < s.len() ==> #[trigger] s[i] == ' ' || s[i] == '.',
    ensures
        stem_text(s) == "clip"@,
{
    assert(cleaned(s) =~= s);
    let t = trimmed_start(s);
    starts_kept(s, |c: char| c == ' ' || c == '.');
    let any = |c: char| c == ' ' || c == '.';
    assert forall|i: int| 0 <= i < t.len() implies #[trigger] t[i] == ' ' || t[i] == '.' by {
        assert(any(t[i]));
    }
    all_is_shorn(t);
}

proof fn all_is_shorn(s: Seq<char>)
    requires
        forall|i: int| 0 <= i < s.len() ==> #[trigger] s[i] == ' ' || s[i] == '.',
    ensures
        shorn(s).len() == 0,
    decreases s.len(),
{
    if s.len() > 0 {
        assert(s[s.len() - 1] == ' ' || s[s.len() - 1] == '.');
        assert forall|i: int| 0 <= i < s.drop_last().len() implies #[trigger] s.drop_last()[i]
            == ' ' || s.drop_last()[i] == '.' by {
            assert(s.drop_last()[i] == s[i]);
        }
        all_is_shorn(s.drop_last());
    }
}

/// A name without an underscore has no counter, and neither has one behind whose last
/// underscore anything but digits stands.
pub proof fn a_counter_is_digits_behind_an_underscore(root: Seq<char>, tail: Seq<char>)
    requires
        !tail.contains('_'),
    ensures
        counted(tail) == (tail, 0nat),
        tail.len() == 0 || !all_digits(tail) ==> counted(root.push('_') + tail) == (
            root.push('_') + tail,
            0nat,
        ),
        tail.len() > 0 && all_digits(tail) && number(tail) <= u32::MAX ==> counted(
            root.push('_') + tail,
        ) == (root, number(tail)),
{
    last_before_finds(tail, '_', tail.len() as int);
    let k = last_before(tail, '_', tail.len() as int);
    if k >= 0 {
        assert(tail.contains(tail[k]));
    }
    let s = root.push('_') + tail;
    last_before_finds(s, '_', s.len() as int);
    let i = last_before(s, '_', s.len() as int);
    assert(s[root.len() as int] == '_');
    assert(i == root.len()) by {
        if i > root.len() {
            assert(tail.contains(tail[i - root.len() - 1]));
            assert(s[i] == tail[i - root.len() - 1]);
        }
    }
    assert(s.skip(i + 1) =~= tail);
    assert(s.take(i) =~= root);
}

/// The names are tried in this order: as typed; then with the next numbers, three digits
/// or more, up to 9999; then with the number of the process; and then counted behind it.
pub proof fn names_are_tried_in_order(stem: Seq<char>, ext: Seq<char>, id: nat, n: nat)
    ensures
        ({
            let names = candidates(stem, ext, id);
            let (root, start) = counted(stem);
            let k = if start < 9999 {
                9999 - start
            } else {
                0
            };
            let own = root.push('_') + digits(id);
            &&& names.len() == 1 + k + 1 + 999_999
            &&& names[0] == stem.push('.') + ext
            &&& 0 < n <= k ==> names[n as int] == root.push('_') + padded(start + n, 3).push('.')
                + ext
            &&& names[k + 1] == own.push('.') + ext
            &&& 0 < n <= 999_999 ==> names[k + 1 + n] == own.push('_') + padded(n, 3).push('.')
                + ext
        }),
{
    let (root, start) = counted(stem);
    let own = process_stem(root, id);
    let a = counted_names(root, start, LAST_COUNTER as nat, ext);
    let b = counted_names(own, 0, LAST_RESORT as nat, ext);
    let names = candidates(stem, ext, id);
    if 0 < n <= a.len() {
        assert(names[n as int] == a[n - 1]);
    }
    if 0 < n <= b.len() {
        assert(names[a.len() as int + 1 + n as int] == b[n - 1]);
    }
}

/// The tail is the end of what was said: all of it where that is short, and otherwise
/// its last lines, as many as are kept.
pub proof fn the_tail_is_the_end_of_what_was_said(lines: Seq<Seq<char>>, n: nat)
    ensures
        latest(lines, n).len() == (if lines.len() < n {
            lines.len()
        } else {
            n
        }),
        latest(lines, n) == lines.skip(lines.len() - latest(lines, n).len()),
        STDERR_TAIL_LINES == 40,
{
    assert(lines.skip(0) =~= lines);
}

/// What was said last is the last line with anything in it.
pub proof fn what_was_said_last_is_not_blank(lines: Seq<Seq<char>>)
    ensures
        match last_said(lines) {
            Some(line) => exists|i: int|
                {
                    &&& 0 <= i < lines.len()
                    &&& #[trigger] lines[i] == line
                    &&& trimmed(lines[i]).len() > 0
                    &&& forall|j: int| i < j < lines.len() ==> trimmed(#[trigger] lines[j]).len() == 0
                },
            None => forall|j: int|
                0 <= j < lines.len() ==> trimmed(#[trigger] lines[j]).len() == 0,
        },
    decreases lines.len(),
{
    if lines.len() > 0 {
        let rest = lines.drop_last();
        let last = lines.len() - 1;
        if trimmed(lines.last()).len() > 0 {
            assert(lines[last] == lines.last());
        } else {
            what_was_said_last_is_not_blank(rest);
            match last_said(rest) {
                Some(line) => {
                    let i = choose|i: int|
                        {
                            &&& 0 <= i < rest.len()
                            &&& #[trigger] rest[i] == line
                            &&& trimmed(rest[i]).len() > 0
                            &&& forall|j: int|
                                i < j < rest.len() ==> trimmed(#[trigger] rest[j]).len() == 0
                        };
                    assert(lines[i] == line);
                    assert forall|j: int| i < j < lines.len() implies trimmed(
                        #[trigger] lines[j],
                    ).len() == 0 by {
                        if j < last {
                            assert(rest[j] == lines[j]);
                        }
                    }
                },
                None => {
                    assert forall|j: int| 0 <= j < lines.len() implies trimmed(
                        #[trigger] lines[j],
                    ).len() == 0 by {
                        if j < last {
                            assert(rest[j] == lines[j]);
                        }
                    }
                },
            }
        }
    }
}

/// A failure is told in the last words of ffmpeg, whatever they are, and by how it ended
/// only where there are none.
pub proof fn a_failure_is_told_in_ffmpegs_words(tail: StderrTail, status: Seq<char>)
    ensures
        last_said(tail@) matches Some(line) ==> tail.complaint(status) == line,
        last_said(tail@) is None ==> tail.complaint(status) == "ffmpeg exited with "@ + status,
{
}

/// Every end has its outcome: a cancelled export is just that, and leaves nothing; a
/// finished one leaves its file; a failed one tells why, and leaves nothing; and where
/// the process was lost, that is told, and what there is is left.
pub proof fn every_end_has_its_outcome(
    r: Outcome,
    cancelled: bool,
    end: ProcessEnd,
    tail: StderrTail,
    output: Seq<char>,
)
    requires
        ended(r, cancelled, end, tail, output),
    ensures
        cancelled ==> r.event is Cancelled && r.discard,
        !cancelled && end is Succeeded ==> !r.discard && (r.event matches ExportEvent::Finished {
            output: o,
        } && o@ == output),
        !cancelled && end is Failed ==> r.discard && (r.event matches ExportEvent::Failed { message }
            && message@ == tail.complaint(end->status@)),
        !cancelled && end is Lost ==> !r.discard && (r.event matches ExportEvent::Failed { message }
            && message@ == "could not wait for ffmpeg: "@ + end->reason@),
        !cancelled && end is Gone ==> !r.discard && (r.event matches ExportEvent::Failed { message }
            && message@ == "ffmpeg process disappeared"@),
{
}

/// The name that is given out is free, and it is the first that is: every name tried
/// before it was taken.
pub proof fn the_first_free_name_is_given_out<T: Fn(&str) -> bool>(
    i: int,
    name: Seq<char>,
    names: Seq<Seq<char>>,
    taken: T,
    j: int,
)
    requires
        is_first(i, name, names, taken),
    ensures
        0 <= i < names.len(),
        name == names[i],
        exists|text: &str| text@ == name && #[trigger] call_ensures(taken, (text,), false),
        0 <= j < i ==> exists|text: &str|
            text@ == names[j] && #[trigger] call_ensures(taken, (text,), true),
{
    assert(answered(taken, names[i], false));
    if 0 <= j < i {
        assert(answered(taken, names[j], true));
    }
}

/// Where no name is given out, every one that was tried is taken.
pub proof fn no_name_is_given_out_when_all_are_taken<T: Fn(&str) -> bool>(
    names: Seq<Seq<char>>,
    taken: T,
    j: int,
)
    requires
        first_is(None, names, taken),
        0 <= j < names.len(),
    ensures
        exists|text: &str| text@ == names[j] && #[trigger] call_ensures(taken, (text,), true),
{
    assert(answered(taken, names[j], true));
}

/// Progress is reported block by block, as it was told.
pub proof fn progress_is_reported_block_by_block(
    events: Seq<ExportEvent>,
    blocks: Seq<Progress>,
    i: int,
)
    requires
        are_progress(events, blocks),
    ensures
        events.len() == blocks.len(),
        0 <= i < blocks.len() ==> events[i] == ExportEvent::Progress(blocks[i]),
{
}

} // verus!
