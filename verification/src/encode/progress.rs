//! Parses ffmpeg's `-progress pipe:1` output.
//!
//! ffmpeg emits `key=value` lines and terminates each block with
//! `progress=continue` (or `progress=end` for the final one):
//!
//! ```text
//! frame=250
//! fps=62.5
//! total_size=1048576
//! out_time_us=10000000
//! out_time=00:00:10.000000
//! speed=2.08x
//! progress=continue
//! ```
//!
//! Values may be `N/A` before the first frame is encoded, and reads from the
//! pipe can split a line anywhere, so the parser carries a partial-line buffer.

use vstd::prelude::*;
use vstd::slice::slice_subrange;

use crate::fixed::{
    a_ratio_is_rounded_down, at_most, decimals_are_worth, divide, parse_real, ratio, real_number,
    Real, UNIT,
};
use crate::text::{
    a_whole_number_is_read, all_ascii, all_digits, ascii_text, contents, decode, digits,
    digits_read_back, find, first_at, first_at_finds, first_at_is, is_digit, is_space, lossy_text,
    lower, lowered, padded, padded_reads_back, parse_whole, pieces, pieces_of_one, pieces_of_parts,
    pow10, spells, spells_ignoring_case, split, trim, trim_trailing, trimmed, trimmed_already,
    vec_of, whole_number, without_trailing,
};

verus! {

#[derive(Debug, Clone, Copy, PartialEq, Eq, Structural)]
pub struct Progress {
    /// Position within the *output* clip, not the source file, in nanoseconds.
    pub out_time: u128,
    pub frame: u64,
    pub fps: Real,
    /// Encoding rate relative to realtime; 2 means twice as fast as playback.
    pub speed: Real,
    pub total_size: u64,
    /// True for the block ending in `progress=end`.
    pub finished: bool,
}

impl Progress {
    /// Before anything is known.
    pub open spec fn none_yet() -> Progress {
        Progress {
            out_time: 0,
            frame: 0,
            fps: Real::Finite(0),
            speed: Real::Finite(0),
            total_size: 0,
            finished: false,
        }
    }

    /// The part of the clip that is done, in billionths of the whole.
    pub open spec fn done(self, clip: Real) -> Real {
        if self.finished {
            Real::Finite(UNIT)
        } else if at_most(clip, Real::Finite(0)) {
            Real::Finite(0)
        } else {
            match clip {
                Real::Finite(c) => if self.out_time >= c {
                    Real::Finite(UNIT)
                } else {
                    Real::Finite(ratio(self.out_time as nat, c as nat) as i128)
                },
                Real::PosInf => Real::Finite(0),
                _ => Real::NaN,
            }
        }
    }

    /// Completed fraction in `0..=1`, given the expected clip length.
    ///
    /// Returns 1 once finished, so a clip whose final timestamp undershoots
    /// still reports as complete.
    pub fn fraction(&self, clip_duration_secs: Real) -> (r: Real)
        ensures
            r == self.done(clip_duration_secs),
    {
        if self.finished {
            return Real::Finite(UNIT);
        }
        if clip_duration_secs.le(&Real::Finite(0)) {
            return Real::Finite(0);
        }
        match clip_duration_secs {
            Real::Finite(c) => {
                let c: u128 = c as u128;
                if self.out_time >= c {
                    return Real::Finite(UNIT);
                }
                proof {
                    ratio_below_one(self.out_time as nat, c as nat);
                }
                match divide(self.out_time, c) {
                    Some(n) => Real::Finite(n as i128),
                    None => Real::Finite(UNIT),
                }
            },
            Real::PosInf => Real::Finite(0),
            _ => Real::NaN,
        }
    }

    /// The seconds that remain, at the present speed.
    pub open spec fn remaining(self, clip: Real) -> Option<Real> {
        if self.finished || at_most(self.speed, Real::Finite(0)) || at_most(
            clip,
            Real::Finite(0),
        ) {
            None
        } else {
            match (clip, self.speed) {
                (Real::NaN, _) => None,
                (Real::Finite(c), _) if c <= self.out_time => None,
                (_, Real::NaN) => Some(Real::NaN),
                (Real::Finite(_), Real::PosInf) => Some(Real::Finite(0)),
                (Real::Finite(c), Real::Finite(s)) => Some(
                    crate::fixed::signed(false, ratio((c - self.out_time) as nat, s as nat)),
                ),
                (_, Real::PosInf) => Some(Real::NaN),
                _ => Some(Real::PosInf),
            }
        }
    }

    /// Estimated seconds remaining, or `None` while speed is still unknown.
    pub fn eta_secs(&self, clip_duration_secs: Real) -> (r: Option<Real>)
        ensures
            r == self.remaining(clip_duration_secs),
    {
        if self.finished || self.speed.le(&Real::Finite(0)) || clip_duration_secs.le(
            &Real::Finite(0),
        ) {
            return None;
        }
        match clip_duration_secs {
            Real::Finite(c) => {
                let c: u128 = c as u128;
                if c <= self.out_time {
                    return None;
                }
                match self.speed {
                    Real::Finite(s) => {
                        match divide(c - self.out_time, s as u128) {
                            Some(n) => Some(Real::Finite(n as i128)),
                            None => Some(Real::PosInf),
                        }
                    },
                    Real::PosInf => Some(Real::Finite(0)),
                    _ => Some(Real::NaN),
                }
            },
            Real::PosInf => {
                match self.speed {
                    Real::Finite(_) => Some(Real::PosInf),
                    _ => Some(Real::NaN),
                }
            },
            _ => None,
        }
    }
}

impl Default for Progress {
    fn default() -> (r: Self)
        ensures
            r == Progress::none_yet(),
    {
        Progress {
            out_time: 0,
            frame: 0,
            fps: Real::Finite(0),
            speed: Real::Finite(0),
            total_size: 0,
            finished: false,
        }
    }
}

/// A part is less than the whole.
proof fn ratio_below_one(a: nat, b: nat)
    requires
        a < b,
    ensures
        ratio(a, b) < UNIT,
{
    assert(a * 1_000_000_000 / b < 1_000_000_000) by (nonlinear_arith)
        requires
            a < b,
    ;
}

// ---- lines --------------------------------------------------------------------

/// The longest span that can be told, in nanoseconds, exclusive.
pub const LONGEST: u128 = 18_446_744_073_709_551_616_000_000_000;

/// The nanoseconds that `s` writes as `HH:MM:SS.ffffff`. A span that is negative,
/// not finite or too long is none.
pub open spec fn hhmmss(s: Seq<char>) -> Option<int> {
    let parts = pieces(s, ':', 0);
    if parts.len() < 3 {
        None
    } else {
        match (
            whole_number(parts[0], u64::MAX as nat),
            whole_number(parts[1], u64::MAX as nat),
            real_number(parts[2]),
        ) {
            (Some(h), Some(m), Some(Real::Finite(sec))) => {
                let total = h * 3600 * UNIT + m * 60 * UNIT + sec;
                if 0 <= total < LONGEST {
                    Some(total)
                } else {
                    None
                }
            },
            _ => None,
        }
    }
}

/// Parse ffmpeg's `HH:MM:SS.ffffff` timestamps.
fn parse_hhmmss(s: &[char]) -> (r: Option<u128>)
    ensures
        match r {
            Some(n) => hhmmss(s@) == Some(n as int),
            None => hhmmss(s@) is None,
        },
{
    let parts: Vec<&[char]> = split(s, ':');
    assert(contents(parts@).len() == parts@.len());
    if parts.len() < 3 {
        return None;
    }
    assert(contents(parts@)[0] == parts@[0]@);
    assert(contents(parts@)[1] == parts@[1]@);
    assert(contents(parts@)[2] == parts@[2]@);
    match (parse_whole(parts[0], u64::MAX), parse_whole(parts[1], u64::MAX), parse_real(parts[2])) {
        (Some(h), Some(m), Some(Real::Finite(sec))) => {
            let whole: i128 = (h as i128) * 3_600_000_000_000 + (m as i128) * 60_000_000_000;
            if sec > i128::MAX - whole {
                return None;
            }
            let total: i128 = whole + sec;
            if total < 0 || total as u128 >= LONGEST {
                None
            } else {
                Some(total as u128)
            }
        },
        _ => None,
    }
}

/// What is known once `value` has been told for `key`.
pub open spec fn told(p: Progress, key: Seq<char>, value: Seq<char>) -> Progress {
    if key == "out_time_us"@ || key == "out_time_ms"@ {
        match whole_number(value, u64::MAX as nat) {
            Some(us) => Progress { out_time: (us * 1000) as u128, ..p },
            None => p,
        }
    } else if key == "out_time"@ {
        match hhmmss(value) {
            Some(ns) if p.out_time == 0 => Progress { out_time: ns as u128, ..p },
            _ => p,
        }
    } else if key == "frame"@ {
        match whole_number(value, u64::MAX as nat) {
            Some(n) => Progress { frame: n as u64, ..p },
            None => p,
        }
    } else if key == "fps"@ {
        match real_number(value) {
            Some(x) => Progress { fps: x, ..p },
            None => p,
        }
    } else if key == "total_size"@ {
        match whole_number(value, u64::MAX as nat) {
            Some(n) => Progress { total_size: n as u64, ..p },
            None => p,
        }
    } else if key == "speed"@ {
        match real_number(without_trailing(value, 'x', 'x')) {
            Some(x) => Progress { speed: x, ..p },
            None => p,
        }
    } else if key == "progress"@ {
        Progress { finished: value == "end"@, ..p }
    } else {
        p
    }
}

/// The key and the value of a line, unless ffmpeg has no value yet.
pub open spec fn told_by(line: Seq<char>) -> Option<(Seq<char>, Seq<char>)> {
    let i = first_at(line, '=', 0);
    let value = trimmed(line.skip(i + 1));
    if i >= line.len() || lowered(value) == lowered("N/A"@) {
        None
    } else {
        Some((trimmed(line.take(i)), value))
    }
}

/// What is known after a line.
pub open spec fn after_line(p: Progress, line: Seq<char>) -> Progress {
    match told_by(line) {
        Some((key, value)) => told(p, key, value),
        None => p,
    }
}

/// Whether the line ends a block.
pub open spec fn ends_block(line: Seq<char>) -> bool {
    told_by(line) matches Some((key, _)) && key == "progress"@
}

/// The lines of a text read from `p` on.
pub ghost struct Told {
    /// What follows the last line feed.
    pub rest: Seq<char>,
    pub current: Progress,
    /// What was known at the end of each block.
    pub blocks: Seq<Progress>,
}

/// A line as it stands in the text, without what ends it.
pub open spec fn bare(line: Seq<char>) -> Seq<char> {
    without_trailing(line, '\r', '\n')
}

pub open spec fn read_lines(p: Progress, text: Seq<char>) -> Told
    decreases text.len(),
{
    let i = first_at(text, '\n', 0);
    if 0 <= i && i < text.len() {
        let line = bare(text.take(i + 1));
        let q = after_line(p, line);
        let after = read_lines(q, text.skip(i + 1));
        if ends_block(line) {
            Told { blocks: seq![q] + after.blocks, ..after }
        } else {
            after
        }
    } else {
        Told { rest: text, current: p, blocks: seq![] }
    }
}

/// None of the other keys ends a block.
proof fn keys_differ()
    ensures
        "out_time_us"@ != "progress"@,
        "out_time_ms"@ != "progress"@,
        "out_time"@ != "progress"@,
        "frame"@ != "progress"@,
        "fps"@ != "progress"@,
        "total_size"@ != "progress"@,
        "speed"@ != "progress"@,
{
    reveal_strlit("out_time_us");
    reveal_strlit("out_time_ms");
    reveal_strlit("out_time");
    reveal_strlit("frame");
    reveal_strlit("fps");
    reveal_strlit("total_size");
    reveal_strlit("speed");
    reveal_strlit("progress");
    assert("out_time_us"@.len() == 11);
    assert("out_time_ms"@.len() == 11);
    assert("out_time"@[0] == 'o');
    assert("frame"@.len() == 5);
    assert("fps"@.len() == 3);
    assert("total_size"@.len() == 10);
    assert("speed"@.len() == 5);
    assert("progress"@.len() == 8);
}

#[derive(Debug)]
pub struct ProgressParser {
    partial: Vec<char>,
    current: Progress,
}

impl Default for ProgressParser {
    fn default() -> (r: Self)
        ensures
            r.pending() == Seq::<char>::empty(),
            r.known() == Progress::none_yet(),
    {
        ProgressParser { partial: Vec::new(), current: Progress::default() }
    }
}

impl ProgressParser {
    /// The line begun, carried over until its end comes.
    pub closed spec fn pending(&self) -> Seq<char> {
        self.partial@
    }

    /// What is known so far.
    pub closed spec fn known(&self) -> Progress {
        self.current
    }

    pub fn new() -> (r: Self)
        ensures
            r.pending() == Seq::<char>::empty(),
            r.known() == Progress::none_yet(),
    {
        ProgressParser { partial: Vec::new(), current: Progress::default() }
    }

    /// Returns a snapshot when the line terminates a block.
    fn push_line(&mut self, line: &[char]) -> (r: Option<Progress>)
        ensures
            final(self).partial == old(self).partial,
            final(self).current == after_line(old(self).current, line@),
            r == if ends_block(line@) {
                Some(final(self).current)
            } else {
                None
            },
    {
        let at: usize = find(line, '=', 0);
        if at == line.len() {
            return None;
        }
        let key = trim(slice_subrange(line, 0, at));
        let value = trim(slice_subrange(line, at + 1, line.len()));
        assert(line@.subrange(0, at as int) =~= line@.take(at as int));
        assert(line@.subrange(at + 1, line@.len() as int) =~= line@.skip(at + 1));
        // ffmpeg writes N/A until the corresponding statistic exists.
        if spells_ignoring_case(value, "N/A") {
            return None;
        }
        assert(told_by(line@) == Some((key@, value@)));
        proof {
            keys_differ();
        }
        // out_time_ms is microseconds too, despite the name.
        if spells(key, "out_time_us") || spells(key, "out_time_ms") {
            if let Some(us) = parse_whole(value, u64::MAX) {
                self.current.out_time = (us as u128) * 1000;
            }
        } else if spells(key, "out_time") {
            if self.current.out_time == 0 {
                if let Some(ns) = parse_hhmmss(value) {
                    self.current.out_time = ns;
                }
            }
        } else if spells(key, "frame") {
            if let Some(n) = parse_whole(value, u64::MAX) {
                self.current.frame = n;
            }
        } else if spells(key, "fps") {
            if let Some(x) = parse_real(value) {
                self.current.fps = x;
            }
        } else if spells(key, "total_size") {
            if let Some(n) = parse_whole(value, u64::MAX) {
                self.current.total_size = n;
            }
        } else if spells(key, "speed") {
            if let Some(x) = parse_real(trim_trailing(value, 'x', 'x')) {
                self.current.speed = x;
            }
        } else if spells(key, "progress") {
            self.current.finished = spells(value, "end");
            return Some(self.current);
        }
        None
    }

    /// Feed a chunk of stdout. Returns one [`Progress`] per completed block.
    ///
    /// Chunks may split lines arbitrarily; the remainder is carried over.
    pub fn push_str(&mut self, chunk: &str) -> (r: Vec<Progress>)
        ensures
            ({
                let told = read_lines(old(self).known(), old(self).pending() + chunk@);
                &&& final(self).pending() == told.rest
                &&& final(self).known() == told.current
                &&& r@ == told.blocks
            }),
    {
        for c in it: chunk.chars()
            invariant
                self.current == old(self).current,
                self.partial@ == old(self).partial@ + chunk@.take(it.index()),
                it.seq() == chunk@,
        {
            self.partial.push(c);
            assert(chunk@.take(it.index() + 1) =~= chunk@.take(it.index()).push(c));
        }
        let ghost text = old(self).partial@ + chunk@;
        let ghost all = read_lines(old(self).current, text);
        assert(self.partial@ =~= text);
        let mut whole: Vec<char> = Vec::new();
        core::mem::swap(&mut whole, &mut self.partial);
        let mut out: Vec<Progress> = Vec::new();
        let mut from: usize = 0;
        assert(text.skip(0) =~= text);
        assert(out@ + all.blocks =~= all.blocks);
        loop
            invariant_except_break
                from <= whole@.len(),
                whole@ == text,
                ({
                    let left = read_lines(self.current, text.skip(from as int));
                    &&& all.rest == left.rest
                    &&& all.current == left.current
                    &&& all.blocks == out@ + left.blocks
                }),
            ensures
                from <= whole@.len(),
                whole@ == text,
                all.rest == text.skip(from as int),
                all.current == self.current,
                all.blocks == out@,
            decreases whole@.len() - from,
        {
            let at: usize = find(whole.as_slice(), '\n', from);
            proof {
                first_at_skips(text, '\n', from as int);
            }
            if at == whole.len() {
                assert(out@ + Seq::<Progress>::empty() =~= out@);
                break;
            }
            let line = trim_trailing(slice_subrange(whole.as_slice(), from, at + 1), '\r', '\n');
            let ghost before = out@;
            proof {
                let rest = text.skip(from as int);
                assert(text.subrange(from as int, at + 1) =~= rest.take(at + 1 - from));
                assert(rest.skip(at + 1 - from) =~= text.skip(at + 1));
            }
            if let Some(p) = self.push_line(line) {
                out.push(p);
                assert forall|after: Seq<Progress>| #[trigger]
                    (out@ + after) =~= before + (seq![p] + after) by {}
            }
            from = at + 1;
        }
        self.partial = vec_of(slice_subrange(whole.as_slice(), from, whole.len()));
        assert(self.partial@ =~= text.skip(from as int));
        out
    }

    /// Feed what was read from the pipe.
    ///
    /// Raw rather than by line: `-progress` output is only flushed in blocks.
    pub fn push_bytes(&mut self, bytes: &[u8]) -> (r: Vec<Progress>)
        ensures
            ({
                let told = read_lines(
                    old(self).known(),
                    old(self).pending() + lossy_text(bytes@),
                );
                &&& final(self).pending() == told.rest
                &&& final(self).known() == told.current
                &&& r@ == told.blocks
            }),
            all_ascii(bytes@) ==> lossy_text(bytes@) == ascii_text(bytes@),
    {
        let text: String = decode(bytes);
        self.push_str(text.as_str())
    }
}

/// Looking from `from` on is looking at what stands from there on.
proof fn first_at_skips(s: Seq<char>, c: char, from: int)
    requires
        0 <= from <= s.len(),
    ensures
        first_at(s, c, from) == from + first_at(s.skip(from), c, 0),
{
    first_at_finds(s, c, from);
    let at = first_at(s, c, from);
    let rest = s.skip(from);
    assert forall|j: int| 0 <= j < at - from implies rest[j] != c by {
        assert(s[from + j] != c);
    }
    first_at_is(rest, c, 0, at - from);
}

// ---- laws ---------------------------------------------------------------------

/// Reads from a pipe land anywhere. However a text is split in two, reading the
/// halves one after the other tells the same as reading it whole: the same blocks
/// in the same order, the same knowledge, the same rest.
pub proof fn a_text_may_be_split_anywhere(p: Progress, a: Seq<char>, b: Seq<char>)
    ensures
        ({
            let whole = read_lines(p, a + b);
            let first = read_lines(p, a);
            let second = read_lines(first.current, first.rest + b);
            &&& whole.rest == second.rest
            &&& whole.current == second.current
            &&& whole.blocks == first.blocks + second.blocks
        }),
    decreases a.len(),
{
    let whole = read_lines(p, a + b);
    let first = read_lines(p, a);
    let second = read_lines(first.current, first.rest + b);
    first_at_finds(a, '\n', 0);
    let i = first_at(a, '\n', 0);
    if i < a.len() {
        assert forall|j: int| 0 <= j < i implies (a + b)[j] != '\n' by {
            assert(a[j] != '\n');
        }
        first_at_is(a + b, '\n', 0, i);
        assert((a + b).take(i + 1) =~= a.take(i + 1));
        assert((a + b).skip(i + 1) =~= a.skip(i + 1) + b);
        let q = after_line(p, bare(a.take(i + 1)));
        a_text_may_be_split_anywhere(q, a.skip(i + 1), b);
        if ends_block(bare(a.take(i + 1))) {
            let rest = read_lines(q, a.skip(i + 1));
            assert(seq![q] + (rest.blocks + second.blocks) =~= (seq![q] + rest.blocks)
                + second.blocks);
        }
    } else {
        assert(Seq::<Progress>::empty() + second.blocks =~= second.blocks);
    }
}

/// The same of bytes: read as they come from the pipe, split at any of them.
pub proof fn bytes_may_be_split_anywhere(p: Progress, pending: Seq<char>, a: Seq<u8>, b: Seq<u8>)
    requires
        all_ascii(a),
        all_ascii(b),
    ensures
        ({
            let whole = read_lines(p, pending + ascii_text(a + b));
            let first = read_lines(p, pending + ascii_text(a));
            let second = read_lines(first.current, first.rest + ascii_text(b));
            &&& all_ascii(a + b)
            &&& whole.rest == second.rest
            &&& whole.current == second.current
            &&& whole.blocks == first.blocks + second.blocks
        }),
{
    assert(pending + ascii_text(a + b) =~= (pending + ascii_text(a)) + ascii_text(b));
    a_text_may_be_split_anywhere(p, pending + ascii_text(a), ascii_text(b));
}

/// The fraction of a clip of known length is between none and all of it; it never
/// shrinks as the output grows; and once finished it is all.
pub proof fn the_fraction_is_a_fraction(p: Progress, q: Progress, clip: i128)
    requires
        p.out_time <= q.out_time,
        p.finished ==> q.finished,
    ensures
        ({
            let a = p.done(Real::Finite(clip));
            let b = q.done(Real::Finite(clip));
            &&& at_most(Real::Finite(0), a) && at_most(a, Real::Finite(UNIT))
            &&& at_most(a, b)
            &&& p.finished ==> a == Real::Finite(UNIT)
        }),
{
    if clip > 0 {
        let c = clip as nat;
        if p.out_time < c {
            ratio_below_one(p.out_time as nat, c);
            if q.out_time < c {
                ratio_below_one(q.out_time as nat, c);
                let (x, y) = (p.out_time as int, q.out_time as int);
                assert(x * 1_000_000_000 / clip as int <= y * 1_000_000_000 / clip as int)
                    by (nonlinear_arith)
                    requires
                        x <= y,
                        clip > 0,
                ;
            }
            assert(p.out_time as int * 1_000_000_000 / clip as int >= 0) by (nonlinear_arith)
                requires
                    clip > 0,
            ;
        }
    }
}

/// A line as ffmpeg writes it.
pub open spec fn line(key: Seq<char>, value: Seq<char>) -> Seq<char> {
    key.push('=') + value
}

/// A word: no white space at its ends, and no equals sign.
pub open spec fn is_word(s: Seq<char>) -> bool {
    &&& s.len() > 0
    &&& !is_space(s[0])
    &&& !is_space(s.last())
    &&& !s.contains('=')
}

/// A line tells the value that stands behind its equals sign, unless there is none yet.
pub proof fn a_line_tells_its_value(key: Seq<char>, value: Seq<char>)
    requires
        is_word(key),
        value.len() > 0,
        !is_space(value[0]),
        !is_space(value.last()),
    ensures
        lowered(value) != lowered("N/A"@) ==> told_by(line(key, value)) == Some((key, value)),
        lowered(value) == lowered("N/A"@) ==> told_by(line(key, value)) is None,
{
    let l = line(key, value);
    assert forall|j: int| 0 <= j < key.len() implies l[j] != '=' by {
        assert(key.contains(key[j]));
        assert(l[j] == key[j]);
    }
    first_at_is(l, '=', 0, key.len() as int);
    assert(l.take(key.len() as int) =~= key);
    assert(l.skip(key.len() as int + 1) =~= value);
    trimmed_already(key);
    trimmed_already(value);
}

/// ffmpeg's keys, character by character.
proof fn keys_are_words()
    ensures
        is_word("out_time_us"@),
        is_word("out_time_ms"@),
        is_word("out_time"@),
        is_word("frame"@),
        is_word("fps"@),
        is_word("total_size"@),
        is_word("speed"@),
        is_word("progress"@),
        "out_time_us"@.len() == 11 && "out_time_us"@[9] == 'u',
        "out_time_ms"@.len() == 11 && "out_time_ms"@[9] == 'm',
        "out_time"@.len() == 8 && "out_time"@[0] == 'o',
        "frame"@.len() == 5 && "frame"@[0] == 'f',
        "fps"@.len() == 3,
        "total_size"@.len() == 10,
        "speed"@.len() == 5 && "speed"@[0] == 's',
        "progress"@.len() == 8 && "progress"@[0] == 'p',
{
    reveal_strlit("out_time_us");
    reveal_strlit("out_time_ms");
    reveal_strlit("out_time");
    reveal_strlit("frame");
    reveal_strlit("fps");
    reveal_strlit("total_size");
    reveal_strlit("speed");
    reveal_strlit("progress");
}

/// Digits are a value.
proof fn numbers_are_values(n: nat)
    ensures
        digits(n).len() > 0,
        !is_space(digits(n)[0]),
        !is_space(digits(n).last()),
        lowered(digits(n)) != lowered("N/A"@),
{
    digits_read_back(n);
    let d = digits(n);
    assert(is_digit(d[0]));
    assert(is_digit(d[d.len() - 1]));
    reveal_strlit("N/A");
    assert(lowered(d)[0] == d[0]);
    assert(lowered("N/A"@)[0] == 'n');
}

/// The latest value told is the one known, whatever was known before, and nothing else
/// changes: the position, in microseconds under either name; the frame; the size.
pub proof fn the_latest_count_told_is_known(p: Progress, n: nat)
    requires
        n <= u64::MAX,
    ensures
        after_line(p, line("out_time_us"@, digits(n))) == (Progress {
            out_time: (n * 1000) as u128,
            ..p
        }),
        after_line(p, line("out_time_ms"@, digits(n))) == (Progress {
            out_time: (n * 1000) as u128,
            ..p
        }),
        after_line(p, line("frame"@, digits(n))) == (Progress { frame: n as u64, ..p }),
        after_line(p, line("total_size"@, digits(n))) == (Progress { total_size: n as u64, ..p }),
{
    keys_are_words();
    numbers_are_values(n);
    a_whole_number_is_read(n, u64::MAX as nat, digits(n));
    a_line_tells_its_value("out_time_us"@, digits(n));
    a_line_tells_its_value("out_time_ms"@, digits(n));
    a_line_tells_its_value("frame"@, digits(n));
    a_line_tells_its_value("total_size"@, digits(n));
}

/// The same of the rates: frames per second, and the speed, behind which an `x` stands
/// or not.
pub proof fn the_latest_rate_told_is_known(p: Progress, value: Seq<char>)
    requires
        value.len() > 0,
        !is_space(value[0]),
        !is_space(value.last()),
        value.last() != 'x',
        lowered(value) != lowered("N/A"@),
    ensures
        real_number(value) matches Some(x) ==> {
            &&& after_line(p, line("fps"@, value)) == (Progress { fps: x, ..p })
            &&& after_line(p, line("speed"@, value)) == (Progress { speed: x, ..p })
            &&& after_line(p, line("speed"@, value.push('x'))) == (Progress { speed: x, ..p })
        },
        real_number(value) is None ==> {
            &&& after_line(p, line("fps"@, value)) == p
            &&& after_line(p, line("speed"@, value.push('x'))) == p
        },
{
    keys_are_words();
    let v = value.push('x');
    assert(v.drop_last() =~= value);
    assert(without_trailing(v, 'x', 'x') == without_trailing(value, 'x', 'x'));
    reveal_strlit("N/A");
    assert(lowered(v).last() == lower('x'));
    assert(lowered("N/A"@).last() == 'a');
    a_line_tells_its_value("fps"@, value);
    a_line_tells_its_value("speed"@, value);
    a_line_tells_its_value("speed"@, v);
}

/// A rate is known for what its digits say, to the billionth.
pub proof fn a_rate_is_worth_its_digits(p: Progress, whole: nat, part: nat, places: nat)
    requires
        0 < places <= 9,
        part < pow10(places),
        (whole * pow10(places) + part) * pow10((9 - places) as nat) <= i128::MAX,
    ensures
        ({
            let value = digits(whole).push('.') + padded(part, places);
            let x = Real::Finite(
                ((whole * pow10(places) + part) * pow10((9 - places) as nat)) as i128,
            );
            &&& after_line(p, line("fps"@, value)) == (Progress { fps: x, ..p })
            &&& after_line(p, line("speed"@, value.push('x'))) == (Progress { speed: x, ..p })
        }),
{
    let value = digits(whole).push('.') + padded(part, places);
    decimals_are_worth(whole, part, places);
    numbers_are_values(whole);
    padded_reads_back(part, places);
    let f = padded(part, places);
    assert(is_digit(f[f.len() - 1]));
    assert(value.last() == f.last());
    assert(value[0] == digits(whole)[0]);
    digits_read_back(whole);
    assert(is_digit(digits(whole)[0]));
    reveal_strlit("N/A");
    assert(lowered(value)[0] == value[0]);
    assert(lowered("N/A"@)[0] == 'n');
    the_latest_rate_told_is_known(p, value);
}

/// A value that ffmpeg does not have yet changes nothing, and so does a key that is not
/// asked about.
pub proof fn what_is_not_told_stays(p: Progress, key: Seq<char>, value: Seq<char>)
    requires
        is_word(key),
        value.len() > 0,
        !is_space(value[0]),
        !is_space(value.last()),
    ensures
        lowered(value) == "n/a"@ ==> after_line(p, line(key, value)) == p && !ends_block(
            line(key, value),
        ),
        key != "out_time_us"@ && key != "out_time_ms"@ && key != "out_time"@ && key != "frame"@
            && key != "fps"@ && key != "total_size"@ && key != "speed"@ && key != "progress"@
            ==> after_line(p, line(key, value)) == p,
        key != "progress"@ ==> !ends_block(line(key, value)) && after_line(
            p,
            line(key, value),
        ).finished == p.finished,
{
    reveal_strlit("N/A");
    reveal_strlit("n/a");
    assert(lowered("N/A"@) =~= "n/a"@);
    a_line_tells_its_value(key, value);
}

/// A block ends with its `progress` line, which says whether it is the last.
pub proof fn a_block_ends_with_its_progress_line(p: Progress)
    ensures
        ends_block(line("progress"@, "continue"@)),
        ends_block(line("progress"@, "end"@)),
        after_line(p, line("progress"@, "continue"@)) == (Progress { finished: false, ..p }),
        after_line(p, line("progress"@, "end"@)) == (Progress { finished: true, ..p }),
{
    keys_are_words();
    reveal_strlit("continue");
    reveal_strlit("end");
    reveal_strlit("N/A");
    assert("continue"@.len() == 8 && "end"@.len() == 3);
    assert(lowered("continue"@).len() == 8 && lowered("N/A"@).len() == 3);
    assert(lowered("end"@)[0] == 'e' && lowered("N/A"@)[0] == 'n');
    a_line_tells_its_value("progress"@, "continue"@);
    a_line_tells_its_value("progress"@, "end"@);
}

/// The formatted position stands in where nothing else told one, and is hours, minutes
/// and seconds.
pub proof fn the_formatted_position_stands_in(
    p: Progress,
    hours: nat,
    minutes: nat,
    secs: nat,
    micros: nat,
)
    requires
        hours <= u64::MAX,
        minutes <= u64::MAX,
        micros < 1_000_000,
        ((hours * 60 + minutes) * 60 + secs) * 1_000_000_000 + micros * 1000
            < 18_446_744_073_709_551_616_000_000_000,
    ensures
        ({
            let value = padded(hours, 2).push(':') + (padded(minutes, 2).push(':') + (digits(
                secs,
            ).push('.') + padded(micros, 6)));
            let ns = ((hours * 60 + minutes) * 60 + secs) * 1_000_000_000 + micros * 1000;
            &&& hhmmss(value) == Some(ns as int)
            &&& p.out_time == 0 ==> after_line(p, line("out_time"@, value)) == (Progress {
                out_time: ns as u128,
                ..p
            })
            &&& p.out_time != 0 ==> after_line(p, line("out_time"@, value)) == p
        }),
{
    let h = padded(hours, 2);
    let m = padded(minutes, 2);
    let x = digits(secs).push('.') + padded(micros, 6);
    let value = h.push(':') + (m.push(':') + x);
    padded_reads_back(hours, 2);
    padded_reads_back(minutes, 2);
    padded_reads_back(micros, 6);
    digits_read_back(secs);
    reveal_with_fuel(pow10, 7);
    assert(pow10(6) == 1_000_000 && pow10(3) == 1000);
    decimals_are_worth(secs, micros, 6);
    no_colon(h);
    no_colon(m);
    assert(!x.contains(':')) by {
        no_colon(digits(secs));
        no_colon(padded(micros, 6));
        assert forall|j: int| 0 <= j < x.len() implies x[j] != ':' by {
            let n = digits(secs).len() as int;
            if j < n {
                assert(digits(secs).contains(digits(secs)[j]));
                assert(x[j] == digits(secs)[j]);
            } else if j > n {
                assert(padded(micros, 6).contains(padded(micros, 6)[j - n - 1]));
                assert(x[j] == padded(micros, 6)[j - n - 1]);
            }
        }
    }
    pieces_of_parts(h, ':', m.push(':') + x);
    pieces_of_parts(m, ':', x);
    pieces_of_one(x, ':');
    let parts = pieces(value, ':', 0);
    assert(parts =~= seq![h, m, x]);
    assert(is_digit(h[0]) && is_digit(m[0]));
    assert(whole_number(h, u64::MAX as nat) == Some(hours));
    assert(whole_number(m, u64::MAX as nat) == Some(minutes));
    assert((secs * 1_000_000 + micros) * 1000 == secs * 1_000_000_000 + micros * 1000);
    keys_are_words();
    let f = padded(micros, 6);
    assert(is_digit(f[f.len() - 1]));
    assert(value.last() == f.last());
    assert(value[0] == h[0]);
    reveal_strlit("N/A");
    assert(lowered(value)[0] == value[0]);
    assert(lowered("N/A"@)[0] == 'n');
    a_line_tells_its_value("out_time"@, value);
}

proof fn no_colon(s: Seq<char>)
    requires
        all_digits(s),
    ensures
        !s.contains(':'),
{
    assert forall|j: int| 0 <= j < s.len() implies s[j] != ':' by {
        assert(is_digit(s[j]));
    }
}

/// Output is read line by line: a finished line is taken in, and tells a block when it
/// ends one; a line that is not finished waits.
pub proof fn output_is_read_line_by_line(p: Progress, text: Seq<char>, rest: Seq<char>)
    requires
        !text.contains('\n'),
        text.len() == 0 || text.last() != '\r',
    ensures
        ({
            let q = after_line(p, text);
            let after = read_lines(q, rest);
            let told = read_lines(p, text.push('\n') + rest);
            &&& told.current == after.current
            &&& told.rest == after.rest
            &&& told.blocks == (if ends_block(text) {
                seq![q] + after.blocks
            } else {
                after.blocks
            })
            &&& read_lines(p, text.push('\r').push('\n') + rest) == told
        }),
        read_lines(p, text) == (Told { rest: text, current: p, blocks: seq![] }),
{
    assert forall|j: int| 0 <= j < text.len() implies #[trigger] text[j] != '\n' by {
        assert(text.contains(text[j]));
    }
    let a = text.push('\n') + rest;
    assert forall|j: int| 0 <= j < text.len() implies a[j] != '\n' by {
        assert(a[j] == text[j]);
    }
    first_at_is(a, '\n', 0, text.len() as int);
    assert(a.take(text.len() as int + 1) =~= text.push('\n'));
    assert(a.skip(text.len() as int + 1) =~= rest);
    assert(text.push('\n').drop_last() =~= text);
    let b = text.push('\r').push('\n') + rest;
    assert forall|j: int| 0 <= j < text.len() + 1 implies b[j] != '\n' by {
        if j < text.len() {
            assert(b[j] == text[j]);
        }
    }
    first_at_is(b, '\n', 0, text.len() as int + 1);
    assert(b.take(text.len() as int + 2) =~= text.push('\r').push('\n'));
    assert(b.skip(text.len() as int + 2) =~= rest);
    assert(text.push('\r').push('\n').drop_last() =~= text.push('\r'));
    assert(text.push('\r').drop_last() =~= text);
    reveal_with_fuel(without_trailing, 3);
    if text.len() > 0 {
        assert(text[text.len() - 1] != '\n');
    }
    first_at_is(text, '\n', 0, text.len() as int);
}

/// What is done of a clip is its position over its length, rounded down to the
/// billionth; all of it once the position passes the end, or the export is finished;
/// and none of a clip without a length.
pub proof fn what_is_done_is_position_over_length(p: Progress, clip: i128)
    ensures
        p.finished ==> p.done(Real::Finite(clip)) == Real::Finite(1_000_000_000),
        !p.finished && clip <= 0 ==> p.done(Real::Finite(clip)) == Real::Finite(0),
        !p.finished && 0 < clip <= p.out_time ==> p.done(Real::Finite(clip)) == Real::Finite(
            1_000_000_000,
        ),
        !p.finished && 0 <= p.out_time < clip ==> (p.done(Real::Finite(clip)) matches Real::Finite(f)
            && f * clip <= p.out_time * 1_000_000_000 < (f + 1) * clip),
{
    if 0 < clip && p.out_time < clip {
        a_ratio_is_rounded_down(p.out_time as nat, clip as nat);
        ratio_below_one(p.out_time as nat, clip as nat);
    }
}

/// What remains of a clip takes its length over the speed, rounded down to the
/// billionth. Nothing is said once it is finished or past its end, or while the speed
/// is unknown.
pub proof fn what_remains_is_length_over_speed(p: Progress, clip: i128, speed: i128)
    requires
        p.speed == Real::Finite(speed),
    ensures
        p.remaining(Real::Finite(clip)) is None <==> p.finished || speed <= 0 || clip <= p.out_time
            || clip <= 0,
        p.remaining(Real::Finite(clip)) matches Some(Real::Finite(e)) ==> e * speed <= (clip
            - p.out_time) * 1_000_000_000 < (e + 1) * speed,
        p.remaining(Real::Finite(clip)) matches Some(r) ==> r is Finite || r is PosInf && (clip
            - p.out_time) * 1_000_000_000 >= i128::MAX * speed,
{
    if !p.finished && speed > 0 && clip > p.out_time {
        let left = (clip - p.out_time) as nat;
        let s = speed as nat;
        a_ratio_is_rounded_down(left, s);
        let q = ratio(left, s) as int;
        if q > i128::MAX {
            assert(q * s >= i128::MAX * s) by (nonlinear_arith)
                requires
                    q > i128::MAX,
                    s > 0,
            ;
        }
    }
}

/// Before anything is told, nothing is known.
pub proof fn nothing_is_known_before_it_is_told()
    ensures
        Progress::none_yet() == (Progress {
            out_time: 0,
            frame: 0,
            fps: Real::Finite(0),
            speed: Real::Finite(0),
            total_size: 0,
            finished: false,
        }),
{
}

/// A clip without an end is never done before it is finished, and of one whose length
/// is no number it is not known how much is done. Once finished, all of any clip is.
pub proof fn what_is_done_of_no_length(p: Progress)
    ensures
        p.finished ==> forall|clip: Real| #[trigger] p.done(clip) == Real::Finite(1_000_000_000),
        !p.finished ==> p.done(Real::PosInf) == Real::Finite(0),
        !p.finished ==> p.done(Real::NegInf) == Real::Finite(0),
        !p.finished ==> p.done(Real::NaN) == Real::NaN,
{
}

/// What remains where the length or the speed is beyond all numbers: nothing is said of
/// a clip whose length is no number or below all of them, nor at a speed that is not
/// known to be above zero; at a speed above all numbers nothing is left to wait for, and
/// a clip without an end takes forever.
pub proof fn what_remains_beyond_all_numbers(p: Progress, clip: i128, speed: i128)
    requires
        !p.finished,
    ensures
        p.remaining(Real::NaN) is None,
        p.remaining(Real::NegInf) is None,
        p.speed == Real::NegInf ==> p.remaining(Real::PosInf) is None && p.remaining(
            Real::Finite(clip),
        ) is None,
        p.speed == Real::NaN ==> p.remaining(Real::PosInf) == Some(Real::NaN),
        p.speed == Real::NaN ==> p.remaining(Real::Finite(clip)) == (if clip > 0 && clip
            > p.out_time {
            Some(Real::NaN)
        } else {
            None
        }),
        p.speed == Real::PosInf ==> p.remaining(Real::PosInf) == Some(Real::NaN),
        p.speed == Real::PosInf ==> p.remaining(Real::Finite(clip)) == (if clip > 0 && clip
            > p.out_time {
            Some(Real::Finite(0))
        } else {
            None
        }),
        p.speed == Real::Finite(speed) ==> p.remaining(Real::PosInf) == (if speed > 0 {
            Some(Real::PosInf)
        } else {
            None
        }),
{
}

} // verus!
