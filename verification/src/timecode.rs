//! Timecode formatting and parsing.
//!
//! Two audiences with different needs:
//!
//! - **ffmpeg** wants `HH:MM:SS.mmm`, always fully qualified.
//! - **The UI** wants the shortest unambiguous form, so a 40-second clip reads
//!   `0:40` rather than `00:00:40.000`.
//!
//! Everything here is locale-independent.

use vstd::prelude::*;
use vstd::slice::slice_subrange;

use crate::fixed::{numeral_value, parse_real, push_real, real_number, real_text, Real, UNIT};
use crate::text::{
    all_digits, chars_of, contents, digits, digits_read_back, find, first_at_finds,
    is_digit, is_space, number, number_of_two, padded, padded_reads_back, pieces, pieces_of_one,
    pieces_of_parts, pow10, push_digits, push_padded, split as split_text, trim, trimmed,
    trimmed_already,
};

verus! {

/// A span cut into hours, minutes, seconds and milliseconds.
pub struct Hms {
    pub h: u64,
    pub m: u64,
    pub s: u64,
    pub ms: u64,
}

/// Seconds as whole milliseconds, rounded to the nearest. What is negative or
/// not finite counts as zero.
pub open spec fn milliseconds(seconds: Real) -> nat {
    match seconds {
        Real::Finite(t) if t > 0 => {
            let ms = (t + 500_000) / 1_000_000;
            if ms > u64::MAX {
                u64::MAX as nat
            } else {
                ms as nat
            }
        },
        _ => 0,
    }
}

pub open spec fn hours(seconds: Real) -> nat {
    milliseconds(seconds) / 3_600_000
}

pub open spec fn minutes(seconds: Real) -> nat {
    milliseconds(seconds) / 60_000 % 60
}

pub open spec fn whole_seconds(seconds: Real) -> nat {
    milliseconds(seconds) / 1000 % 60
}

pub open spec fn millis(seconds: Real) -> nat {
    milliseconds(seconds) % 1000
}

fn split(seconds: Real) -> (r: Hms)
    ensures
        r.h == hours(seconds),
        r.m == minutes(seconds),
        r.s == whole_seconds(seconds),
        r.ms == millis(seconds),
{
    let total_ms: u64 = match seconds {
        Real::Finite(t) => {
            if t <= 0 {
                0
            } else {
                let floor: i128 = t / 1_000_000;
                let ms: i128 = if t % 1_000_000 >= 500_000 {
                    floor + 1
                } else {
                    floor
                };
                assert(ms == (t + 500_000) / 1_000_000);
                if ms > u64::MAX as i128 {
                    u64::MAX
                } else {
                    ms as u64
                }
            }
        },
        _ => 0,
    };
    let total_s: u64 = total_ms / 1000;
    Hms { h: total_s / 3600, m: (total_s / 60) % 60, s: total_s % 60, ms: total_ms % 1000 }
}

/// `HH:MM:SS.mmm`.
pub open spec fn timestamp_text(seconds: Real) -> Seq<char> {
    padded(hours(seconds), 2).push(':') + padded(minutes(seconds), 2).push(':') + padded(
        whole_seconds(seconds),
        2,
    ).push('.') + padded(millis(seconds), 3)
}

/// `M:SS` under an hour, `H:MM:SS` beyond.
pub open spec fn clock_text(seconds: Real) -> Seq<char> {
    if hours(seconds) > 0 {
        digits(hours(seconds)).push(':') + padded(minutes(seconds), 2).push(':') + padded(
            whole_seconds(seconds),
            2,
        )
    } else {
        digits(minutes(seconds)).push(':') + padded(whole_seconds(seconds), 2)
    }
}

/// The clock, with hundredths of a second.
pub open spec fn precise_text(seconds: Real) -> Seq<char> {
    clock_text(seconds).push('.') + padded(millis(seconds) / 10, 2)
}

/// `HH:MM:SS.mmm` — the form ffmpeg accepts unambiguously.
pub fn ffmpeg_timestamp(seconds: Real) -> (out: String)
    ensures
        out@ == timestamp_text(seconds),
{
    let t: Hms = split(seconds);
    let mut out: String = String::new();
    push_padded(&mut out, t.h as u128, 2);
    out.push(':');
    push_padded(&mut out, t.m as u128, 2);
    out.push(':');
    push_padded(&mut out, t.s as u128, 2);
    out.push('.');
    push_padded(&mut out, t.ms as u128, 3);
    assert(out@ =~= timestamp_text(seconds));
    out
}

fn push_clock(out: &mut String, t: &Hms)
    ensures
        final(out)@ == old(out)@ + (if t.h > 0 {
            digits(t.h as nat).push(':') + padded(t.m as nat, 2).push(':') + padded(t.s as nat, 2)
        } else {
            digits(t.m as nat).push(':') + padded(t.s as nat, 2)
        }),
{
    let ghost start = out@;
    if t.h > 0 {
        push_digits(out, t.h as u128);
        out.push(':');
        push_padded(out, t.m as u128, 2);
    } else {
        push_digits(out, t.m as u128);
    }
    out.push(':');
    push_padded(out, t.s as u128, 2);
    assert(out@ =~= start + if t.h > 0 {
        digits(t.h as nat).push(':') + padded(t.m as nat, 2).push(':') + padded(t.s as nat, 2)
    } else {
        digits(t.m as nat).push(':') + padded(t.s as nat, 2)
    });
}

/// Shortest readable clock: `M:SS` under an hour, `H:MM:SS` beyond.
pub fn clock(seconds: Real) -> (out: String)
    ensures
        out@ == clock_text(seconds),
{
    let t: Hms = split(seconds);
    let mut out: String = String::new();
    push_clock(&mut out, &t);
    assert(out@ =~= clock_text(seconds));
    out
}

/// Clock with centiseconds, for mark positions where sub-second precision matters.
pub fn clock_precise(seconds: Real) -> (out: String)
    ensures
        out@ == precise_text(seconds),
{
    let t: Hms = split(seconds);
    let mut out: String = String::new();
    push_clock(&mut out, &t);
    out.push('.');
    push_padded(&mut out, (t.ms / 10) as u128, 2);
    assert(out@ =~= precise_text(seconds));
    out
}

/// A signed offset in seconds to one decimal, or `exact` when it is under a
/// twentieth of a second.
pub open spec fn offset_text(seconds: Real) -> Seq<char> {
    match seconds {
        Real::Finite(t) if -50_000_000 < t < 50_000_000 => "exact"@,
        _ => real_text(seconds, 1, true).push('s'),
    }
}

/// Signed offset, e.g. `-4.7s`, for showing how far a keyframe snap moved a mark.
pub fn signed_offset(seconds: Real) -> (out: String)
    ensures
        out@ == offset_text(seconds),
{
    if let Real::Finite(t) = seconds {
        if -50_000_000 < t && t < 50_000_000 {
            return "exact".to_string();
        }
    }
    let mut out: String = String::new();
    push_real(&mut out, seconds, 1, true);
    out.push('s');
    assert(out@ =~= offset_text(seconds));
    out
}

/// What the field at `i` is worth, if it may stand there: a finite number that
/// is not negative, below sixty when it follows another, and without a point
/// when another follows it.
pub open spec fn field_value(parts: Seq<Seq<char>>, i: int) -> Option<int> {
    match real_number(parts[i]) {
        Some(Real::Finite(v)) if v >= 0 && (i == 0 || v < 60 * UNIT) && (i + 1 == parts.len()
            || !parts[i].contains('.')) => Some(v as int),
        _ => None,
    }
}

/// The fields from `i` on, taken into `total` as the next lower unit each.
pub open spec fn fields_value(parts: Seq<Seq<char>>, i: int, total: int) -> Option<int>
    decreases parts.len() - i,
{
    if i >= parts.len() {
        Some(total)
    } else {
        match field_value(parts, i) {
            Some(v) => fields_value(parts, i + 1, total * 60 + v),
            None => None,
        }
    }
}

/// `s` without the sign it may begin with.
pub open spec fn unsigned(s: Seq<char>) -> Seq<char> {
    if s.len() > 0 && (s[0] == '-' || s[0] == '+') {
        s.skip(1)
    } else {
        s
    }
}

/// The seconds that `s` writes as `SS`, `M:SS` or `H:MM:SS`, each optionally
/// with a fractional part, in billionths.
pub open spec fn timecode_value(s: Seq<char>) -> Option<int> {
    let t = trimmed(s);
    let parts = pieces(unsigned(t), ':', 0);
    if t.len() == 0 || parts.len() > 3 {
        None
    } else {
        match fields_value(parts, 0, 0) {
            Some(v) if v <= i128::MAX => Some(
                if t[0] == '-' {
                    -v
                } else {
                    v
                },
            ),
            _ => None,
        }
    }
}

fn has_point(s: &[char]) -> (r: bool)
    ensures
        r == s@.contains('.'),
{
    let at: usize = find(s, '.', 0);
    proof {
        first_at_finds(s@, '.', 0);
        if at < s@.len() {
            assert(s@[at as int] == '.');
        }
    }
    at < s.len()
}

/// Parse `SS`, `M:SS`, or `H:MM:SS`, each optionally with a fractional part.
///
/// Returns `None` rather than a silently wrong value, so a typo in the UI cannot
/// move a mark somewhere unexpected.
pub fn parse(text: &str) -> (r: Option<i128>)
    ensures
        match r {
            Some(v) => timecode_value(text@) == Some(v as int),
            None => timecode_value(text@) is None,
        },
{
    let all: Vec<char> = chars_of(text);
    let t = trim(all.as_slice());
    if t.len() == 0 {
        return None;
    }
    let from: usize = if t[0] == '-' || t[0] == '+' {
        1
    } else {
        0
    };
    let body = slice_subrange(t, from, t.len());
    assert(body@ =~= unsigned(t@));
    let parts: Vec<&[char]> = split_text(body, ':');
    let ghost ps = pieces(body@, ':', 0);
    if parts.len() > 3 {
        assert(contents(parts@).len() == parts@.len());
        return None;
    }
    let mut total: i128 = 0;
    let mut i: usize = 0;
    while i < parts.len()
        invariant
            i <= parts@.len() <= 3,
            contents(parts@) == ps,
            ps == pieces(unsigned(t@), ':', 0),
            t@ == trimmed(text@),
            t@.len() > 0,
            0 <= total,
            fields_value(ps, 0, 0) == fields_value(ps, i as int, total as int),
        decreases parts@.len() - i,
    {
        let part = parts[i];
        assert(contents(parts@)[i as int] == part@);
        let last: bool = i + 1 == parts.len();
        let value: i128 = match parse_real(part) {
            Some(Real::Finite(v)) => v,
            _ => {
                return None;
            },
        };
        if (!last && has_point(part)) || value < 0 || (i > 0 && value >= 60 * UNIT) {
            return None;
        }
        proof {
            fields_grow(ps, i + 1, total * 60 + value);
        }
        if total > i128::MAX / 60 {
            return None;
        }
        if value > i128::MAX - total * 60 {
            return None;
        }
        total = total * 60 + value;
        i = i + 1;
    }
    if t[0] == '-' {
        Some(-total)
    } else {
        Some(total)
    }
}

proof fn fields_grow(parts: Seq<Seq<char>>, i: int, total: int)
    requires
        total >= 0,
    ensures
        fields_value(parts, i, total) matches Some(v) ==> v >= total,
    decreases parts.len() - i,
{
    if i < parts.len() {
        match field_value(parts, i) {
            Some(v) => fields_grow(parts, i + 1, total * 60 + v),
            None => {},
        }
    }
}

// ---- laws ---------------------------------------------------------------------

/// A field of digits alone is worth what it says.
proof fn digits_field(s: Seq<char>)
    requires
        s.len() > 0,
        all_digits(s),
        number(s) * UNIT <= i128::MAX,
    ensures
        real_number(s) == Some(Real::Finite((number(s) * UNIT) as i128)),
        !s.contains('.'),
        !s.contains(':'),
        !is_space(s[0]),
        s[0] != '-' && s[0] != '+',
{
    numeral_value(s, Seq::empty());
    assert(pow10(9) == UNIT) by {
        reveal_with_fuel(pow10, 10);
    }
    assert(is_digit(s[0]));
    assert forall|j: int| 0 <= j < s.len() implies s[j] != '.' && s[j] != ':' by {
        assert(is_digit(s[j]));
    }
}

/// Seconds and their thousandths are worth what they say, however many of the
/// places are written.
proof fn seconds_field(s: nat, part: nat, places: nat)
    requires
        s < 60,
        part < pow10(places),
        2 <= places <= 3,
    ensures
        ({
            let text = padded(s, 2).push('.') + padded(part, places);
            let worth = (s * pow10(places) + part) * pow10((9 - places) as nat);
            &&& worth < 60 * UNIT
            &&& real_number(text) == Some(Real::Finite(worth as i128))
            &&& !text.contains(':')
            &&& text.len() > 0
            &&& !is_space(text.last())
        }),
{
    let a = padded(s, 2);
    let b = padded(part, places);
    padded_reads_back(s, 2);
    padded_reads_back(part, places);
    assert(pow10(2) == 100 && pow10(3) == 1000 && pow10(6) == 1_000_000 && pow10(7) == 10_000_000)
        by {
        reveal_with_fuel(pow10, 8);
    }
    assert(digits(part).len() <= places) by {
        reveal_with_fuel(digits, 3);
    }
    numeral_value(a, b);
    number_of_two(a, b);
    let (p, q) = (pow10(places), pow10((9 - places) as nat));
    assert((s * p + part) * q < 60 * UNIT) by {
        if places == 2 {
            assert((s * p + part) * q == (s * 100 + part) * 10_000_000) by (nonlinear_arith)
                requires
                    p == 100,
                    q == 10_000_000,
            ;
        } else {
            assert((s * p + part) * q == (s * 1000 + part) * 1_000_000) by (nonlinear_arith)
                requires
                    p == 1000,
                    q == 1_000_000,
            ;
        }
    }
    let text = a.push('.') + b;
    assert forall|j: int| 0 <= j < text.len() implies text[j] != ':' by {
        if j < a.len() {
            assert(is_digit(a[j]));
            assert(text[j] == a[j]);
        } else if j > a.len() {
            assert(is_digit(b[j - a.len() - 1]));
            assert(text[j] == b[j - a.len() - 1]);
        }
    }
    assert(text.last() == b.last());
    assert(is_digit(b[b.len() - 1]));
}

/// Minutes and seconds are worth what they say.
proof fn minutes_read_back(m: nat, s: nat, cs: nat)
    requires
        m < 60,
        s < 60,
        cs < 100,
    ensures
        timecode_value(
            digits(m).push(':') + (padded(s, 2).push('.') + padded(cs, 2)),
        ) == Some((m * 60 * UNIT + (s * 100 + cs) * 10_000_000) as int),
{
    let tail = padded(s, 2).push('.') + padded(cs, 2);
    let text = digits(m).push(':') + tail;
    assert(pow10(2) == 100 && pow10(7) == 10_000_000) by {
        reveal_with_fuel(pow10, 8);
    }
    seconds_field(s, cs, 2);
    digits_read_back(m);
    digits_field(digits(m));
    pieces_of_one(tail, ':');
    pieces_of_parts(digits(m), ':', tail);
    let parts = pieces(text, ':', 0);
    assert(parts =~= seq![digits(m), tail]);
    assert(text[0] == digits(m)[0]);
    assert(text.last() == tail.last());
    trimmed_already(text);
    assert(field_value(parts, 0) == Some(m * UNIT));
    assert(field_value(parts, 1) == Some(((s * 100 + cs) * 10_000_000) as int));
    reveal_with_fuel(fields_value, 3);
}

/// Hours, minutes and seconds are worth what they say, where the hours are
/// written as `hs`.
proof fn hours_read_back(hs: Seq<char>, m: nat, s: nat, part: nat, places: nat)
    requires
        hs.len() > 0,
        all_digits(hs),
        number(hs) <= u64::MAX,
        m < 60,
        s < 60,
        part < pow10(places),
        2 <= places <= 3,
    ensures
        timecode_value(
            hs.push(':') + (padded(m, 2).push(':') + (padded(s, 2).push('.') + padded(
                part,
                places,
            ))),
        ) == Some(
            (number(hs) * 3600 * UNIT + m * 60 * UNIT + (s * pow10(places) + part) * pow10(
                (9 - places) as nat,
            )) as int,
        ),
{
    let tail = padded(s, 2).push('.') + padded(part, places);
    let rest = padded(m, 2).push(':') + tail;
    let text = hs.push(':') + rest;
    seconds_field(s, part, places);
    padded_reads_back(m, 2);
    digits_field(hs);
    digits_field(padded(m, 2));
    pieces_of_one(tail, ':');
    pieces_of_parts(padded(m, 2), ':', tail);
    pieces_of_parts(hs, ':', rest);
    let parts = pieces(text, ':', 0);
    assert(parts =~= seq![hs, padded(m, 2), tail]);
    assert(text[0] == hs[0]);
    assert(text.last() == tail.last());
    trimmed_already(text);
    let worth = (s * pow10(places) + part) * pow10((9 - places) as nat);
    assert(field_value(parts, 0) == Some(number(hs) * UNIT));
    assert(field_value(parts, 1) == Some(m * UNIT));
    assert(field_value(parts, 2) == Some(worth as int));
    reveal_with_fuel(fields_value, 4);
}

/// The fields of a span of whole milliseconds add up to it.
proof fn fields_add_up(total: nat)
    ensures
        total / 3_600_000 * 3600 * UNIT + total / 60_000 % 60 * 60 * UNIT + (total / 1000 % 60
            * 100 + total % 1000 / 10) * 10_000_000 == total / 10 * 10_000_000,
{
    let ts = total / 1000;
    assert(total / 60_000 == ts / 60);
    assert(total / 3_600_000 == ts / 3600);
    assert(ts / 3600 == ts / 60 / 60);
    let tm = ts / 60;
    assert(tm == tm / 60 * 60 + tm % 60);
    assert(ts == tm * 60 + ts % 60);
    assert(total / 10 == ts * 100 + total % 1000 / 10);
}

/// A timestamp is fully qualified: hours, minutes, seconds and milliseconds, each
/// at its full width. Read back, it is the time to the nearest millisecond.
pub proof fn a_timestamp_reads_back(t: i128)
    requires
        0 <= t,
        (t + 500_000) / 1_000_000 <= u64::MAX,
    ensures
        ({
            let text = timestamp_text(Real::Finite(t));
            let back = milliseconds(Real::Finite(t)) * 1_000_000;
            &&& timecode_value(text) == Some(back as int)
            &&& -500_000 < back - t <= 500_000
            &&& text.len() >= 12
        }),
{
    let r = Real::Finite(t);
    let total = milliseconds(r);
    let hs = padded(hours(r), 2);
    padded_reads_back(hours(r), 2);
    padded_reads_back(minutes(r), 2);
    padded_reads_back(whole_seconds(r), 2);
    padded_reads_back(millis(r), 3);
    assert(pow10(3) == 1000 && pow10(6) == 1_000_000) by {
        reveal_with_fuel(pow10, 7);
    }
    hours_read_back(hs, minutes(r), whole_seconds(r), millis(r), 3);
    assert(timestamp_text(r) =~= hs.push(':') + (padded(minutes(r), 2).push(':') + (padded(
        whole_seconds(r),
        2,
    ).push('.') + padded(millis(r), 3))));
    let ts = total / 1000;
    let tm = ts / 60;
    assert(total / 60_000 == tm && total / 3_600_000 == tm / 60);
    assert(tm == tm / 60 * 60 + tm % 60);
    assert(ts == tm * 60 + ts % 60);
    assert(total == ts * 1000 + total % 1000);
    assert(hours(r) * 3600 * UNIT + minutes(r) * 60 * UNIT + (whole_seconds(r) * 1000 + millis(r))
        * 1_000_000 == total * 1_000_000);
}

/// What the precise clock shows can be read back, and is within a hundredth of a
/// second of what it shows: every time that is not negative, up to the longest
/// the clock can show.
pub proof fn precise_clock_reads_back(t: i128)
    requires
        0 <= t,
        (t + 500_000) / 1_000_000 <= u64::MAX,
    ensures
        ({
            let shown = milliseconds(Real::Finite(t)) / 10 * 10_000_000;
            &&& timecode_value(precise_text(Real::Finite(t))) == Some(shown as int)
            &&& -10_000_000 < shown - t < 10_000_000
        }),
{
    let r = Real::Finite(t);
    let tail = padded(whole_seconds(r), 2).push('.') + padded(millis(r) / 10, 2);
    fields_add_up(milliseconds(r));
    assert(pow10(2) == 100 && pow10(7) == 10_000_000) by {
        reveal_with_fuel(pow10, 8);
    }
    if hours(r) > 0 {
        digits_read_back(hours(r));
        hours_read_back(digits(hours(r)), minutes(r), whole_seconds(r), millis(r) / 10, 2);
        assert(precise_text(r) =~= digits(hours(r)).push(':') + (padded(minutes(r), 2).push(':')
            + tail));
    } else {
        minutes_read_back(minutes(r), whole_seconds(r), millis(r) / 10);
        assert(precise_text(r) =~= digits(minutes(r)).push(':') + tail);
    }
}

/// The nanoseconds in so many hours, minutes, seconds and milliseconds.
pub open spec fn span_of(h: nat, m: nat, s: nat, ms: nat) -> nat {
    (((h * 60 + m) * 60 + s) * 1000 + ms) * 1_000_000
}

proof fn fields_of(h: nat, m: nat, s: nat, ms: nat)
    requires
        m < 60,
        s < 60,
        ms < 1000,
        ((h * 60 + m) * 60 + s) * 1000 + ms <= u64::MAX,
    ensures
        ({
            let r = Real::Finite(span_of(h, m, s, ms) as i128);
            &&& hours(r) == h
            &&& minutes(r) == m
            &&& whole_seconds(r) == s
            &&& millis(r) == ms
        }),
{
    let total = ((h * 60 + m) * 60 + s) * 1000 + ms;
    let t = span_of(h, m, s, ms);
    assert(t == total * 1_000_000);
    assert((t + 500_000) / 1_000_000 == total);
    assert(milliseconds(Real::Finite(t as i128)) == total);
    assert(total / 1000 == (h * 60 + m) * 60 + s);
    assert(total / 60_000 == h * 60 + m);
    assert(total / 3_600_000 == h);
}

/// A time is shown by what it is made of: for ffmpeg as `HH:MM:SS.mmm`, however many
/// hours; on the clock as `M:SS`, or `H:MM:SS` from an hour on; and with hundredths
/// where they matter.
pub proof fn a_time_is_shown_by_its_parts(h: nat, m: nat, s: nat, ms: nat)
    requires
        m < 60,
        s < 60,
        ms < 1000,
        ((h * 60 + m) * 60 + s) * 1000 + ms <= u64::MAX,
    ensures
        ({
            let r = Real::Finite(span_of(h, m, s, ms) as i128);
            let clock = if h == 0 {
                digits(m).push(':') + padded(s, 2)
            } else {
                digits(h).push(':') + padded(m, 2).push(':') + padded(s, 2)
            };
            &&& timestamp_text(r) == padded(h, 2).push(':') + padded(m, 2).push(':') + padded(
                s,
                2,
            ).push('.') + padded(ms, 3)
            &&& clock_text(r) == clock
            &&& precise_text(r) == clock.push('.') + padded(ms / 10, 2)
        }),
{
    fields_of(h, m, s, ms);
}

/// A time is shown to the nearest millisecond, and what is no time after the start as
/// the start itself.
pub proof fn a_time_is_shown_to_the_millisecond(t: i128, ms: nat)
    requires
        ms <= u64::MAX,
        -500_000 <= t - ms * 1_000_000 < 500_000,
        t >= 0,
    ensures
        ({
            let r = Real::Finite((ms * 1_000_000) as i128);
            &&& timestamp_text(Real::Finite(t)) == timestamp_text(r)
            &&& clock_text(Real::Finite(t)) == clock_text(r)
            &&& precise_text(Real::Finite(t)) == precise_text(r)
        }),
        forall|x: Real|
            #![trigger timestamp_text(x)]
            !(x is Finite) || x->Finite_0 <= 0 ==> timestamp_text(x) == timestamp_text(
                Real::Finite(0),
            ) && clock_text(x) == clock_text(Real::Finite(0)) && precise_text(x) == precise_text(
                Real::Finite(0),
            ),
{
    assert(milliseconds(Real::Finite(t)) == ms);
    assert(milliseconds(Real::Finite((ms * 1_000_000) as i128)) == ms);
    assert(milliseconds(Real::Finite(0)) == 0);
    assert forall|x: Real|
        #![trigger timestamp_text(x)]
        !(x is Finite) || x->Finite_0 <= 0 implies timestamp_text(x) == timestamp_text(
        Real::Finite(0),
    ) && clock_text(x) == clock_text(Real::Finite(0)) && precise_text(x) == precise_text(
        Real::Finite(0),
    ) by {
        assert(milliseconds(x) == 0);
    }
}

/// An offset shows its sign and one decimal, unless it is too small to tell.
pub proof fn an_offset_shows_its_sign(t: i128)
    requires
        t > i128::MIN,
    ensures
        -50_000_000 < t < 50_000_000 ==> offset_text(Real::Finite(t)) == "exact"@,
        t >= 50_000_000 ==> offset_text(Real::Finite(t)) == seq!['+'] + real_text(
            Real::Finite(t),
            1,
            false,
        ).push('s'),
        t <= -50_000_000 ==> offset_text(Real::Finite(t)) == seq!['-'] + real_text(
            Real::Finite((-t) as i128),
            1,
            false,
        ).push('s'),
{
    if t >= 50_000_000 {
        assert(offset_text(Real::Finite(t)) =~= seq!['+'] + real_text(
            Real::Finite(t),
            1,
            false,
        ).push('s'));
    }
    if t <= -50_000_000 {
        assert(offset_text(Real::Finite(t)) =~= seq!['-'] + real_text(
            Real::Finite((-t) as i128),
            1,
            false,
        ).push('s'));
    }
}

/// What a field is worth on its own: a number that is finite and not negative.
pub open spec fn worth(s: Seq<char>) -> Option<int> {
    match real_number(s) {
        Some(Real::Finite(v)) => if v >= 0 {
            Some(v as int)
        } else {
            None
        },
        _ => None,
    }
}

/// A field that can be told from its neighbours: no colon, no white space around it.
pub open spec fn is_field(s: Seq<char>) -> bool {
    &&& s.len() > 0
    &&& !s.contains(':')
    &&& !is_space(s[0])
    &&& !is_space(s.last())
}

/// Seconds alone are worth what they say, however many; and what is no number, or is
/// negative behind its sign, is no time.
pub proof fn seconds_are_read(a: Seq<char>)
    requires
        is_field(a),
        a[0] != '-' && a[0] != '+',
    ensures
        timecode_value(a) == worth(a),
        timecode_value(seq!['+'] + a) == worth(a),
        timecode_value(seq!['-'] + a) == match worth(a) {
            Some(v) => Some(-v),
            None => None,
        },
        timecode_value(Seq::empty()) is None,
{
    pieces_of_one(a, ':');
    let parts = pieces(a, ':', 0);
    assert(parts[0] == a);
    reveal_with_fuel(fields_value, 2);
    signed_times(a);
    assert(trimmed(Seq::<char>::empty()).len() == 0);
}

/// A sign in front of a time turns it round, and nothing else.
pub proof fn signed_times(s: Seq<char>)
    requires
        s.len() > 0,
        !is_space(s[0]),
        !is_space(s.last()),
        s[0] != '-' && s[0] != '+',
    ensures
        timecode_value(seq!['+'] + s) == timecode_value(s),
        timecode_value(seq!['-'] + s) == match timecode_value(s) {
            Some(v) => Some(-v),
            None => None,
        },
{
    let plus = seq!['+'] + s;
    let minus = seq!['-'] + s;
    trimmed_already(s);
    trimmed_already(plus);
    trimmed_already(minus);
    assert(plus.last() == s.last() && minus.last() == s.last());
    assert(plus.skip(1) =~= s);
    assert(minus.skip(1) =~= s);
}

/// Minutes and seconds are read together: the minutes count sixty seconds each and have
/// no fraction, the seconds are below sixty. Anything else is no time.
pub proof fn minutes_and_seconds_are_read(a: Seq<char>, b: Seq<char>)
    requires
        is_field(a),
        is_field(b),
        a[0] != '-' && a[0] != '+',
    ensures
        timecode_value(a.push(':') + b) == match (worth(a), worth(b)) {
            (Some(x), Some(y)) => if !a.contains('.') && y < 60_000_000_000 && x * 60 + y
                <= i128::MAX {
                Some(x * 60 + y)
            } else {
                None
            },
            _ => None,
        },
{
    let s = a.push(':') + b;
    pieces_of_parts(a, ':', b);
    pieces_of_one(b, ':');
    let parts = pieces(s, ':', 0);
    assert(parts =~= seq![a, b]);
    assert(s[0] == a[0] && s.last() == b.last());
    trimmed_already(s);
    reveal_with_fuel(fields_value, 3);
}

/// So are hours, minutes and seconds; and a fourth field is one too many.
pub proof fn hours_minutes_and_seconds_are_read(
    a: Seq<char>,
    b: Seq<char>,
    c: Seq<char>,
    d: Seq<char>,
)
    requires
        is_field(a),
        is_field(b),
        is_field(c),
        is_field(d),
        a[0] != '-' && a[0] != '+',
    ensures
        timecode_value(a.push(':') + (b.push(':') + c)) == match (worth(a), worth(b), worth(c)) {
            (Some(x), Some(y), Some(z)) => if !a.contains('.') && !b.contains('.') && y
                < 60_000_000_000 && z < 60_000_000_000 && (x * 60 + y) * 60 + z <= i128::MAX {
                Some((x * 60 + y) * 60 + z)
            } else {
                None
            },
            _ => None,
        },
        timecode_value(a.push(':') + (b.push(':') + (c.push(':') + d))) is None,
{
    let s = a.push(':') + (b.push(':') + c);
    pieces_of_parts(a, ':', b.push(':') + c);
    pieces_of_parts(b, ':', c);
    pieces_of_one(c, ':');
    let parts = pieces(s, ':', 0);
    assert(parts =~= seq![a, b, c]);
    assert(s[0] == a[0] && s.last() == c.last());
    trimmed_already(s);
    reveal_with_fuel(fields_value, 4);
    let t = a.push(':') + (b.push(':') + (c.push(':') + d));
    pieces_of_parts(a, ':', b.push(':') + (c.push(':') + d));
    pieces_of_parts(b, ':', c.push(':') + d);
    pieces_of_parts(c, ':', d);
    pieces_of_one(d, ':');
    assert(pieces(t, ':', 0) =~= seq![a, b, c, d]);
    assert(t[0] == a[0] && t.last() == d.last());
    trimmed_already(t);
}

/// Blanks around a time do not count.
pub proof fn blanks_around_a_time_do_not_count(
    before: Seq<char>,
    s: Seq<char>,
    after: Seq<char>,
)
    requires
        forall|i: int| 0 <= i < before.len() ==> is_space(#[trigger] before[i]),
        forall|i: int| 0 <= i < after.len() ==> is_space(#[trigger] after[i]),
        s.len() == 0 || !is_space(s[0]) && !is_space(s.last()),
    ensures
        timecode_value(before + s + after) == timecode_value(s),
        s.len() == 0 ==> timecode_value(before + s + after) is None,
{
    crate::text::trimming_drops_blanks_alone(before, s, after);
    crate::text::trimmed_already(s);
}

/// A time beyond the longest that is counted in milliseconds is shown as that one.
pub proof fn the_longest_time_is_shown_for_longer_ones(t: i128)
    requires
        t >= 0xffff_ffff_ffff_ffff * 1_000_000,
    ensures
        ({
            let r = Real::Finite((0xffff_ffff_ffff_ffff * 1_000_000) as i128);
            &&& timestamp_text(Real::Finite(t)) == timestamp_text(r)
            &&& clock_text(Real::Finite(t)) == clock_text(r)
            &&& precise_text(Real::Finite(t)) == precise_text(r)
        }),
{
    assert((t + 500_000) / 1_000_000 >= 0xffff_ffff_ffff_ffff);
}

/// An offset that is no number is shown by its name.
pub proof fn an_offset_beyond_all_numbers_is_shown_by_name()
    ensures
        offset_text(Real::PosInf) == seq!['+', 'i', 'n', 'f', 's'],
        offset_text(Real::NegInf) == seq!['-', 'i', 'n', 'f', 's'],
        offset_text(Real::NaN) == seq!['N', 'a', 'N', 's'],
{
    crate::fixed::what_is_beyond_is_shown_by_name(1);
    assert(seq!['+', 'i', 'n', 'f'].push('s') =~= seq!['+', 'i', 'n', 'f', 's']);
    assert(seq!['-', 'i', 'n', 'f'].push('s') =~= seq!['-', 'i', 'n', 'f', 's']);
    assert(seq!['N', 'a', 'N'].push('s') =~= seq!['N', 'a', 'N', 's']);
}

} // verus!
