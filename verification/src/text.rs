//! Reading and writing text, character by character.
//!
//! Everything that ffmpeg, ffprobe or the user hands over arrives as text, and
//! everything the library hands back to them is text. The spec functions here
//! say what trimming, splitting and writing numbers mean on sequences of
//! characters; the executable functions compute exactly that.

use vstd::prelude::*;
use vstd::slice::slice_subrange;

verus! {

/// `String::push` appends the given character to the end of the string.
pub assume_specification[ String::push ](s: &mut String, c: char)
    ensures
        final(s)@ == old(s)@.push(c),
;

// ---- characters -----------------------------------------------------------

/// The characters that carry Unicode's White_Space property.
pub open spec fn is_space(c: char) -> bool {
    ||| '\u{9}' <= c && c <= '\u{d}'
    ||| c == ' '
    ||| c == '\u{85}'
    ||| c == '\u{a0}'
    ||| c == '\u{1680}'
    ||| '\u{2000}' <= c && c <= '\u{200a}'
    ||| c == '\u{2028}'
    ||| c == '\u{2029}'
    ||| c == '\u{202f}'
    ||| c == '\u{205f}'
    ||| c == '\u{3000}'
}

pub open spec fn is_digit(c: char) -> bool {
    '0' <= c && c <= '9'
}

/// What a decimal digit is worth.
pub open spec fn digit_value(c: char) -> nat {
    (c as int - '0' as int) as nat
}

/// The decimal digit worth `d`.
pub open spec fn digit_char(d: nat) -> char {
    ('0' as int + d) as char
}

/// An ASCII capital letter made small; any other character unchanged.
pub open spec fn lower(c: char) -> char {
    if 'A' <= c && c <= 'Z' {
        (c as int + 32) as char
    } else {
        c
    }
}

pub open spec fn lowered(s: Seq<char>) -> Seq<char> {
    s.map_values(|c: char| lower(c))
}

pub fn space(c: char) -> (r: bool)
    ensures
        r == is_space(c),
{
    ('\u{9}' <= c && c <= '\u{d}') || c == ' ' || c == '\u{85}' || c == '\u{a0}' || c == '\u{1680}'
        || ('\u{2000}' <= c && c <= '\u{200a}') || c == '\u{2028}' || c == '\u{2029}' || c
        == '\u{202f}' || c == '\u{205f}' || c == '\u{3000}'
}

pub fn digit(c: char) -> (r: bool)
    ensures
        r == is_digit(c),
{
    '0' <= c && c <= '9'
}

pub fn small(c: char) -> (r: char)
    ensures
        r == lower(c),
{
    if 'A' <= c && c <= 'Z' {
        let n: u8 = c as u8;
        (n + 32) as char
    } else {
        c
    }
}

// ---- between strings and characters ---------------------------------------

pub fn chars_of(text: &str) -> (out: Vec<char>)
    ensures
        out@ == text@,
{
    let mut out: Vec<char> = Vec::new();
    for c in it: text.chars()
        invariant
            out@ == text@.take(it.index()),
            it.seq() == text@,
    {
        out.push(c);
    }
    out
}

pub fn text_of(chars: &[char]) -> (out: String)
    ensures
        out@ == chars@,
{
    let mut out: String = String::new();
    let mut i: usize = 0;
    while i < chars.len()
        invariant
            i <= chars@.len(),
            out@ == chars@.take(i as int),
        decreases chars@.len() - i,
    {
        out.push(chars[i]);
        i = i + 1;
        assert(chars@.take(i as int) == chars@.take(i - 1).push(chars@[i - 1]));
    }
    assert(chars@.take(i as int) == chars@);
    out
}

pub fn vec_of(chars: &[char]) -> (out: Vec<char>)
    ensures
        out@ == chars@,
{
    let mut out: Vec<char> = Vec::new();
    let mut i: usize = 0;
    while i < chars.len()
        invariant
            i <= chars@.len(),
            out@ == chars@.take(i as int),
        decreases chars@.len() - i,
    {
        out.push(chars[i]);
        i += 1;
        assert(chars@.take(i as int) =~= chars@.take(i - 1).push(chars@[i - 1]));
    }
    assert(chars@.take(i as int) =~= chars@);
    out
}

/// Whether the characters spell out `word`.
pub fn spells(s: &[char], word: &str) -> (r: bool)
    ensures
        r == (s@ == word@),
{
    let w: Vec<char> = chars_of(word);
    same(s, w.as_slice())
}

pub fn same(a: &[char], b: &[char]) -> (r: bool)
    ensures
        r == (a@ == b@),
{
    if a.len() != b.len() {
        return false;
    }
    let mut i: usize = 0;
    while i < a.len()
        invariant
            i <= a@.len() == b@.len(),
            forall|j: int| 0 <= j < i ==> a@[j] == b@[j],
        decreases a@.len() - i,
    {
        if a[i] != b[i] {
            return false;
        }
        i = i + 1;
    }
    assert(a@ =~= b@);
    true
}

/// Whether the characters spell out `word` when capitals count as small letters.
pub fn spells_ignoring_case(s: &[char], word: &str) -> (r: bool)
    ensures
        r == (lowered(s@) == lowered(word@)),
{
    let w: Vec<char> = chars_of(word);
    if s.len() != w.len() {
        assert(lowered(s@).len() != lowered(word@).len());
        return false;
    }
    let mut i: usize = 0;
    while i < s.len()
        invariant
            i <= s@.len() == w@.len(),
            w@ == word@,
            forall|j: int| 0 <= j < i ==> lower(s@[j]) == lower(w@[j]),
        decreases s@.len() - i,
    {
        if small(s[i]) != small(w[i]) {
            assert(lowered(s@)[i as int] != lowered(word@)[i as int]);
            return false;
        }
        i = i + 1;
    }
    assert(lowered(s@) =~= lowered(word@));
    true
}

pub open spec fn begins_with(s: Seq<char>, prefix: Seq<char>) -> bool {
    prefix.len() <= s.len() && s.take(prefix.len() as int) == prefix
}

pub fn starts_with(s: &[char], prefix: &str) -> (r: bool)
    ensures
        r == begins_with(s@, prefix@),
{
    let p: Vec<char> = chars_of(prefix);
    if p.len() > s.len() {
        return false;
    }
    same(slice_subrange(s, 0, p.len()), p.as_slice())
}

// ---- trimming ---------------------------------------------------------------

/// `s` without the white space it begins with.
pub open spec fn trimmed_start(s: Seq<char>) -> Seq<char>
    decreases s.len(),
{
    if s.len() > 0 && is_space(s[0]) {
        trimmed_start(s.skip(1))
    } else {
        s
    }
}

/// `s` without the white space it ends with.
pub open spec fn trimmed_end(s: Seq<char>) -> Seq<char>
    decreases s.len(),
{
    if s.len() > 0 && is_space(s.last()) {
        trimmed_end(s.drop_last())
    } else {
        s
    }
}

pub open spec fn trimmed(s: Seq<char>) -> Seq<char> {
    trimmed_end(trimmed_start(s))
}

/// `s` without the run of `a` and `b` it ends with.
pub open spec fn without_trailing(s: Seq<char>, a: char, b: char) -> Seq<char>
    decreases s.len(),
{
    if s.len() > 0 && (s.last() == a || s.last() == b) {
        without_trailing(s.drop_last(), a, b)
    } else {
        s
    }
}

pub fn trim(s: &[char]) -> (r: &[char])
    ensures
        r@ == trimmed(s@),
{
    let mut i: usize = 0;
    assert(s@.skip(0) =~= s@);
    while i < s.len() && space(s[i])
        invariant
            i <= s@.len(),
            trimmed_start(s@) == trimmed_start(s@.skip(i as int)),
        decreases s@.len() - i,
    {
        assert(s@.skip(i as int).skip(1) =~= s@.skip(i + 1));
        i = i + 1;
    }
    assert(trimmed_start(s@) == s@.skip(i as int));
    let mut j: usize = s.len();
    assert(s@.subrange(i as int, j as int) =~= s@.skip(i as int));
    while j > i && space(s[j - 1])
        invariant
            i <= j <= s@.len(),
            trimmed(s@) == trimmed_end(s@.subrange(i as int, j as int)),
        decreases j,
    {
        assert(s@.subrange(i as int, j as int).drop_last() =~= s@.subrange(i as int, j - 1));
        j = j - 1;
    }
    slice_subrange(s, i, j)
}

pub fn trim_trailing(s: &[char], a: char, b: char) -> (r: &[char])
    ensures
        r@ == without_trailing(s@, a, b),
{
    let mut j: usize = s.len();
    assert(s@.take(j as int) =~= s@);
    while j > 0 && (s[j - 1] == a || s[j - 1] == b)
        invariant
            j <= s@.len(),
            without_trailing(s@, a, b) == without_trailing(s@.take(j as int), a, b),
        decreases j,
    {
        assert(s@.take(j as int).drop_last() =~= s@.take(j - 1));
        j = j - 1;
    }
    assert(s@.take(j as int) =~= s@.subrange(0, j as int));
    slice_subrange(s, 0, j)
}

// ---- finding and splitting --------------------------------------------------

/// The first position from `from` on that holds `c`, or the length of `s`.
pub open spec fn first_at(s: Seq<char>, c: char, from: int) -> int
    decreases s.len() - from,
{
    if from >= s.len() {
        s.len() as int
    } else if s[from] == c {
        from
    } else {
        first_at(s, c, from + 1)
    }
}

/// The last position before `to` that holds `c`, or -1.
pub open spec fn last_before(s: Seq<char>, c: char, to: int) -> int
    decreases to,
{
    if to <= 0 {
        -1
    } else if s[to - 1] == c {
        to - 1
    } else {
        last_before(s, c, to - 1)
    }
}

pub proof fn first_at_finds(s: Seq<char>, c: char, from: int)
    requires
        0 <= from <= s.len(),
    ensures
        from <= first_at(s, c, from) <= s.len(),
        first_at(s, c, from) < s.len() ==> s[first_at(s, c, from)] == c,
        forall|j: int| from <= j < first_at(s, c, from) ==> s[j] != c,
    decreases s.len() - from,
{
    if from < s.len() && s[from] != c {
        first_at_finds(s, c, from + 1);
    }
}

/// The position found is the only one with nothing but other characters before it.
pub proof fn first_at_is(s: Seq<char>, c: char, from: int, at: int)
    requires
        0 <= from <= at <= s.len(),
        forall|j: int| from <= j < at ==> s[j] != c,
        at < s.len() ==> s[at] == c,
    ensures
        first_at(s, c, from) == at,
    decreases at - from,
{
    if from < at {
        first_at_is(s, c, from + 1, at);
    }
}

pub proof fn last_before_finds(s: Seq<char>, c: char, to: int)
    requires
        0 <= to <= s.len(),
    ensures
        -1 <= last_before(s, c, to) < to || to == 0 && last_before(s, c, to) == -1,
        last_before(s, c, to) >= 0 ==> s[last_before(s, c, to)] == c,
        forall|j: int| last_before(s, c, to) < j < to ==> s[j] != c,
    decreases to,
{
    if to > 0 && s[to - 1] != c {
        last_before_finds(s, c, to - 1);
    }
}

pub fn find(s: &[char], c: char, from: usize) -> (at: usize)
    requires
        from <= s@.len(),
    ensures
        at == first_at(s@, c, from as int),
        from <= at <= s@.len(),
{
    let mut i: usize = from;
    while i < s.len() && s[i] != c
        invariant
            from <= i <= s@.len(),
            first_at(s@, c, from as int) == first_at(s@, c, i as int),
        decreases s@.len() - i,
    {
        i = i + 1;
    }
    i
}

/// The last place of `c` in `s`.
pub fn find_last(s: &[char], c: char) -> (r: Option<usize>)
    ensures
        match r {
            Some(at) => at == last_before(s@, c, s@.len() as int) && at < s@.len(),
            None => last_before(s@, c, s@.len() as int) == -1,
        },
{
    let mut i: usize = s.len();
    while i > 0
        invariant
            i <= s@.len(),
            last_before(s@, c, s@.len() as int) == last_before(s@, c, i as int),
        decreases i,
    {
        if s[i - 1] == c {
            return Some(i - 1);
        }
        i -= 1;
    }
    None
}

/// The parts of `s` from `from` on that the separator `c` keeps apart.
pub open spec fn pieces(s: Seq<char>, c: char, from: int) -> Seq<Seq<char>>
    decreases s.len() - from,
{
    let i = first_at(s, c, from);
    if from <= i && i < s.len() {
        seq![s.subrange(from, i)] + pieces(s, c, i + 1)
    } else {
        seq![s.skip(from)]
    }
}

/// What a row of strings holds.
pub open spec fn texts(v: Seq<String>) -> Seq<Seq<char>> {
    v.map_values(|s: String| s@)
}

/// What the vector's slices hold.
pub open spec fn contents(v: Seq<&[char]>) -> Seq<Seq<char>> {
    v.map_values(|p: &[char]| p@)
}

pub fn split<'a>(s: &'a [char], c: char) -> (out: Vec<&'a [char]>)
    ensures
        contents(out@) == pieces(s@, c, 0),
{
    let mut out: Vec<&'a [char]> = Vec::new();
    let mut from: usize = 0;
    assert(contents(out@) =~= Seq::<Seq<char>>::empty());
    assert(contents(out@) + pieces(s@, c, 0) =~= pieces(s@, c, 0));
    loop
        invariant_except_break
            from <= s@.len(),
            contents(out@) + pieces(s@, c, from as int) == pieces(s@, c, 0),
        ensures
            contents(out@) == pieces(s@, c, 0),
        decreases s@.len() - from,
    {
        let at: usize = find(s, c, from);
        let ghost before = out@;
        if at < s.len() {
            let part = slice_subrange(s, from, at);
            out.push(part);
            proof {
                assert(contents(out@) =~= contents(before).push(part@));
                assert(contents(out@) + pieces(s@, c, at + 1) =~= contents(before) + pieces(
                    s@,
                    c,
                    from as int,
                ));
            }
            from = at + 1;
        } else {
            let part = slice_subrange(s, from, s.len());
            out.push(part);
            proof {
                assert(part@ =~= s@.skip(from as int));
                assert(contents(out@) =~= contents(before) + pieces(s@, c, from as int));
            }
            break;
        }
    }
    out
}

/// A line without the carriage return that may stand before its line feed.
pub open spec fn chomped(line: Seq<char>) -> Seq<char> {
    if line.len() > 0 && line.last() == '\r' {
        line.drop_last()
    } else {
        line
    }
}

/// The lines of `s` from `from` on. Each ends at a line feed, or a carriage
/// return and a line feed; the last may go without.
pub open spec fn lines_from(s: Seq<char>, from: int) -> Seq<Seq<char>>
    decreases s.len() - from,
{
    let i = first_at(s, '\n', from);
    if from >= s.len() {
        Seq::empty()
    } else if from <= i && i < s.len() {
        seq![chomped(s.subrange(from, i))] + lines_from(s, i + 1)
    } else {
        seq![s.skip(from)]
    }
}

pub fn lines<'a>(s: &'a [char]) -> (out: Vec<&'a [char]>)
    ensures
        contents(out@) == lines_from(s@, 0),
{
    let mut out: Vec<&'a [char]> = Vec::new();
    let mut from: usize = 0;
    assert(contents(out@) =~= Seq::<Seq<char>>::empty());
    assert(contents(out@) + lines_from(s@, 0) =~= lines_from(s@, 0));
    while from < s.len()
        invariant
            from <= s@.len(),
            contents(out@) + lines_from(s@, from as int) == lines_from(s@, 0),
        decreases s@.len() - from,
    {
        let at: usize = find(s, '\n', from);
        let ghost before = out@;
        if at < s.len() {
            let end: usize = if at > from && s[at - 1] == '\r' {
                at - 1
            } else {
                at
            };
            let line = slice_subrange(s, from, end);
            out.push(line);
            proof {
                assert(line@ =~= chomped(s@.subrange(from as int, at as int)));
                assert(contents(out@) =~= contents(before).push(line@));
                assert(contents(out@) + lines_from(s@, at + 1) =~= contents(before) + lines_from(
                    s@,
                    from as int,
                ));
            }
            from = at + 1;
        } else {
            let line = slice_subrange(s, from, s.len());
            out.push(line);
            proof {
                assert(line@ =~= s@.skip(from as int));
                assert(lines_from(s@, s@.len() as int) =~= Seq::<Seq<char>>::empty());
                assert(contents(out@) + lines_from(s@, s@.len() as int) =~= contents(before)
                    + lines_from(s@, from as int));
            }
            from = s.len();
        }
    }
    assert(lines_from(s@, from as int) =~= Seq::<Seq<char>>::empty());
    assert(contents(out@) + lines_from(s@, from as int) =~= contents(out@));
    out
}

/// The first position from `from` on that is white space (or is not, when
/// `wanted` is false), or the length of `s`.
pub open spec fn space_at(s: Seq<char>, wanted: bool, from: int) -> int
    decreases s.len() - from,
{
    if from >= s.len() {
        s.len() as int
    } else if is_space(s[from]) == wanted {
        from
    } else {
        space_at(s, wanted, from + 1)
    }
}

/// The second of the words that white space keeps apart.
pub open spec fn second_word(s: Seq<char>) -> Option<Seq<char>> {
    let first = space_at(s, false, 0);
    let gap = space_at(s, true, first);
    let start = space_at(s, false, gap);
    let end = space_at(s, true, start);
    if start < s.len() {
        Some(s.subrange(start, end))
    } else {
        None
    }
}

fn find_space(s: &[char], wanted: bool, from: usize) -> (at: usize)
    requires
        from <= s@.len(),
    ensures
        at == space_at(s@, wanted, from as int),
        from <= at <= s@.len(),
{
    let mut i: usize = from;
    while i < s.len() && space(s[i]) != wanted
        invariant
            from <= i <= s@.len(),
            space_at(s@, wanted, from as int) == space_at(s@, wanted, i as int),
        decreases s@.len() - i,
    {
        i = i + 1;
    }
    i
}

pub fn word_two<'a>(s: &'a [char]) -> (r: Option<&'a [char]>)
    ensures
        match r {
            Some(w) => second_word(s@) == Some(w@),
            None => second_word(s@) is None,
        },
{
    let first: usize = find_space(s, false, 0);
    let gap: usize = find_space(s, true, first);
    let start: usize = find_space(s, false, gap);
    let end: usize = find_space(s, true, start);
    if start < s.len() {
        Some(slice_subrange(s, start, end))
    } else {
        None
    }
}

// ---- numbers ------------------------------------------------------------------

/// `n` in decimal, without leading zeros.
pub open spec fn digits(n: nat) -> Seq<char>
    decreases n,
{
    if n < 10 {
        seq![digit_char(n)]
    } else {
        digits(n / 10).push(digit_char(n % 10))
    }
}

/// `n` in decimal, with zeros in front up to `width` characters.
pub open spec fn padded(n: nat, width: nat) -> Seq<char> {
    zeros((width - digits(n).len()) as int) + digits(n)
}

pub open spec fn zeros(count: int) -> Seq<char> {
    Seq::new(if count > 0 { count as nat } else { 0 }, |i: int| '0')
}

pub open spec fn all_digits(s: Seq<char>) -> bool {
    forall|i: int| 0 <= i < s.len() ==> is_digit(#[trigger] s[i])
}

/// What a run of decimal digits is worth.
pub open spec fn number(s: Seq<char>) -> nat
    decreases s.len(),
{
    if s.len() == 0 {
        0
    } else {
        number(s.drop_last()) * 10 + digit_value(s.last())
    }
}

/// The whole number that `s` writes, if it writes one that is no more than
/// `max`: at least one digit, with at most a plus sign in front.
pub open spec fn whole_number(s: Seq<char>, max: nat) -> Option<nat> {
    let body = if s.len() > 0 && s[0] == '+' {
        s.skip(1)
    } else {
        s
    };
    if body.len() > 0 && all_digits(body) && number(body) <= max {
        Some(number(body))
    } else {
        None
    }
}

pub fn push_digits(out: &mut String, n: u128)
    ensures
        final(out)@ == old(out)@ + digits(n as nat),
    decreases n,
{
    if n >= 10 {
        push_digits(out, n / 10);
        let d: u8 = (n % 10) as u8;
        out.push((48 + d) as char);
    } else {
        let d: u8 = n as u8;
        out.push((48 + d) as char);
    }
    assert(out@ =~= old(out)@ + digits(n as nat));
}

fn count_digits(n: u128) -> (r: usize)
    ensures
        r == digits(n as nat).len(),
        r <= 39,
{
    proof {
        reveal_with_fuel(pow10, 40);
        digits_are_few(n as nat, 39);
    }
    let mut left: u128 = n;
    let mut count: usize = 1;
    while left >= 10
        invariant
            count - 1 + digits(left as nat).len() == digits(n as nat).len(),
            digits(n as nat).len() <= 39,
        decreases left,
    {
        left = left / 10;
        count = count + 1;
    }
    count
}

proof fn digits_are_few(n: nat, k: nat)
    requires
        k > 0,
        n < pow10(k),
    ensures
        1 <= digits(n).len() <= k,
    decreases k,
{
    if n >= 10 {
        if k == 1 {
            assert(pow10(1) == 10) by {
                reveal_with_fuel(pow10, 2);
            }
        } else {
            assert(pow10(k) == 10 * pow10((k - 1) as nat));
            digits_are_few(n / 10, (k - 1) as nat);
        }
    }
}

pub open spec fn pow10(k: nat) -> nat
    decreases k,
{
    if k == 0 {
        1
    } else {
        10 * pow10((k - 1) as nat)
    }
}

pub fn push_padded(out: &mut String, n: u128, width: usize)
    ensures
        final(out)@ == old(out)@ + padded(n as nat, width as nat),
{
    let have: usize = count_digits(n);
    let ghost start = out@;
    let mut i: usize = have;
    assert(zeros(0) =~= Seq::<char>::empty());
    assert(start + zeros(0) =~= start);
    while i < width
        invariant
            have == digits(n as nat).len(),
            have <= i,
            have <= width ==> i <= width,
            have > width ==> i == have,
            out@ == start + zeros(i - have),
        decreases width - i,
    {
        out.push('0');
        i = i + 1;
        assert(zeros(i - have) =~= zeros(i - 1 - have).push('0'));
        assert(out@ =~= start + zeros(i - have));
    }
    assert(zeros(i - have) =~= zeros(width - have));
    push_digits(out, n);
    assert(out@ =~= start + padded(n as nat, width as nat));
}

pub fn parse_whole(s: &[char], max: u64) -> (r: Option<u64>)
    ensures
        match r {
            Some(n) => whole_number(s@, max as nat) == Some(n as nat),
            None => whole_number(s@, max as nat) is None,
        },
{
    let from: usize = if s.len() > 0 && s[0] == '+' {
        1
    } else {
        0
    };
    let body = slice_subrange(s, from, s.len());
    proof {
        if from == 1 {
            assert(body@ =~= s@.skip(1));
        } else {
            assert(body@ =~= s@);
        }
    }
    if body.len() == 0 {
        return None;
    }
    let mut total: u64 = 0;
    let mut i: usize = 0;
    while i < body.len()
        invariant
            i <= body@.len(),
            body@.len() > 0,
            total <= max,
            total == number(body@.take(i as int)),
            forall|j: int| 0 <= j < i ==> is_digit(#[trigger] body@[j]),
            whole_number(s@, max as nat) == (if all_digits(body@) && number(body@) <= max {
                Some(number(body@))
            } else {
                None::<nat>
            }),
        decreases body@.len() - i,
    {
        let c: char = body[i];
        if !digit(c) {
            assert(!is_digit(body@[i as int]));
            return None;
        }
        let d: u64 = (c as u8 - 48) as u64;
        let next: u128 = total as u128 * 10 + d as u128;
        proof {
            assert(body@.take(i + 1).drop_last() =~= body@.take(i as int));
            assert(next == number(body@.take(i + 1)));
            assert(body@.take(i + 1) + body@.skip(i + 1) =~= body@);
            number_grows(body@.take(i + 1), body@.skip(i + 1));
        }
        if next > max as u128 {
            return None;
        }
        total = next as u64;
        i = i + 1;
    }
    assert(body@.take(i as int) =~= body@);
    Some(total)
}

pub proof fn number_grows(a: Seq<char>, b: Seq<char>)
    ensures
        number(a) <= number(a + b),
    decreases b.len(),
{
    if b.len() == 0 {
        assert(a + b =~= a);
    } else {
        assert((a + b).drop_last() =~= a + b.drop_last());
        number_grows(a, b.drop_last());
    }
}

/// Writing a number and reading it back gives the number.
pub proof fn digits_read_back(n: nat)
    ensures
        number(digits(n)) == n,
        all_digits(digits(n)),
        digits(n).len() > 0,
    decreases n,
{
    if n < 10 {
        assert(digits(n).drop_last() =~= Seq::<char>::empty());
        assert(number(digits(n).drop_last()) == 0);
    } else {
        digits_read_back(n / 10);
        assert(digits(n).drop_last() =~= digits(n / 10));
    }
}

/// Zeros in front change nothing.
pub proof fn padded_reads_back(n: nat, width: nat)
    ensures
        number(padded(n, width)) == n,
        all_digits(padded(n, width)),
        padded(n, width).len() > 0,
        padded(n, width).len() == if digits(n).len() < width { width } else { digits(n).len() },
{
    digits_read_back(n);
    let z = zeros((width - digits(n).len()) as int);
    zeros_add_nothing(z, digits(n));
}

proof fn zeros_add_nothing(z: Seq<char>, s: Seq<char>)
    requires
        forall|i: int| 0 <= i < z.len() ==> z[i] == '0',
    ensures
        number(z + s) == number(s),
    decreases s.len() + z.len(),
{
    if s.len() == 0 {
        assert(z + s =~= z);
        if z.len() > 0 {
            assert(z.drop_last() + s =~= z.drop_last());
            zeros_add_nothing(z.drop_last(), s);
        }
    } else {
        assert((z + s).drop_last() =~= z + s.drop_last());
        zeros_add_nothing(z, s.drop_last());
    }
}

// ---- how the readings fit together --------------------------------------------

/// Nothing before `from` matters to what is found from there on.
proof fn first_at_moves(a: Seq<char>, b: Seq<char>, c: char, from: int)
    requires
        0 <= from <= b.len(),
    ensures
        first_at(a + b, c, a.len() + from) == a.len() + first_at(b, c, from),
    decreases b.len() - from,
{
    if from < b.len() && b[from] != c {
        first_at_moves(a, b, c, from + 1);
    }
}

proof fn pieces_move(a: Seq<char>, b: Seq<char>, c: char, from: int)
    requires
        0 <= from <= b.len(),
    ensures
        pieces(a + b, c, a.len() + from) == pieces(b, c, from),
    decreases b.len() - from,
{
    first_at_moves(a, b, c, from);
    first_at_finds(b, c, from);
    let i = first_at(b, c, from);
    if i < b.len() {
        pieces_move(a, b, c, i + 1);
        assert((a + b).subrange(a.len() + from, a.len() + i) =~= b.subrange(from, i));
    } else {
        assert((a + b).skip(a.len() + from) =~= b.skip(from));
    }
}

/// A part without the separator comes apart from the rest.
pub proof fn pieces_of_parts(a: Seq<char>, c: char, rest: Seq<char>)
    requires
        !a.contains(c),
    ensures
        pieces(a.push(c) + rest, c, 0) == seq![a] + pieces(rest, c, 0),
{
    let s = a.push(c) + rest;
    assert forall|j: int| 0 <= j < a.len() implies s[j] != c by {
        assert(s[j] == a[j]);
    }
    first_at_is(s, c, 0, a.len() as int);
    pieces_move(a.push(c), rest, c, 0);
    assert(s.subrange(0, a.len() as int) =~= a);
}

/// Text without the separator is one part.
pub proof fn pieces_of_one(a: Seq<char>, c: char)
    requires
        !a.contains(c),
    ensures
        pieces(a, c, 0) == seq![a],
{
    first_at_finds(a, c, 0);
    assert(a.skip(0) =~= a);
}

/// Text that neither begins nor ends with white space has nothing to trim.
pub proof fn trimmed_already(s: Seq<char>)
    requires
        s.len() == 0 || (!is_space(s[0]) && !is_space(s.last())),
    ensures
        trimmed(s) == s,
{
}

/// What two runs of digits are worth side by side.
pub proof fn number_of_two(a: Seq<char>, b: Seq<char>)
    ensures
        number(a + b) == number(a) * pow10(b.len()) + number(b),
    decreases b.len(),
{
    if b.len() == 0 {
        assert(a + b =~= a);
        assert(number(a) * 1 == number(a));
    } else {
        assert((a + b).drop_last() =~= a + b.drop_last());
        number_of_two(a, b.drop_last());
        let x = number(a);
        let p = pow10((b.len() - 1) as nat);
        assert((x * p) * 10 == x * (10 * p)) by (nonlinear_arith);
    }
}

// ---- bytes --------------------------------------------------------------------

/// The text that `String::from_utf8_lossy` makes of the bytes.
pub uninterp spec fn lossy_text(bytes: Seq<u8>) -> Seq<char>;

/// The text of bytes that are all ASCII.
pub open spec fn ascii_text(bytes: Seq<u8>) -> Seq<char> {
    Seq::new(bytes.len(), |i: int| bytes[i] as char)
}

pub open spec fn all_ascii(bytes: Seq<u8>) -> bool {
    forall|i: int| 0 <= i < bytes.len() ==> #[trigger] bytes[i] < 128
}

/// Calls `String::from_utf8_lossy`, which replaces what is not UTF-8. That the
/// result rests on the bytes alone, and that ASCII comes through unchanged, is
/// taken from its documentation.
#[verifier::external_body]
pub(crate) fn decode(bytes: &[u8]) -> (r: String)
    ensures
        r@ == lossy_text(bytes@),
        all_ascii(bytes@) ==> r@ == ascii_text(bytes@),
{
    String::from_utf8_lossy(bytes).into_owned()
}

// ---- order --------------------------------------------------------------------

/// `a` stands before `b` in a dictionary, or they are the same.
pub open spec fn text_le(a: Seq<char>, b: Seq<char>) -> bool
    decreases a.len(),
{
    if a.len() == 0 {
        true
    } else if b.len() == 0 {
        false
    } else if a[0] != b[0] {
        a[0] < b[0]
    } else {
        text_le(a.skip(1), b.skip(1))
    }
}

pub proof fn text_le_total(a: Seq<char>, b: Seq<char>)
    ensures
        text_le(a, b) || text_le(b, a),
        text_le(a, b) && text_le(b, a) ==> a == b,
        text_le(a, a),
    decreases a.len(),
{
    if a.len() > 0 {
        text_le_total(a.skip(1), a.skip(1));
        if b.len() > 0 {
            text_le_total(a.skip(1), b.skip(1));
            if text_le(a, b) && text_le(b, a) {
                assert(a =~= seq![a[0]] + a.skip(1));
                assert(b =~= seq![b[0]] + b.skip(1));
            }
        }
    } else if text_le(b, a) {
        assert(a =~= b);
    }
}

pub proof fn text_le_chains(a: Seq<char>, b: Seq<char>, c: Seq<char>)
    requires
        text_le(a, b),
        text_le(b, c),
    ensures
        text_le(a, c),
    decreases a.len(),
{
    if a.len() > 0 && a[0] == b[0] && b[0] == c[0] {
        text_le_chains(a.skip(1), b.skip(1), c.skip(1));
    }
}

pub fn in_order(a: &[char], b: &[char]) -> (r: bool)
    ensures
        r == text_le(a@, b@),
{
    let mut i: usize = 0;
    assert(a@.skip(0) =~= a@ && b@.skip(0) =~= b@);
    while i < a.len()
        invariant
            i <= a@.len(),
            i <= b@.len(),
            text_le(a@, b@) == text_le(a@.skip(i as int), b@.skip(i as int)),
        decreases a@.len() - i,
    {
        if i == b.len() {
            return false;
        }
        if a[i] != b[i] {
            return a[i] < b[i];
        }
        assert(a@.skip(i as int).skip(1) =~= a@.skip(i + 1));
        assert(b@.skip(i as int).skip(1) =~= b@.skip(i + 1));
        i += 1;
    }
    true
}

// ---- laws ---------------------------------------------------------------------

/// White space is the blanks and line ends of any script, and nothing that is
/// written: no letter, digit or sign of ASCII is white space, and ASCII has six.
pub proof fn what_white_space_is(c: char)
    ensures
        c == ' ' || c == '\t' || c == '\n' || c == '\r' || c == '\u{b}' || c == '\u{c}' ==> is_space(c),
        '!' <= c <= '~' ==> !is_space(c),
        c < '\u{80}' && is_space(c) ==> c == ' ' || '\t' <= c <= '\r',
        is_space('\u{a0}') && is_space('\u{2003}') && is_space('\u{3000}') && is_space('\u{85}'),
{
}

/// Lowering a letter turns the capitals of ASCII into their small letters, and
/// leaves every other character.
pub proof fn what_lowering_does(s: Seq<char>, i: int)
    requires
        0 <= i < s.len(),
    ensures
        lowered(s).len() == s.len(),
        !('A' <= s[i] <= 'Z') ==> lowered(s)[i] == s[i],
        'A' <= s[i] <= 'Z' ==> lowered(s)[i] as int == s[i] as int + 32,
        lower('A') == 'a' && lower('Z') == 'z',
{
}

/// What is trimmed away is white space, and what is left neither begins nor ends
/// with any: a text is what is left of it, between blanks.
pub proof fn trimming_drops_blanks_alone(before: Seq<char>, s: Seq<char>, after: Seq<char>)
    requires
        forall|i: int| 0 <= i < before.len() ==> is_space(#[trigger] before[i]),
        forall|i: int| 0 <= i < after.len() ==> is_space(#[trigger] after[i]),
        s.len() == 0 || !is_space(s[0]) && !is_space(s.last()),
    ensures
        trimmed(before + s + after) == s,
{
    start_is_trimmed(before, s + after);
    assert(before + s + after =~= before + (s + after));
    if s.len() == 0 {
        assert(s + after =~= after);
        assert(before + Seq::<char>::empty() =~= before);
        start_is_trimmed(before + after, Seq::<char>::empty());
        assert(before + after + Seq::<char>::empty() =~= before + after);
        assert forall|i: int| 0 <= i < (before + after).len() implies is_space(
            #[trigger] (before + after)[i],
        ) by {
            if i >= before.len() {
                assert((before + after)[i] == after[i - before.len()]);
            }
        }
        all_is_trimmed(before + after);
        assert(s =~= Seq::<char>::empty());
    } else {
        end_is_trimmed(s, after);
    }
}

proof fn start_is_trimmed(before: Seq<char>, s: Seq<char>)
    requires
        forall|i: int| 0 <= i < before.len() ==> is_space(#[trigger] before[i]),
    ensures
        s.len() > 0 && !is_space(s[0]) ==> trimmed_start(before + s) == s,
    decreases before.len(),
{
    let t = before + s;
    if before.len() == 0 {
        assert(t =~= s);
    } else {
        assert(t[0] == before[0]);
        assert(t.skip(1) =~= before.skip(1) + s);
        assert forall|i: int| 0 <= i < before.skip(1).len() implies is_space(
            #[trigger] before.skip(1)[i],
        ) by {
            assert(before.skip(1)[i] == before[i + 1]);
        }
        start_is_trimmed(before.skip(1), s);
    }
}

proof fn all_is_trimmed(s: Seq<char>)
    requires
        forall|i: int| 0 <= i < s.len() ==> is_space(#[trigger] s[i]),
    ensures
        trimmed_start(s).len() == 0,
    decreases s.len(),
{
    if s.len() > 0 {
        assert forall|i: int| 0 <= i < s.skip(1).len() implies is_space(#[trigger] s.skip(1)[i]) by {
            assert(s.skip(1)[i] == s[i + 1]);
        }
        all_is_trimmed(s.skip(1));
    }
}

proof fn end_is_trimmed(s: Seq<char>, after: Seq<char>)
    requires
        forall|i: int| 0 <= i < after.len() ==> is_space(#[trigger] after[i]),
        s.len() > 0,
        !is_space(s.last()),
    ensures
        trimmed_end(s + after) == s,
    decreases after.len(),
{
    let t = s + after;
    if after.len() == 0 {
        assert(t =~= s);
    } else {
        assert(t.last() == after.last());
        assert(t.drop_last() =~= s + after.drop_last());
        end_is_trimmed(s, after.drop_last());
    }
}

/// A text that begins with something other than white space still does so once it is
/// trimmed.
pub proof fn trimming_keeps_the_first(s: Seq<char>)
    requires
        s.len() > 0,
        !is_space(s[0]),
    ensures
        trimmed(s).len() > 0,
        trimmed(s)[0] == s[0],
    decreases s.len(),
{
    first_is_kept(s);
}

proof fn first_is_kept(s: Seq<char>)
    requires
        s.len() > 0,
        !is_space(s[0]),
    ensures
        trimmed_end(s).len() > 0,
        trimmed_end(s)[0] == s[0],
    decreases s.len(),
{
    if is_space(s.last()) {
        assert(s.len() > 1);
        first_is_kept(s.drop_last());
    }
}

proof fn lines_move(a: Seq<char>, b: Seq<char>, from: int)
    requires
        0 <= from <= b.len(),
    ensures
        lines_from(a + b, a.len() + from) == lines_from(b, from),
    decreases b.len() - from,
{
    first_at_moves(a, b, '\n', from);
    first_at_finds(b, '\n', from);
    let i = first_at(b, '\n', from);
    if from < b.len() {
        if i < b.len() {
            lines_move(a, b, i + 1);
            assert((a + b).subrange(a.len() + from, a.len() + i) =~= b.subrange(from, i));
        } else {
            assert((a + b).skip(a.len() + from) =~= b.skip(from));
        }
    }
}

/// Text is read line by line: what stands before a line feed is a line of its own,
/// without the carriage return that may end it, and the rest is read on its own. The
/// last line needs no end.
pub proof fn a_text_is_read_line_by_line(line: Seq<char>, rest: Seq<char>)
    requires
        !line.contains('\n'),
    ensures
        line.len() == 0 || line.last() != '\r' ==> lines_from(line.push('\n') + rest, 0) == seq![
            line,
        ] + lines_from(rest, 0),
        lines_from(line.push('\r').push('\n') + rest, 0) == seq![line] + lines_from(rest, 0),
        line.len() > 0 ==> lines_from(line, 0) == seq![line],
        lines_from(Seq::empty(), 0) == Seq::<Seq<char>>::empty(),
{
    let s = line.push('\n') + rest;
    assert forall|j: int| 0 <= j < line.len() implies #[trigger] line[j] != '\n' by {
        assert(line.contains(line[j]));
    }
    assert forall|j: int| 0 <= j < line.len() implies s[j] != '\n' by {
        assert(s[j] == line[j]);
    }
    first_at_is(s, '\n', 0, line.len() as int);
    lines_move(line.push('\n'), rest, 0);
    assert(s.subrange(0, line.len() as int) =~= line);
    let t = line.push('\r').push('\n') + rest;
    assert forall|j: int| 0 <= j < line.len() + 1 implies t[j] != '\n' by {
        if j < line.len() {
            assert(t[j] == line[j]);
        }
    }
    first_at_is(t, '\n', 0, line.len() as int + 1);
    lines_move(line.push('\r').push('\n'), rest, 0);
    assert(t.subrange(0, line.len() as int + 1) =~= line.push('\r'));
    assert(line.push('\r').drop_last() =~= line);
    first_at_is(line, '\n', 0, line.len() as int);
    assert(line.skip(0) =~= line);
}

/// A whole number is read as what it is, up to the highest that may be; and nothing
/// but digits, with a plus sign in front or not, is read as one.
pub proof fn a_whole_number_is_read(n: nat, max: nat, s: Seq<char>)
    ensures
        whole_number(digits(n), max) == (if n <= max {
            Some(n)
        } else {
            None
        }),
        whole_number(seq!['+'] + digits(n), max) == (if n <= max {
            Some(n)
        } else {
            None
        }),
        whole_number(s, max) is Some ==> s.len() > 0 && (s[0] == '+' || '0' <= s[0] <= '9')
            && forall|i: int| 0 < i < s.len() ==> '0' <= #[trigger] s[i] <= '9',
        whole_number(s, max) matches Some(v) ==> v <= max,
{
    digits_read_back(n);
    let d = digits(n);
    assert(is_digit(d[0]));
    assert((seq!['+'] + d).skip(1) =~= d);
    if whole_number(s, max) is Some {
        let body = if s.len() > 0 && s[0] == '+' {
            s.skip(1)
        } else {
            s
        };
        assert(all_digits(body));
        assert forall|i: int| 0 < i < s.len() implies '0' <= #[trigger] s[i] <= '9' by {
            if s[0] == '+' {
                assert(is_digit(body[i - 1]));
            } else {
                assert(is_digit(body[i]));
            }
        }
        assert(is_digit(body[0]));
    }
}

/// Numbers are written in decimal: the last digit is what is left over from tens, the
/// others are the number of tens, and nothing is in front of them.
pub proof fn numbers_are_decimal(n: nat)
    ensures
        n < 10 ==> digits(n).len() == 1,
        n >= 10 ==> digits(n).drop_last() == digits(n / 10),
        digits(n).last() as int == '0' as int + n % 10,
        digits(n).len() > 0,
{
    if n >= 10 {
        assert(digits(n).drop_last() =~= digits(n / 10));
    }
}

/// A padded number is the number with zeros in front, to the width and no further.
pub proof fn padding_is_zeros(n: nat, width: nat)
    ensures
        ({
            let s = padded(n, width);
            let z = s.len() - digits(n).len();
            &&& s.len() == (if digits(n).len() < width {
                width
            } else {
                digits(n).len()
            })
            &&& s.skip(z) == digits(n)
            &&& forall|i: int| 0 <= i < z ==> #[trigger] s[i] == '0'
        }),
{
    padded_reads_back(n, width);
    let s = padded(n, width);
    let z = s.len() - digits(n).len();
    assert(s.skip(z) =~= digits(n));
}

/// Cut at a character, a text falls into parts without it, which put together again
/// are the text.
pub proof fn parts_make_the_whole(a: Seq<char>, c: char, rest: Seq<char>)
    requires
        !a.contains(c),
    ensures
        pieces(a, c, 0) == seq![a],
        pieces(a.push(c) + rest, c, 0) == seq![a] + pieces(rest, c, 0),
{
    pieces_of_one(a, c);
    pieces_of_parts(a, c, rest);
}

/// The second word of a line is what stands between the second gap and the next: words
/// hold no white space, and gaps nothing else.
pub proof fn the_second_word_is_found(
    indent: Seq<char>,
    first: Seq<char>,
    gap: Seq<char>,
    second: Seq<char>,
    rest: Seq<char>,
)
    requires
        forall|i: int| 0 <= i < indent.len() ==> is_space(#[trigger] indent[i]),
        first.len() > 0,
        forall|i: int| 0 <= i < first.len() ==> !is_space(#[trigger] first[i]),
        gap.len() > 0,
        forall|i: int| 0 <= i < gap.len() ==> is_space(#[trigger] gap[i]),
        second.len() > 0,
        forall|i: int| 0 <= i < second.len() ==> !is_space(#[trigger] second[i]),
        rest.len() == 0 || is_space(rest[0]),
    ensures
        second_word(indent + first + gap + second + rest) == Some(second),
        second_word(indent + first) is None,
{
    let s = indent + first + gap + second + rest;
    let n1 = indent.len() as int;
    let n2 = n1 + first.len();
    let n3 = n2 + gap.len();
    let n4 = n3 + second.len();
    assert forall|i: int| 0 <= i < n1 implies is_space(s[i]) by {
        assert(s[i] == indent[i]);
    }
    assert forall|i: int| n1 <= i < n2 implies !is_space(s[i]) by {
        assert(s[i] == first[i - n1]);
    }
    assert forall|i: int| n2 <= i < n3 implies is_space(s[i]) by {
        assert(s[i] == gap[i - n2]);
    }
    assert forall|i: int| n3 <= i < n4 implies !is_space(s[i]) by {
        assert(s[i] == second[i - n3]);
    }
    if rest.len() > 0 {
        assert(s[n4] == rest[0]);
    }
    space_is_at(s, false, 0, n1);
    space_is_at(s, true, n1, n2);
    space_is_at(s, false, n2, n3);
    space_is_at(s, true, n3, n4);
    assert(s.subrange(n3, n4) =~= second);
    let t = indent + first;
    assert forall|i: int| 0 <= i < n1 implies is_space(t[i]) by {
        assert(t[i] == indent[i]);
    }
    assert forall|i: int| n1 <= i < n2 implies !is_space(t[i]) by {
        assert(t[i] == first[i - n1]);
    }
    space_is_at(t, false, 0, n1);
    space_is_at(t, true, n1, n2);
    space_is_at(t, false, n2, n2);
}

proof fn space_is_at(s: Seq<char>, wanted: bool, from: int, at: int)
    requires
        0 <= from <= at <= s.len(),
        forall|i: int| from <= i < at ==> is_space(#[trigger] s[i]) != wanted,
        at < s.len() ==> is_space(s[at]) == wanted,
    ensures
        space_at(s, wanted, from) == at,
    decreases at - from,
{
    if from < at {
        space_is_at(s, wanted, from + 1, at);
    }
}

/// Texts are ordered by the first character in which they differ, and a text comes
/// before every longer one that begins with it.
pub proof fn texts_are_ordered_by_their_first_difference(
    common: Seq<char>,
    a: Seq<char>,
    b: Seq<char>,
)
    ensures
        text_le(common, common + a),
        a.len() > 0 ==> !text_le(common + a, common),
        a.len() > 0 && b.len() > 0 && a[0] < b[0] ==> text_le(common + a, common + b) && !text_le(
            common + b,
            common + a,
        ),
    decreases common.len(),
{
    if common.len() == 0 {
        assert(common + a =~= a);
        assert(common + b =~= b);
    } else {
        let c = common.skip(1);
        texts_are_ordered_by_their_first_difference(c, a, b);
        assert((common + a).skip(1) =~= c + a);
        assert((common + b).skip(1) =~= c + b);
    }
}

/// White space above the first hundred and twenty-eight characters is that of the
/// written languages: the spaces of fixed width, the separators of lines and
/// paragraphs, and a few others. Nothing above the ideographic space is any.
pub proof fn further_white_space(c: char)
    ensures
        c >= '\u{80}' ==> (is_space(c) <==> c == '\u{85}' || c == '\u{a0}' || c == '\u{1680}' || (
        '\u{2000}' <= c <= '\u{200a}') || c == '\u{2028}' || c == '\u{2029}' || c == '\u{202f}' || c
            == '\u{205f}' || c == '\u{3000}'),
        c < '!' || c == '\u{7f}' ==> (is_space(c) <==> c == ' ' || '\t' <= c <= '\r'),
{
}

/// Zeros in front of a whole number do not count, however many there are.
pub proof fn leading_zeros_do_not_count(count: nat, n: nat, max: nat)
    ensures
        ({
            let s = Seq::new(count, |i: int| '0') + digits(n);
            let read = if n <= max {
                Some(n)
            } else {
                None
            };
            &&& whole_number(s, max) == read
            &&& whole_number(seq!['+'] + s, max) == read
        }),
        whole_number(Seq::empty(), max) is None,
        whole_number(seq!['+'], max) is None,
{
    let z = Seq::new(count, |i: int| '0');
    let d = digits(n);
    let s = z + d;
    digits_read_back(n);
    zeros_are_worth_nothing(count);
    number_of_two(z, d);
    assert(all_digits(s)) by {
        assert forall|i: int| 0 <= i < s.len() implies is_digit(#[trigger] s[i]) by {
            if i >= count {
                assert(s[i] == d[i - count]);
            }
        }
    }
    assert(is_digit(s[0]));
    assert((seq!['+'] + s).skip(1) =~= s);
    assert(seq!['+'].skip(1) =~= Seq::<char>::empty());
    assert(0 * pow10(d.len()) == 0);
}

proof fn zeros_are_worth_nothing(count: nat)
    ensures
        number(Seq::new(count, |i: int| '0')) == 0,
    decreases count,
{
    let z = Seq::new(count, |i: int| '0');
    if count > 0 {
        zeros_are_worth_nothing((count - 1) as nat);
        assert(z.drop_last() =~= Seq::new((count - 1) as nat, |i: int| '0'));
    }
}

} // verus!
