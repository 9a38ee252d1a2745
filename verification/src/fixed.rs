//! Numbers with a fraction, as whole numbers of billionths.
//!
//! Seconds, playback rates and volumes are all held this way: an exact integer
//! where a floating-point value would carry a rounding error into every
//! comparison. Beside the numbers stand the three values that text can name and
//! no integer can hold: the two infinities and "not a number".
//!
//! Writing speaks of binary floating point all the same: the decimal text of a
//! value is that of the 53-bit number nearest to it, as any other program on the
//! machine would print it.

use vstd::prelude::*;
use vstd::slice::slice_subrange;

use crate::text::{
    all_digits, digit, digit_value, digits, digits_read_back, find, first_at, first_at_finds,
    first_at_is, is_digit, lower, lowered, number, number_of_two, padded, padded_reads_back, pow10,
    push_digits, push_padded, spells_ignoring_case,
};

verus! {

/// How many billionths make one.
pub const UNIT: i128 = 1_000_000_000;

/// A number in billionths, or one of the values beyond all numbers.
#[derive(Clone, Copy, Debug, PartialEq, Eq, Structural)]
pub enum Real {
    Finite(i128),
    PosInf,
    NegInf,
    NaN,
}

/// `a <= b`. Nothing is in order with `NaN`.
pub open spec fn at_most(a: Real, b: Real) -> bool {
    match (a, b) {
        (Real::NaN, _) => false,
        (_, Real::NaN) => false,
        (Real::NegInf, _) => true,
        (_, Real::PosInf) => true,
        (Real::Finite(x), Real::Finite(y)) => x <= y,
        _ => false,
    }
}

/// The infinity of the given sign.
pub open spec fn infinity(negative: bool) -> Real {
    if negative {
        Real::NegInf
    } else {
        Real::PosInf
    }
}

/// The number of that many billionths, or infinity when it is out of range.
pub open spec fn signed(negative: bool, billionths: nat) -> Real {
    if billionths > i128::MAX {
        infinity(negative)
    } else if negative {
        Real::Finite((-billionths) as i128)
    } else {
        Real::Finite(billionths as i128)
    }
}

impl Real {
    /// `self <= other`.
    pub fn le(&self, other: &Real) -> (r: bool)
        ensures
            r == at_most(*self, *other),
    {
        match (*self, *other) {
            (Real::NaN, _) => false,
            (_, Real::NaN) => false,
            (Real::NegInf, _) => true,
            (_, Real::PosInf) => true,
            (Real::Finite(x), Real::Finite(y)) => x <= y,
            _ => false,
        }
    }
}

/// How far `t` is from zero.
pub fn magnitude(t: i128) -> (r: u128)
    ensures
        r == (if t < 0 {
            -t
        } else {
            t as int
        }),
        r <= 0x8000_0000_0000_0000_0000_0000_0000_0000,
{
    if t < 0 {
        (-(t + 1)) as u128 + 1
    } else {
        t as u128
    }
}

// ---- reading ------------------------------------------------------------------

/// The first `n` digits of `ds` as one number, with zeros after the last.
pub open spec fn lead(ds: Seq<char>, n: nat) -> nat
    decreases n,
{
    if n == 0 {
        0
    } else {
        lead(ds, (n - 1) as nat) * 10 + (if n - 1 < ds.len() {
            digit_value(ds[n - 1])
        } else {
            0
        })
    }
}

/// The value `0.ds` times ten to the `point`, in billionths, to the nearest.
pub open spec fn nearest_billionth(ds: Seq<char>, point: int) -> nat {
    let n = point + 9;
    if n < 0 {
        0
    } else if n < ds.len() && digit_value(ds[n]) >= 5 {
        lead(ds, n as nat) + 1
    } else {
        lead(ds, n as nat)
    }
}

/// The whole number below the value `0.ds` times ten to the `point`.
pub open spec fn whole_part(ds: Seq<char>, point: int) -> nat {
    if point < 0 {
        0
    } else {
        lead(ds, point as nat)
    }
}

/// Whether a digit other than zero stands after the point.
pub open spec fn has_fraction(ds: Seq<char>, point: int) -> bool {
    exists|i: int| point <= i && 0 <= i < ds.len() && digit_value(#[trigger] ds[i]) > 0
}

/// The value `0.ds` times ten to the `point`, in billionths, rounded to the nearest
/// that is on the same side of every whole number: a value just under sixty stays
/// under it, and one just over zero stays over it.
pub open spec fn billionths(ds: Seq<char>, point: int) -> nat {
    let near = nearest_billionth(ds, point);
    let whole = whole_part(ds, point);
    if !has_fraction(ds, point) {
        near
    } else if near <= whole * UNIT {
        (whole * UNIT + 1) as nat
    } else if near >= (whole + 1) * UNIT {
        ((whole + 1) * UNIT - 1) as nat
    } else {
        near
    }
}

/// The exponent that `s` writes: an optional sign and at least one digit.
pub open spec fn exponent(s: Seq<char>) -> Option<int> {
    let signed = s.len() > 0 && (s[0] == '-' || s[0] == '+');
    let body = if signed {
        s.skip(1)
    } else {
        s
    };
    if body.len() > 0 && all_digits(body) {
        if s[0] == '-' {
            Some(-(number(body) as int))
        } else {
            Some(number(body) as int)
        }
    } else {
        None
    }
}

/// Where the exponent begins, or the length of `s`.
pub open spec fn exponent_at(s: Seq<char>) -> int {
    let small = first_at(s, 'e', 0);
    let capital = first_at(s, 'E', 0);
    if small < capital {
        small
    } else {
        capital
    }
}

/// The digits of the decimal number that `s` writes, and how many of them stand
/// before the point once the exponent has moved it: digits, with a point before,
/// between or after them, and an optional exponent.
pub open spec fn decimal(s: Seq<char>) -> Option<(Seq<char>, int)> {
    let e = exponent_at(s);
    let mantissa = s.take(e);
    let shift = if e < s.len() {
        exponent(s.skip(e + 1))
    } else {
        Some(0int)
    };
    let p = first_at(mantissa, '.', 0);
    let fraction = if p < mantissa.len() {
        mantissa.skip(p + 1)
    } else {
        Seq::empty()
    };
    let ds = mantissa.take(p) + fraction;
    match shift {
        Some(by) if ds.len() > 0 && all_digits(ds) => Some((ds, p + by)),
        _ => None,
    }
}

/// The value that `s` writes, if it writes one: a decimal number, `inf`,
/// `infinity` or `nan`, with an optional sign.
pub open spec fn real_number(s: Seq<char>) -> Option<Real> {
    let negative = s.len() > 0 && s[0] == '-';
    let body = if s.len() > 0 && (s[0] == '-' || s[0] == '+') {
        s.skip(1)
    } else {
        s
    };
    if lowered(body) == lowered("inf"@) || lowered(body) == lowered("infinity"@) {
        Some(infinity(negative))
    } else if lowered(body) == lowered("nan"@) {
        Some(Real::NaN)
    } else {
        match decimal(body) {
            Some((ds, point)) => Some(signed(negative, billionths(ds, point))),
            None => None,
        }
    }
}

proof fn lead_grows(ds: Seq<char>, m: nat, n: nat)
    requires
        m <= n,
    ensures
        lead(ds, m) <= lead(ds, n),
        lead(ds, m) * pow10((n - m) as nat) <= lead(ds, n),
    decreases n - m,
{
    if m < n {
        lead_grows(ds, m, (n - 1) as nat);
        let p = pow10((n - 1 - m) as nat);
        assert(pow10((n - m) as nat) == 10 * p);
        assert(lead(ds, m) * (10 * p) == 10 * (lead(ds, m) * p)) by (nonlinear_arith);
    } else {
        assert(lead(ds, m) * 1 == lead(ds, m));
    }
}

/// Further digits add less than one to the last.
proof fn lead_between(ds: Seq<char>, m: nat, n: nat)
    requires
        m <= n,
        all_digits(ds),
    ensures
        lead(ds, m) * pow10((n - m) as nat) <= lead(ds, n),
        lead(ds, n) < (lead(ds, m) + 1) * pow10((n - m) as nat),
        forall|i: int|
            m <= i < n && i < ds.len() && digit_value(#[trigger] ds[i]) > 0 ==> lead(ds, n) > lead(
                ds,
                m,
            ) * pow10((n - m) as nat),
    decreases n - m,
{
    if m < n {
        lead_between(ds, m, (n - 1) as nat);
        let l = lead(ds, m) as int;
        let p = pow10((n - 1 - m) as nat) as int;
        assert(pow10((n - m) as nat) == 10 * p);
        assert(l * (10 * p) == 10 * (l * p)) by (nonlinear_arith);
        assert((l + 1) * (10 * p) == 10 * ((l + 1) * p)) by (nonlinear_arith);
        if n - 1 < ds.len() {
            assert(is_digit(ds[n - 1]));
        }
    } else {
        assert(lead(ds, m) * 1 == lead(ds, m));
    }
}

/// A value lies between its whole part and the next whole number.
proof fn between_wholes(ds: Seq<char>, point: int)
    requires
        all_digits(ds),
        point + 9 >= 0,
    ensures
        ({
            let l = lead(ds, (point + 9) as nat);
            let whole = whole_part(ds, point);
            whole * UNIT <= l < (whole + 1) * UNIT
        }),
{
    nine_zeros();
    if point >= 0 {
        lead_between(ds, point as nat, (point + 9) as nat);
    } else {
        lead_between(ds, 0, (point + 9) as nat);
        powers_grow((point + 9) as nat, 9);
        let p = pow10((point + 9) as nat);
        assert(1 * p == p);
    }
}

/// Rounding does not move a number past a whole number, nor on to one: it is under
/// sixty, or over zero, exactly when what was written is.
pub proof fn a_number_keeps_its_side(ds: Seq<char>, point: int, n: nat)
    requires
        all_digits(ds),
    ensures
        billionths(ds, point) < n * UNIT <==> whole_part(ds, point) < n,
        has_fraction(ds, point) ==> billionths(ds, point) > whole_part(ds, point) * UNIT,
        whole_part(ds, point) * UNIT <= billionths(ds, point),
{
    let whole = whole_part(ds, point) as int;
    if point + 9 >= 0 {
        between_wholes(ds, point);
        let at = point + 9;
        if at < ds.len() && digit_value(ds[at]) >= 5 {
            assert(has_fraction(ds, point));
        }
    }
    if whole < n {
        assert((whole + 1) * UNIT <= n * UNIT) by (nonlinear_arith)
            requires
                whole + 1 <= n,
        ;
    } else {
        assert(whole * UNIT >= n * UNIT) by (nonlinear_arith)
            requires
                whole >= n,
        ;
    }
}

proof fn nine_zeros()
    ensures
        pow10(9) == UNIT,
{
    reveal_with_fuel(pow10, 10);
}

proof fn powers_grow(j: nat, k: nat)
    requires
        j <= k,
    ensures
        pow10(j) <= pow10(k),
    decreases k,
{
    if j < k {
        powers_grow(j, (k - 1) as nat);
    }
}

/// A number with a digit other than zero outgrows every limit once it has been
/// moved far enough.
proof fn lead_outgrows(ds: Seq<char>, i: int, n: nat)
    requires
        0 <= i < ds.len(),
        digit_value(ds[i]) >= 1,
        n >= ds.len() + 39,
    ensures
        lead(ds, n) > i128::MAX,
{
    assert(lead(ds, (i + 1) as nat) >= 1);
    lead_grows(ds, (i + 1) as nat, ds.len());
    lead_grows(ds, ds.len(), (ds.len() + 39) as nat);
    lead_grows(ds, (ds.len() + 39) as nat, n);
    out_of_range();
    let l = lead(ds, ds.len());
    let p = pow10(39);
    assert(l * p >= p) by (nonlinear_arith)
        requires
            l >= 1,
    ;
}

proof fn out_of_range()
    ensures
        pow10(39) > i128::MAX,
{
    reveal_with_fuel(pow10, 40);
}

proof fn lead_of_zeros(ds: Seq<char>, n: nat)
    requires
        forall|i: int| 0 <= i < ds.len() ==> digit_value(#[trigger] ds[i]) == 0,
    ensures
        lead(ds, n) == 0,
    decreases n,
{
    if n > 0 {
        lead_of_zeros(ds, (n - 1) as nat);
        if n - 1 < ds.len() {
            assert(digit_value(ds[n - 1]) == 0);
        }
    }
}

/// Further than any text of digits can reach.
const FAR: i128 = 1_000_000_000_000_000_000_000_000_000_000;

/// `billionths(ds, point)`, or `None` when it is out of range. A `point` of
/// `FAR` stands for any point from there on, and `-FAR` for any down from there.
fn scaled(ds: &[char], point: i128, Ghost(exact): Ghost<int>) -> (r: Option<u128>)
    requires
        all_digits(ds@),
        -FAR <= point <= FAR,
        -FAR < point < FAR ==> exact == point,
        point == FAR ==> exact >= FAR,
        point == -FAR ==> exact <= -FAR,
    ensures
        match r {
            Some(n) => n == billionths(ds@, exact) && n <= i128::MAX,
            None => billionths(ds@, exact) > i128::MAX,
        },
{
    let mut k: usize = 0;
    while k < ds.len() && ds[k] == '0'
        invariant
            k <= ds@.len(),
            forall|i: int| 0 <= i < k ==> #[trigger] ds@[i] == '0',
        decreases ds@.len() - k,
    {
        k = k + 1;
    }
    if k == ds.len() {
        proof {
            if exact + 9 >= 0 {
                lead_of_zeros(ds@, (exact + 9) as nat);
            }
        }
        return Some(0);
    }
    assert(is_digit_above_zero(ds@[k as int]));
    let n: i128 = point + 9;
    if n < 0 {
        assert(has_fraction(ds@, exact));
        return Some(1);
    }
    if n > ds.len() as i128 + 39 {
        proof {
            lead_outgrows(ds@, k as int, (exact + 9) as nat);
        }
        return None;
    }
    proof {
        between_wholes(ds@, exact);
    }
    let ghost l = lead(ds@, n as nat);
    let mut total: u128 = 0;
    let mut whole: u128 = 0;
    let mut j: i128 = 0;
    while j < n
        invariant
            0 <= j <= n,
            n == exact + 9,
            exact == point,
            all_digits(ds@),
            l == lead(ds@, n as nat),
            whole_part(ds@, exact) * UNIT <= l < (whole_part(ds@, exact) + 1) * UNIT,
            total == lead(ds@, j as nat),
            total <= i128::MAX,
            point <= j ==> whole == whole_part(ds@, exact),
            whole <= total,
            point > j ==> whole == 0,
        decreases n - j,
    {
        let d: u128 = if j < ds.len() as i128 {
            let c: char = ds[j as usize];
            assert(is_digit(ds@[j as int]));
            (c as u8 - 48) as u128
        } else {
            0
        };
        proof {
            lead_grows(ds@, (j + 1) as nat, n as nat);
        }
        if total > i128::MAX as u128 / 10 {
            assert(l > i128::MAX);
            return None;
        }
        total = total * 10 + d;
        j = j + 1;
        if total > i128::MAX as u128 {
            assert(l > i128::MAX);
            return None;
        }
        if j == point {
            whole = total;
        }
    }
    if n < ds.len() as i128 && ds[n as usize] >= '5' {
        assert(digit_value(ds@[n as int]) >= 5);
        total = total + 1;
    }
    assert(total == nearest_billionth(ds@, exact));
    let unit: u128 = UNIT as u128;
    // A digit other than zero after the point keeps the value off a whole number.
    let mut i: usize = if point > 0 {
        if point < ds.len() as i128 {
            point as usize
        } else {
            ds.len()
        }
    } else {
        0
    };
    let ghost from = i;
    while i < ds.len() && ds[i] == '0'
        invariant
            from <= i <= ds@.len(),
            forall|h: int| from <= h < i ==> #[trigger] ds@[h] == '0',
        decreases ds@.len() - i,
    {
        i = i + 1;
    }
    if i < ds.len() {
        assert(is_digit(ds@[i as int]));
        assert(has_fraction(ds@, exact)) by {
            assert(digit_value(ds@[i as int]) > 0);
        }
        if total <= whole * unit {
            total = whole * unit + 1;
        } else if total >= (whole + 1) * unit {
            total = (whole + 1) * unit - 1;
        }
    } else {
        assert(!has_fraction(ds@, exact)) by {
            assert forall|h: int| exact <= h && 0 <= h < ds@.len() implies digit_value(
                #[trigger] ds@[h],
            ) == 0 by {
                assert(ds@[h] == '0');
            }
        }
    }
    if total > i128::MAX as u128 {
        return None;
    }
    Some(total)
}

spec fn is_digit_above_zero(c: char) -> bool {
    digit_value(c) >= 1
}

/// Whether `n` stands for the exponent `e`: exactly, or as the end of a range
/// that reaches twice as far as `FAR`.
spec fn stands_for(n: i128, e: int) -> bool {
    &&& -2 * FAR <= n <= 2 * FAR
    &&& -2 * FAR < n < 2 * FAR ==> e == n
    &&& n == 2 * FAR ==> e >= 2 * FAR
    &&& n == -2 * FAR ==> e <= -2 * FAR
}

fn read_exponent(s: &[char]) -> (r: Option<i128>)
    ensures
        match r {
            Some(n) => exponent(s@) is Some && stands_for(n, exponent(s@)->0),
            None => exponent(s@) is None,
        },
{
    let negative: bool = s.len() > 0 && s[0] == '-';
    let from: usize = if s.len() > 0 && (s[0] == '-' || s[0] == '+') {
        1
    } else {
        0
    };
    let body = slice_subrange(s, from, s.len());
    assert(body@ =~= if from == 1 {
        s@.skip(1)
    } else {
        s@
    });
    if body.len() == 0 {
        return None;
    }
    let cap: i128 = 2 * FAR;
    let mut total: i128 = 0;
    let mut i: usize = 0;
    while i < body.len()
        invariant
            i <= body@.len(),
            cap == 2 * FAR,
            0 <= total <= cap,
            total < cap ==> total == number(body@.take(i as int)),
            total == cap ==> number(body@.take(i as int)) >= cap,
            forall|j: int| 0 <= j < i ==> is_digit(#[trigger] body@[j]),
            exponent(s@) is Some ==> all_digits(body@),
        decreases body@.len() - i,
    {
        let c: char = body[i];
        if !digit(c) {
            assert(!is_digit(body@[i as int]));
            return None;
        }
        assert(body@.take(i + 1).drop_last() =~= body@.take(i as int));
        let d: i128 = (c as u8 - 48) as i128;
        let next: i128 = total * 10 + d;
        total = if next >= cap {
            cap
        } else {
            next
        };
        i = i + 1;
    }
    assert(body@.take(i as int) =~= body@);
    if negative {
        Some(-total)
    } else {
        Some(total)
    }
}

/// `s` without what stands at `p`.
fn without(s: &[char], p: usize) -> (r: Vec<char>)
    requires
        p <= s@.len(),
    ensures
        r@ == (if p < s@.len() {
            s@.take(p as int) + s@.skip(p + 1)
        } else {
            s@
        }),
{
    let mut out: Vec<char> = Vec::new();
    let mut i: usize = 0;
    while i < s.len()
        invariant
            i <= s@.len(),
            p <= s@.len(),
            out@ == (if i <= p {
                s@.take(i as int)
            } else {
                s@.take(p as int) + s@.subrange(p + 1, i as int)
            }),
        decreases s@.len() - i,
    {
        if i != p {
            out.push(s[i]);
        }
        i = i + 1;
        assert(out@ =~= if i <= p {
            s@.take(i as int)
        } else {
            s@.take(p as int) + s@.subrange(p + 1, i as int)
        });
    }
    assert(out@ =~= if p < s@.len() {
        s@.take(p as int) + s@.skip(p + 1)
    } else {
        s@
    });
    out
}

/// Reads a decimal number without a sign: its billionths, or `Some(None)` when
/// they are out of range.
fn read_decimal(body: &[char]) -> (r: Option<Option<u128>>)
    ensures
        match r {
            Some(Some(n)) => decimal(body@) is Some && n == billionths(
                (decimal(body@)->0).0,
                (decimal(body@)->0).1,
            ) && n <= i128::MAX,
            Some(None) => decimal(body@) is Some && billionths(
                (decimal(body@)->0).0,
                (decimal(body@)->0).1,
            ) > i128::MAX,
            None => decimal(body@) is None,
        },
{
    let small: usize = find(body, 'e', 0);
    let capital: usize = find(body, 'E', 0);
    let e: usize = if small < capital {
        small
    } else {
        capital
    };
    let by: i128 = if e < body.len() {
        let tail = slice_subrange(body, e + 1, body.len());
        assert(tail@ =~= body@.skip(e + 1));
        match read_exponent(tail) {
            Some(n) => n,
            None => {
                return None;
            },
        }
    } else {
        0
    };
    let ghost shift = if e < body@.len() {
        exponent(body@.skip(e + 1))->0
    } else {
        0int
    };
    let mantissa = slice_subrange(body, 0, e);
    assert(mantissa@ =~= body@.take(e as int));
    let p: usize = find(mantissa, '.', 0);
    let ds: Vec<char> = without(mantissa, p);
    proof {
        first_at_finds(mantissa@, '.', 0);
        if p == mantissa@.len() {
            assert(ds@ =~= mantissa@.take(p as int) + Seq::<char>::empty());
        }
    }
    if ds.len() == 0 || !only_digits(ds.as_slice()) {
        return None;
    }
    let sum: i128 = p as i128 + by;
    let point: i128 = if sum >= FAR {
        FAR
    } else if sum <= -FAR {
        -FAR
    } else {
        sum
    };
    let ghost exact = p + shift;
    assert(decimal(body@) == Some((ds@, exact)));
    Some(scaled(ds.as_slice(), point, Ghost(exact)))
}

/// Reads the value that `s` writes.
pub fn parse_real(s: &[char]) -> (r: Option<Real>)
    ensures
        r == real_number(s@),
{
    let negative: bool = s.len() > 0 && s[0] == '-';
    let from: usize = if s.len() > 0 && (s[0] == '-' || s[0] == '+') {
        1
    } else {
        0
    };
    let body = slice_subrange(s, from, s.len());
    assert(body@ =~= if from == 1 {
        s@.skip(1)
    } else {
        s@
    });
    if spells_ignoring_case(body, "inf") || spells_ignoring_case(body, "infinity") {
        return Some(if negative {
            Real::NegInf
        } else {
            Real::PosInf
        });
    }
    if spells_ignoring_case(body, "nan") {
        return Some(Real::NaN);
    }
    match read_decimal(body) {
        Some(Some(n)) => Some(
            Real::Finite(
                if negative {
                    -(n as i128)
                } else {
                    n as i128
                },
            ),
        ),
        Some(None) => Some(
            if negative {
                Real::NegInf
            } else {
                Real::PosInf
            },
        ),
        None => None,
    }
}

fn only_digits(s: &[char]) -> (r: bool)
    ensures
        r == all_digits(s@),
{
    let mut i: usize = 0;
    while i < s.len()
        invariant
            i <= s@.len(),
            forall|j: int| 0 <= j < i ==> is_digit(#[trigger] s@[j]),
        decreases s@.len() - i,
    {
        if !digit(s[i]) {
            assert(!is_digit(s@[i as int]));
            return false;
        }
        i = i + 1;
    }
    true
}

// ---- writing ------------------------------------------------------------------

/// `a / b` to the nearest whole number, to the even one of two that are as near.
pub open spec fn half_even(a: nat, b: nat) -> nat {
    let q = a / b;
    let r = a % b;
    if 2 * r > b || (2 * r == b && q % 2 == 1) {
        q + 1
    } else {
        q
    }
}

/// The lowest mantissa of 53 bits.
pub const MANTISSA: u128 = 0x10_0000_0000_0000;

/// The lowest mantissa that is too wide for 53 bits.
pub const MANTISSA_END: u128 = 0x20_0000_0000_0000;

/// A binary floating-point number: `mantissa * up / down`, where `up` and `down`
/// are powers of two and one of them is 1.
pub ghost struct Double {
    pub mantissa: nat,
    pub up: nat,
    pub down: nat,
}

impl Double {
    /// The number times `10^places`, to the nearest whole number.
    pub open spec fn in_units(self, places: nat) -> nat {
        half_even(self.mantissa * self.up * pow10(places), self.down)
    }
}

/// How far `num / den` is from a quotient of 53 bits.
pub open spec fn imbalance(num: nat, den: nat) -> nat {
    if num < MANTISSA * den {
        (MANTISSA * den - num) as nat
    } else if num >= MANTISSA_END * den {
        (num - MANTISSA_END * den + 1) as nat
    } else {
        0
    }
}

/// The 53-bit number nearest to `num / den`, times `up / down`.
pub open spec fn rounded(num: nat, den: nat, up: nat, down: nat) -> Double
    decreases imbalance(num, den),
{
    if num == 0 || den == 0 {
        Double { mantissa: 0, up: 1, down: 1 }
    } else if num < MANTISSA * den {
        rounded(2 * num, den, up, 2 * down)
    } else if num >= MANTISSA_END * den {
        rounded(num, 2 * den, 2 * up, down)
    } else {
        Double { mantissa: half_even(num, den), up, down }
    }
}

/// The 53-bit number nearest to `num / den`.
pub open spec fn nearest_double(num: nat, den: nat) -> Double {
    rounded(num, den, 1, 1)
}

/// A number is off by no more than a 53rd power of two of itself.
pub open spec fn is_near(d: Double, num: nat, den: nat) -> bool {
    let x = d.mantissa * d.up;
    &&& d.down > 0
    &&& x * den * MANTISSA_END <= num * d.down * (MANTISSA_END + 1)
    &&& x * den * MANTISSA_END >= num * d.down * (MANTISSA_END - 1)
}

proof fn rounded_is_near(num: nat, den: nat, up: nat, down: nat)
    requires
        num > 0,
        den > 0,
        up > 0,
        down > 0,
    ensures
        rounded(num, den, up, down).down > 0,
        is_near(rounded(num, den, up, down), num * up, den * down),
    decreases imbalance(num, den),
{
    let d = rounded(num, den, up, down);
    let x = d.mantissa * d.up;
    if num < MANTISSA * den {
        rounded_is_near(2 * num, den, up, 2 * down);
        assert((2 * num) * up == 2 * (num * up)) by (nonlinear_arith);
        assert(den * (2 * down) == 2 * (den * down)) by (nonlinear_arith);
        halved(x, den * down, num * up, d.down);
    } else if num >= MANTISSA_END * den {
        rounded_is_near(num, 2 * den, 2 * up, down);
        assert(num * (2 * up) == 2 * (num * up)) by (nonlinear_arith);
        assert((2 * den) * down == 2 * (den * down)) by (nonlinear_arith);
        halved(x, den * down, num * up, d.down);
    } else {
        let m = half_even(num, den);
        half_even_near(num, den);
        assert((m * up) * (den * down) == (m * den) * (up * down)) by (nonlinear_arith);
        assert((num * up) * down == num * (up * down)) by (nonlinear_arith);
        let k = (up * down) as int;
        assert(k > 0) by (nonlinear_arith)
            requires
                k == up * down,
                up > 0,
                down > 0,
        ;
        assert(m * den * MANTISSA_END <= num * (MANTISSA_END + 1));
        assert(m * den * MANTISSA_END >= num * (MANTISSA_END - 1));
        assert(((m * den) * k) * MANTISSA_END <= (num * k) * (MANTISSA_END + 1)) by (nonlinear_arith)
            requires
                m * den * MANTISSA_END <= num * (MANTISSA_END + 1),
                k > 0,
        ;
        assert(((m * den) * k) * MANTISSA_END >= (num * k) * (MANTISSA_END - 1)) by (nonlinear_arith)
            requires
                m * den * MANTISSA_END >= num * (MANTISSA_END - 1),
                k > 0,
        ;
    }
}

proof fn halved(x: nat, den: nat, num: nat, down: nat)
    requires
        x * (2 * den) * MANTISSA_END <= (2 * num) * down * (MANTISSA_END + 1),
        x * (2 * den) * MANTISSA_END >= (2 * num) * down * (MANTISSA_END - 1),
    ensures
        x * den * MANTISSA_END <= num * down * (MANTISSA_END + 1),
        x * den * MANTISSA_END >= num * down * (MANTISSA_END - 1),
{
    assert(x * (2 * den) == 2 * (x * den)) by (nonlinear_arith);
    assert((2 * num) * down == 2 * (num * down)) by (nonlinear_arith);
    let a = x * den;
    let b = num * down;
    let m = MANTISSA_END as int;
    assert((2 * a) * m == 2 * (a * m)) by (nonlinear_arith);
    assert((2 * b) * (m + 1) == 2 * (b * (m + 1))) by (nonlinear_arith);
    assert((2 * b) * (m - 1) == 2 * (b * (m - 1))) by (nonlinear_arith);
}

/// Rounding to a whole number moves by no more than a half.
pub proof fn half_even_near(a: nat, b: nat)
    requires
        b > 0,
    ensures
        2 * (half_even(a, b) * b) <= 2 * a + b,
        2 * (half_even(a, b) * b) >= 2 * a - b,
{
    let q = a / b;
    assert(q * b + a % b == a) by (nonlinear_arith)
        requires
            b > 0,
            q == a / b,
    ;
    assert((q + 1) * b == q * b + b) by (nonlinear_arith);
    assert(a % b < b) by (nonlinear_arith)
        requires
            b > 0,
    ;
}

/// The nearest number is near.
pub proof fn nearest_is_near(num: nat, den: nat)
    requires
        num > 0,
        den > 0,
    ensures
        is_near(nearest_double(num, den), num, den),
{
    rounded_is_near(num, den, 1, 1);
    assert(num * 1 == num && den * 1 == den);
}

/// What `nearest_double` computes, in numbers that fit.
struct Binary {
    mantissa: u128,
    up: u128,
    down: u128,
}

/// Widest denominator that the numbers below are ever divided by.
pub const WIDEST: u128 = 1_000_000_000_000;

/// Widest numerator: as far from zero as a signed number can be.
pub const FARTHEST: u128 = 0x8000_0000_0000_0000_0000_0000_0000_0000;

fn round_half_even(a: u128, b: u128) -> (r: u128)
    requires
        0 < b,
        b <= FARTHEST,
    ensures
        r == half_even(a as nat, b as nat),
{
    let q: u128 = a / b;
    let r: u128 = a % b;
    proof {
        assert(q < u128::MAX || 2 * r <= b) by (nonlinear_arith)
            requires
                q == a / b,
                r == a % b,
                0 < b,
                a <= u128::MAX,
        ;
        assert(q == u128::MAX ==> b == 1) by (nonlinear_arith)
            requires
                q == a / b,
                0 < b,
                a <= u128::MAX,
        ;
    }
    if r > b - r || (r == b - r && q % 2 == 1) {
        q + 1
    } else {
        q
    }
}

fn to_binary(num: u128, den: u128) -> (r: Binary)
    requires
        num <= FARTHEST,
        1 <= den <= WIDEST,
        num < 0x1_0000_0000_0000_0000 || den >= 1000,
    ensures
        r.double() == nearest_double(num as nat, den as nat),
        r.fits(),
{
    if num == 0 {
        return Binary { mantissa: 0, up: 1, down: 1 };
    }
    let ghost target = nearest_double(num as nat, den as nat);
    let mut n: u128 = num;
    let mut d: u128 = den;
    let mut up: u128 = 1;
    let mut down: u128 = 1;
    while n < MANTISSA * d
        invariant
            num > 0,
            d == den,
            up == 1,
            1 <= den <= WIDEST,
            num <= FARTHEST,
            n == num * down,
            n > 0,
            1 <= down <= n,
            down == 1 || n < MANTISSA_END * d,
            target == rounded(n as nat, d as nat, up as nat, down as nat),
        decreases MANTISSA_END * d - n,
    {
        assert(num * (2 * down) == 2 * (num * down)) by (nonlinear_arith);
        n = 2 * n;
        down = 2 * down;
    }
    assert(down > 1 ==> n < MANTISSA_END * d);
    while n / MANTISSA_END >= d
        invariant
            num > 0,
            n > 0,
            n <= FARTHEST || down > 1,
            n >= MANTISSA * d,
            down == 1 || up == 1 && n < MANTISSA_END * d,
            down == 1 ==> n == num && num <= FARTHEST,
            1 <= down <= MANTISSA_END * WIDEST,
            1 <= den,
            d == den * up,
            1 <= up <= d,
            target == rounded(n as nat, d as nat, up as nat, down as nat),
        decreases n - d,
    {
        assert(n >= MANTISSA_END * d) by (nonlinear_arith)
            requires
                n / MANTISSA_END >= d,
        ;
        assert(den * (2 * up) == 2 * (den * up)) by (nonlinear_arith);
        d = 2 * d;
        up = 2 * up;
    }
    assert(n < MANTISSA_END * d) by (nonlinear_arith)
        requires
            n / MANTISSA_END < d,
    ;
    let m: u128 = round_half_even(n, d);
    proof {
        let q = n / d;
        assert(q < MANTISSA_END) by (nonlinear_arith)
            requires
                q == n / d,
                n < MANTISSA_END * d,
                d > 0,
        ;
        assert(m <= q + 1);
        if up > 1 {
            assert(q * up <= n && MANTISSA * up <= n) by (nonlinear_arith)
                requires
                    q == n / d,
                    d == den * up,
                    den >= 1,
                    up >= 1,
                    n >= MANTISSA * d,
            ;
            if den >= 1000 {
                assert(1000 * (q * up) <= n) by (nonlinear_arith)
                    requires
                        q == n / d,
                        d == den * up,
                        den >= 1000,
                        up >= 1,
                ;
            }
            assert(m * up <= q * up + up) by (nonlinear_arith)
                requires
                    m <= q + 1,
            ;
        } else {
            assert(m * up == m) by (nonlinear_arith)
                requires
                    up == 1,
            ;
        }
    }
    Binary { mantissa: m, up, down }
}

/// The text of the 53-bit number nearest to `num / den`, to that many decimals.
pub open spec fn decimal_text(num: nat, den: nat, places: nat) -> Seq<char> {
    units_text(nearest_double(num, den).in_units(places), places)
}

/// `n / 10^places` in decimal.
pub open spec fn units_text(n: nat, places: nat) -> Seq<char> {
    if places == 0 {
        digits(n)
    } else {
        digits(n / pow10(places)).push('.') + padded(n % pow10(places), places)
    }
}

/// The text of `r` to that many decimals, with a plus sign where it is asked for.
pub open spec fn real_text(r: Real, places: nat, plus: bool) -> Seq<char> {
    match r {
        Real::NaN => "NaN"@,
        Real::PosInf => if plus {
            "+inf"@
        } else {
            "inf"@
        },
        Real::NegInf => "-inf"@,
        Real::Finite(t) => if t < 0 {
            seq!['-'] + decimal_text((-t) as nat, UNIT as nat, places)
        } else if plus {
            seq!['+'] + decimal_text(t as nat, UNIT as nat, places)
        } else {
            decimal_text(t as nat, UNIT as nat, places)
        },
    }
}

fn power_of_ten(places: usize) -> (r: u128)
    requires
        places <= 4,
    ensures
        r == pow10(places as nat),
        1 <= r <= 10000,
{
    proof {
        reveal_with_fuel(pow10, 5);
    }
    if places == 0 {
        1
    } else if places == 1 {
        10
    } else if places == 2 {
        100
    } else if places == 3 {
        1000
    } else {
        10000
    }
}

/// Appends `decimal_text(num, den, places)`.
pub fn push_decimal(out: &mut String, num: u128, den: u128, places: usize)
    requires
        num <= FARTHEST,
        1 <= den <= WIDEST,
        num < 0x1_0000_0000_0000_0000 || den >= 1000,
        places <= 4,
    ensures
        final(out)@ == old(out)@ + decimal_text(num as nat, den as nat, places as nat),
{
    let ten: u128 = power_of_ten(places);
    let b: Binary = to_binary(num, den);
    push_binary(out, &b, ten, places);
}

/// Whether the 53-bit number nearest to `num / den`, to that many decimals, comes to
/// `n` units of the last one.
pub fn reaches(num: u128, den: u128, places: usize, n: u128) -> (r: bool)
    requires
        num <= FARTHEST,
        1 <= den <= WIDEST,
        num < 0x1_0000_0000_0000_0000 || den >= 1000,
        places <= 4,
        n <= 10000,
    ensures
        r == (nearest_double(num as nat, den as nat).in_units(places as nat) >= n),
{
    let ten: u128 = power_of_ten(places);
    let b: Binary = to_binary(num, den);
    if b.down == 1 {
        let whole: u128 = b.mantissa * b.up;
        proof {
            let product = whole * ten;
            assert(product / 1 == product && product % 1 == 0) by (nonlinear_arith);
            assert(product >= whole) by (nonlinear_arith)
                requires
                    product == whole * ten,
                    ten >= 1,
                    whole >= 0,
            ;
            if whole < n {
                assert(product <= 10000 * 10000) by (nonlinear_arith)
                    requires
                        product == whole * ten,
                        0 <= whole <= 10000,
                        0 <= ten <= 10000,
                ;
            }
        }
        whole >= n || whole * ten >= n
    } else {
        assert(b.mantissa * ten <= MANTISSA_END * 10000) by (nonlinear_arith)
            requires
                b.mantissa <= MANTISSA_END,
                ten <= 10000,
        ;
        assert(b.mantissa * 1 * ten == b.mantissa * ten) by (nonlinear_arith);
        round_half_even(b.mantissa * ten, b.down) >= n
    }
}

/// The 53-bit number nearest to a whole number, which is whole itself.
pub fn as_double(n: u64) -> (r: u128)
    ensures
        r == nearest_double(n as nat, 1).in_units(0),
        r <= FARTHEST,
{
    let b: Binary = to_binary(n as u128, 1);
    let ghost product = b.mantissa * b.up;
    proof {
        assert(pow10(0) == 1);
        assert(product * 1 == product);
        if b.down == 1 {
            assert(product / 1 == product && product % 1 == 0) by (nonlinear_arith);
        } else {
            assert(product == b.mantissa) by (nonlinear_arith)
                requires
                    product == b.mantissa * b.up,
                    b.up == 1,
            ;
            assert(product / (b.down as int) <= product) by (nonlinear_arith)
                requires
                    b.down >= 1,
                    product >= 0,
            ;
        }
    }
    round_half_even(b.mantissa * b.up, b.down)
}

impl Binary {
    spec fn double(self) -> Double {
        Double { mantissa: self.mantissa as nat, up: self.up as nat, down: self.down as nat }
    }

    spec fn fits(self) -> bool {
        &&& self.mantissa <= MANTISSA_END
        &&& self.up == 1 || self.down == 1
        &&& 1 <= self.up <= FARTHEST / MANTISSA
        &&& 1 <= self.down <= MANTISSA_END * WIDEST
        &&& self.mantissa * self.up <= FARTHEST
    }
}

fn push_binary(out: &mut String, b: &Binary, ten: u128, places: usize)
    requires
        b.fits(),
        places <= 4,
        ten == pow10(places as nat),
        1 <= ten <= 10000,
    ensures
        final(out)@ == old(out)@ + units_text(b.double().in_units(places as nat), places as nat),
{
    let ghost start = out@;
    let ghost n = b.double().in_units(places as nat);
    let whole: u128;
    let part: u128;
    if b.down == 1 {
        whole = b.mantissa * b.up;
        part = 0;
        proof {
            let product = b.mantissa * b.up * ten;
            assert(product / 1 == product && product % 1 == 0) by (nonlinear_arith);
            assert(n == product);
            assert(product / (ten as int) == whole && product % (ten as int) == 0) by (nonlinear_arith)
                requires
                    product == whole * ten,
                    ten >= 1,
            ;
        }
    } else {
        assert(b.mantissa * ten <= MANTISSA_END * 10000) by (nonlinear_arith)
            requires
                b.mantissa <= MANTISSA_END,
                ten <= 10000,
        ;
        let units: u128 = round_half_even(b.mantissa * ten, b.down);
        assert(b.mantissa * 1 * ten == b.mantissa * ten) by (nonlinear_arith);
        assert(n == units);
        whole = units / ten;
        part = units % ten;
    }
    push_digits(out, whole);
    if places > 0 {
        out.push('.');
        push_padded(out, part, places);
        assert(out@ =~= start + (digits(whole as nat).push('.') + padded(part as nat, places as nat)));
    } else {
        assert(ten == 1);
        assert(n / (ten as nat) == n) by (nonlinear_arith)
            requires
                ten == 1,
        ;
    }
}

/// Appends `real_text(r, places, plus)`.
pub fn push_real(out: &mut String, r: Real, places: usize, plus: bool)
    requires
        places <= 4,
    ensures
        final(out)@ == old(out)@ + real_text(r, places as nat, plus),
{
    let ghost start = out@;
    match r {
        Real::NaN => out.append("NaN"),
        Real::PosInf => if plus {
            out.append("+inf")
        } else {
            out.append("inf")
        },
        Real::NegInf => out.append("-inf"),
        Real::Finite(t) => {
            if t < 0 {
                out.push('-');
            } else if plus {
                out.push('+');
            }
            push_decimal(out, magnitude(t), UNIT as u128, places);
            assert(out@ =~= start + real_text(r, places as nat, plus));
        },
    }
}

// ---- dividing -----------------------------------------------------------------

/// `a / b` in billionths, rounded down.
pub open spec fn ratio(a: nat, b: nat) -> nat {
    (a * UNIT) as nat / b
}

proof fn quotient_is(x: int, b: int, q: int, r: int)
    requires
        x == q * b + r,
        0 <= r < b,
    ensures
        x / b == q,
{
    vstd::arithmetic::div_mod::lemma_fundamental_div_mod_converse(x, b, q, r);
}

/// Ten times `r`, as a multiple of `b` and a rest.
fn ten_times(r: u128, b: u128) -> (out: (u128, u128))
    requires
        r < b <= FARTHEST,
    ensures
        10 * r == out.0 * b + out.1,
        out.0 < 10,
        out.1 < b,
{
    let mut carry: u128 = 0;
    let mut rest: u128 = 0;
    let mut k: u128 = 0;
    while k < 10
        invariant
            k <= 10,
            r < b <= FARTHEST,
            k * r == carry * b + rest,
            carry <= k,
            rest < b,
            k == 0 ==> rest == 0 && carry == 0,
            carry < k || k == 0,
        decreases 10 - k,
    {
        let ghost before = carry;
        rest = rest + r;
        if rest >= b {
            rest = rest - b;
            carry = carry + 1;
        }
        proof {
            assert((k + 1) * r == k * r + r) by (nonlinear_arith);
            assert((before + 1) * b == before * b + b) by (nonlinear_arith);
        }
        k = k + 1;
        assert(carry < k) by (nonlinear_arith)
            requires
                k * r == carry * b + rest,
                r < b,
                k >= 1,
        ;
    }
    (carry, rest)
}

/// `ratio(a, b)`, or `None` when it is out of range.
pub fn divide(a: u128, b: u128) -> (r: Option<u128>)
    requires
        0 < b <= FARTHEST,
    ensures
        match r {
            Some(n) => n == ratio(a as nat, b as nat) && n <= i128::MAX,
            None => ratio(a as nat, b as nat) > i128::MAX,
        },
{
    let mut q: u128 = a / b;
    let mut rest: u128 = a % b;
    let mut k: usize = 0;
    let ghost mut power: int = 1;
    assert(a == q * b + rest && rest < b) by (nonlinear_arith)
        requires
            q == a / b,
            rest == a % b,
            b > 0,
    ;
    while k < 9
        invariant
            k <= 9,
            0 < b <= FARTHEST,
            rest < b,
            power == pow10(k as nat),
            a * power == q * b + rest,
        decreases 9 - k,
    {
        if q > i128::MAX as u128 / 10 {
            proof {
                too_large(a as int, b as int, q as int, rest as int, k as nat);
            }
            return None;
        }
        let (carry, left): (u128, u128) = ten_times(rest, b);
        proof {
            assert(pow10((k + 1) as nat) == 10 * pow10(k as nat));
            assert(a * (10 * power) == 10 * (a * power)) by (nonlinear_arith);
            assert((10 * q + carry) * b == 10 * (q * b) + carry * b) by (nonlinear_arith);
            power = 10 * power;
        }
        q = 10 * q + carry;
        rest = left;
        k = k + 1;
    }
    proof {
        reveal_with_fuel(pow10, 10);
        quotient_is(a * UNIT, b as int, q as int, rest as int);
    }
    if q > i128::MAX as u128 {
        None
    } else {
        Some(q)
    }
}

proof fn too_large(a: int, b: int, q: int, rest: int, k: nat)
    requires
        a >= 0,
        b > 0,
        0 <= rest < b,
        k < 9,
        a * pow10(k) == q * b + rest,
        q > i128::MAX / 10,
    ensures
        ratio(a as nat, b as nat) > i128::MAX,
{
    let left = pow10((9 - k) as nat);
    let done = pow10(k);
    powers_add(k, (9 - k) as nat);
    assert(pow10(9) == UNIT) by {
        reveal_with_fuel(pow10, 10);
    }
    assert(left >= 10) by {
        assert(left == 10 * pow10((8 - k) as nat));
        power_positive((8 - k) as nat);
    }
    assert(a * UNIT >= (10 * q) * b) by (nonlinear_arith)
        requires
            a * done == q * b + rest,
            done * left == UNIT,
            left >= 10,
            q >= 0,
            b > 0,
            rest >= 0,
    ;
    assert((a * UNIT) / b >= 10 * q) by (nonlinear_arith)
        requires
            a * UNIT >= (10 * q) * b,
            b > 0,
    ;
}

pub proof fn power_positive(k: nat)
    ensures
        pow10(k) >= 1,
    decreases k,
{
    if k > 0 {
        power_positive((k - 1) as nat);
    }
}

proof fn powers_add(j: nat, k: nat)
    ensures
        pow10(j) * pow10(k) == pow10(j + k),
    decreases j,
{
    if j > 0 {
        powers_add((j - 1) as nat, k);
        let p = pow10((j - 1) as nat);
        let r = pow10(k);
        assert((10 * p) * r == 10 * (p * r)) by (nonlinear_arith);
    } else {
        assert(1 * pow10(k) == pow10(k));
    }
}

// ---- what plain numerals are worth --------------------------------------------

proof fn lead_is_number(ds: Seq<char>, n: nat)
    requires
        n <= ds.len(),
    ensures
        lead(ds, n) == number(ds.take(n as int)),
    decreases n,
{
    if n > 0 {
        lead_is_number(ds, (n - 1) as nat);
        assert(ds.take(n as int).drop_last() =~= ds.take(n - 1));
    }
}

proof fn lead_beyond(ds: Seq<char>, k: nat)
    ensures
        lead(ds, ds.len() + k) == number(ds) * pow10(k),
    decreases k,
{
    if k == 0 {
        lead_is_number(ds, ds.len());
        assert(ds.take(ds.len() as int) =~= ds);
        assert(number(ds) * 1 == number(ds));
    } else {
        lead_beyond(ds, (k - 1) as nat);
        let x = number(ds);
        let p = pow10((k - 1) as nat);
        assert((x * p) * 10 == x * (10 * p)) by (nonlinear_arith);
    }
}

proof fn begins_with_digit(s: Seq<char>)
    requires
        s.len() > 0,
        is_digit(s[0]),
    ensures
        lowered(s) != lowered("inf"@),
        lowered(s) != lowered("infinity"@),
        lowered(s) != lowered("nan"@),
{
    reveal_strlit("inf");
    reveal_strlit("infinity");
    reveal_strlit("nan");
    assert(lowered(s)[0] == s[0]);
    assert(lowered("inf"@)[0] == 'i');
    assert(lowered("infinity"@)[0] == 'i');
    assert(lowered("nan"@)[0] == 'n');
}

/// Where no more than nine digits follow the point, nothing is rounded.
proof fn within_nine(ds: Seq<char>, point: int)
    requires
        all_digits(ds),
        0 <= point,
        ds.len() <= point + 9,
    ensures
        billionths(ds, point) == lead(ds, (point + 9) as nat),
{
    between_wholes(ds, point);
    nine_zeros();
    lead_between(ds, point as nat, (point + 9) as nat);
}

/// Digits, a point and at most nine more digits are worth what they say.
pub proof fn numeral_value(whole: Seq<char>, fraction: Seq<char>)
    requires
        whole.len() > 0,
        all_digits(whole),
        all_digits(fraction),
        fraction.len() <= 9,
    ensures
        real_number(whole.push('.') + fraction) == Some(
            signed(false, number(whole + fraction) * pow10((9 - fraction.len()) as nat)),
        ),
        fraction.len() == 0 ==> real_number(whole) == Some(
            signed(false, number(whole) * pow10(9)),
        ),
{
    let s = whole.push('.') + fraction;
    let ds = whole + fraction;
    assert(is_digit(whole[0]));
    assert(s[0] == whole[0]);
    begins_with_digit(s);
    begins_with_digit(whole);
    assert forall|j: int| 0 <= j < s.len() implies s[j] != 'e' && s[j] != 'E' by {
        if j < whole.len() {
            assert(s[j] == whole[j]);
        } else if j > whole.len() {
            assert(s[j] == fraction[j - whole.len() - 1]);
        }
    }
    first_at_is(s, 'e', 0, s.len() as int);
    first_at_is(s, 'E', 0, s.len() as int);
    assert(s.take(s.len() as int) =~= s);
    first_at_is(s, '.', 0, whole.len() as int);
    assert(s.take(whole.len() as int) =~= whole);
    assert(s.skip(whole.len() as int + 1) =~= fraction);
    assert(decimal(s) == Some((ds, whole.len() as int)));
    lead_beyond(ds, (9 - fraction.len()) as nat);
    assert(all_digits(ds)) by {
        assert forall|j: int| 0 <= j < ds.len() implies is_digit(#[trigger] ds[j]) by {
            if j >= whole.len() {
                assert(ds[j] == fraction[j - whole.len()]);
            }
        }
    }
    within_nine(ds, whole.len() as int);
    if fraction.len() == 0 {
        assert forall|j: int| 0 <= j < whole.len() implies whole[j] != 'e' && whole[j] != 'E'
            && whole[j] != '.' by {
            assert(is_digit(whole[j]));
        }
        first_at_is(whole, 'e', 0, whole.len() as int);
        first_at_is(whole, 'E', 0, whole.len() as int);
        first_at_is(whole, '.', 0, whole.len() as int);
        assert(whole.take(whole.len() as int) =~= whole);
        assert(whole + Seq::<char>::empty() =~= whole);
        assert(ds =~= whole);
        assert(decimal(whole) == Some((whole, whole.len() as int)));
    }
}

// ---- laws ---------------------------------------------------------------------

/// A number written with a point is worth its whole part and its decimals.
pub proof fn decimals_are_worth(whole: nat, part: nat, places: nat)
    requires
        0 < places <= 9,
        part < pow10(places),
    ensures
        real_number(digits(whole).push('.') + padded(part, places)) == Some(
            signed(false, (whole * pow10(places) + part) * pow10((9 - places) as nat)),
        ),
        real_number(digits(whole)) == Some(signed(false, whole * 1_000_000_000)),
{
    let w = digits(whole);
    let f = padded(part, places);
    digits_read_back(whole);
    padded_reads_back(part, places);
    digits_within(part, places);
    numeral_value(w, f);
    number_of_two(w, f);
    numeral_value(w, Seq::empty());
    nine_zeros();
}

/// A number below a power of ten has no more digits than that has zeros.
proof fn digits_within(n: nat, places: nat)
    requires
        places > 0,
        n < pow10(places),
    ensures
        digits(n).len() <= places,
    decreases places,
{
    if n >= 10 {
        assert(places > 1) by {
            reveal_with_fuel(pow10, 2);
        }
        assert(n / 10 < pow10((places - 1) as nat));
        digits_within(n / 10, (places - 1) as nat);
    }
}

/// A minus sign turns a number round, and a plus sign leaves it.
pub proof fn a_sign_turns_a_number_round(s: Seq<char>)
    requires
        s.len() > 0,
        s[0] != '-' && s[0] != '+',
    ensures
        real_number(seq!['+'] + s) == real_number(s),
        match real_number(s) {
            None => real_number(seq!['-'] + s) is None,
            Some(Real::Finite(t)) => real_number(seq!['-'] + s) == Some(Real::Finite((-t) as i128)),
            Some(Real::PosInf) => real_number(seq!['-'] + s) == Some(Real::NegInf),
            Some(Real::NaN) => real_number(seq!['-'] + s) == Some(Real::NaN),
            Some(Real::NegInf) => false,
        },
        real_number(s) matches Some(Real::Finite(t)) ==> t >= 0,
{
    assert((seq!['+'] + s).skip(1) =~= s);
    assert((seq!['-'] + s).skip(1) =~= s);
}

/// Beyond all numbers there are three values, written in any case.
pub proof fn beyond_all_numbers(s: Seq<char>)
    ensures
        lowered(s) == "inf"@ || lowered(s) == "infinity"@ ==> real_number(s) == Some(Real::PosInf),
        lowered(s) == "nan"@ ==> real_number(s) == Some(Real::NaN),
{
    reveal_strlit("inf");
    reveal_strlit("infinity");
    reveal_strlit("nan");
    assert(lowered("inf"@) =~= "inf"@);
    assert(lowered("infinity"@) =~= "infinity"@);
    assert(lowered("nan"@) =~= "nan"@);
    if s.len() > 0 {
        assert(lowered(s)[0] == lower(s[0]));
    }
    if lowered(s) == "inf"@ || lowered(s) == "infinity"@ || lowered(s) == "nan"@ {
        assert(s.len() == lowered(s).len());
    }
}

/// What is shown can be read again, and is worth what it shows.
pub proof fn what_is_shown_reads_back(n: nat, places: nat)
    requires
        places <= 9,
    ensures
        real_number(units_text(n, places)) == Some(
            signed(false, n * pow10((9 - places) as nat)),
        ),
{
    if places == 0 {
        decimals_are_worth(n, 0, 1);
        nine_zeros();
    } else {
        let p = pow10(places);
        power_positive(places);
        let whole = n / p;
        let part = n % p;
        assert(part < p) by (nonlinear_arith)
            requires
                part == n % p,
                p > 0,
        ;
        assert(whole * p + part == n) by (nonlinear_arith)
            requires
                whole == n / p,
                part == n % p,
                p > 0,
        ;
        decimals_are_worth(whole, part, places);
    }
}

/// A quotient is shown to the nearest unit of its last decimal, but for what a 53-bit
/// number cannot tell.
pub proof fn a_quotient_is_shown_to_the_nearest(num: nat, den: nat, places: nat)
    requires
        num > 0,
        den > 0,
    ensures
        ({
            let d = nearest_double(num, den);
            let n = d.in_units(places);
            let x = d.mantissa * d.up * pow10(places);
            &&& decimal_text(num, den, places) == units_text(n, places)
            &&& d.down > 0
            &&& 2 * x - d.down <= 2 * (n * d.down) <= 2 * x + d.down
            &&& is_near(d, num, den)
        }),
{
    nearest_is_near(num, den);
    let d = nearest_double(num, den);
    half_even_near(d.mantissa * d.up * pow10(places), d.down);
}

/// A number is shown with its sign in front: a minus below zero, and from zero on a
/// plus where one is asked for.
pub proof fn a_sign_is_shown_in_front(t: i128, places: nat)
    requires
        t > i128::MIN,
    ensures
        t >= 0 ==> real_text(Real::Finite(t), places, false) == decimal_text(
            t as nat,
            1_000_000_000,
            places,
        ),
        t >= 0 ==> real_text(Real::Finite(t), places, true) == seq!['+'] + real_text(
            Real::Finite(t),
            places,
            false,
        ),
        t < 0 ==> real_text(Real::Finite(t), places, false) == seq!['-'] + real_text(
            Real::Finite((-t) as i128),
            places,
            false,
        ),
        t < 0 ==> real_text(Real::Finite(t), places, true) == real_text(
            Real::Finite(t),
            places,
            false,
        ),
{
}

/// A quotient in billionths is rounded down: the remainder is less than one of them.
pub proof fn a_ratio_is_rounded_down(a: nat, b: nat)
    requires
        b > 0,
    ensures
        ratio(a, b) * b <= a * 1_000_000_000,
        a * 1_000_000_000 < (ratio(a, b) + 1) * b,
{
    let x = a * 1_000_000_000;
    let q = x / b;
    assert(q * b <= x < (q + 1) * b) by (nonlinear_arith)
        requires
            b > 0,
            q == x / b,
            x >= 0,
    ;
}

/// Numbers compare as numbers do; below them all is one value, above them all another,
/// and what is no number is beside them.
pub proof fn numbers_compare_as_they_are(x: i128, y: i128)
    ensures
        at_most(Real::Finite(x), Real::Finite(y)) <==> x <= y,
        at_most(Real::NegInf, Real::Finite(x)) && !at_most(Real::Finite(x), Real::NegInf),
        at_most(Real::Finite(x), Real::PosInf) && !at_most(Real::PosInf, Real::Finite(x)),
        at_most(Real::NegInf, Real::PosInf) && !at_most(Real::PosInf, Real::NegInf),
        !at_most(Real::NaN, Real::Finite(x)) && !at_most(Real::Finite(x), Real::NaN),
{
}

/// A number of billionths is itself, with its sign, as far as can be counted, and
/// infinite beyond.
pub proof fn billionths_are_signed(n: nat)
    ensures
        n <= i128::MAX ==> signed(false, n) == Real::Finite(n as i128) && signed(true, n)
            == Real::Finite((-n) as i128),
        n > i128::MAX ==> signed(false, n) == Real::PosInf && signed(true, n) == Real::NegInf,
{
}

/// Halfway between two whole numbers, rounding goes to the even one.
pub proof fn halves_go_to_the_even(q: nat, d: nat)
    requires
        d > 0,
    ensures
        half_even((2 * q + 1) * d, 2 * d) == (if q % 2 == 0 {
            q
        } else {
            q + 1
        }),
{
    let a = (2 * q + 1) * d;
    let b = 2 * d;
    assert(a == q * b + d) by (nonlinear_arith)
        requires
            a == (2 * q + 1) * d,
            b == 2 * d,
    ;
    assert(a / b == q && a % b == d) by (nonlinear_arith)
        requires
            a == q * b + d,
            b == 2 * d,
            d > 0,
    ;
}

/// An exponent moves the point: behind `e` stands by how many places, to the right, or
/// to the left behind a minus sign.
#[verifier::spinoff_prover]
#[verifier::rlimit(40)]
pub proof fn an_exponent_moves_the_point(a: nat, k: nat)
    ensures
        real_number(digits(a).push('e') + digits(k)) == Some(signed(false, a * pow10(k + 9))),
        real_number(digits(a).push('E') + digits(k)) == Some(signed(false, a * pow10(k + 9))),
        k <= 9 ==> real_number(digits(a).push('e').push('-') + digits(k)) == Some(
            signed(false, a * pow10((9 - k) as nat)),
        ),
{
    let ds = digits(a);
    let e = digits(k);
    digits_read_back(a);
    digits_read_back(k);
    assert(is_digit(ds[0]) && is_digit(e[0]));
    plain_digits(ds);
    let n = ds.len() as int;
    let s = ds.push('e') + e;
    let t = ds.push('E') + e;
    let u = ds.push('e').push('-') + e;
    exponent_is_found(ds, 'e', e);
    exponent_is_found(ds, 'E', e);
    exponent_is_found(ds, 'e', seq!['-'] + e);
    assert(u =~= ds.push('e') + (seq!['-'] + e));
    assert((seq!['-'] + e).skip(1) =~= e);
    first_at_is(ds, '.', 0, n);
    assert(ds.take(n) =~= ds);
    assert(ds + Seq::<char>::empty() =~= ds);
    assert(decimal(s) == Some((ds, n + k)));
    assert(decimal(t) == Some((ds, n + k)));
    assert(decimal(u) == Some((ds, n - k)));
    assert(s[0] == ds[0] && t[0] == ds[0] && u[0] == ds[0]);
    begins_with_digit(s);
    begins_with_digit(t);
    begins_with_digit(u);
    lead_beyond(ds, k + 9);
    assert(!has_fraction(ds, n + k));
    if k <= 9 {
        lead_beyond(ds, (9 - k) as nat);
        fraction_within_nine(ds, n - k);
    }
}

/// Digits that end within nine places behind the point need no rounding.
proof fn fraction_within_nine(ds: Seq<char>, point: int)
    requires
        all_digits(ds),
        ds.len() <= point + 9,
    ensures
        billionths(ds, point) == lead(ds, (point + 9) as nat),
{
    between_wholes(ds, point);
    nine_zeros();
    if point >= 0 {
        lead_between(ds, point as nat, (point + 9) as nat);
    } else {
        lead_between(ds, 0, (point + 9) as nat);
    }
}

/// Digits hold neither a point nor an exponent.
proof fn plain_digits(s: Seq<char>)
    requires
        all_digits(s),
    ensures
        forall|j: int| 0 <= j < s.len() ==> #[trigger] s[j] != 'e' && s[j] != 'E' && s[j] != '.',
{
    assert forall|j: int| 0 <= j < s.len() implies #[trigger] s[j] != 'e' && s[j] != 'E' && s[j]
        != '.' by {
        assert(is_digit(s[j]));
    }
}

/// The exponent begins behind the first letter for it.
proof fn exponent_is_found(ds: Seq<char>, letter: char, rest: Seq<char>)
    requires
        forall|j: int| 0 <= j < ds.len() ==> #[trigger] ds[j] != 'e' && ds[j] != 'E',
        letter == 'e' || letter == 'E',
    ensures
        ({
            let s = ds.push(letter) + rest;
            &&& exponent_at(s) == ds.len()
            &&& s.take(ds.len() as int) == ds
            &&& s.skip(ds.len() as int + 1) == rest
        }),
{
    let s = ds.push(letter) + rest;
    let n = ds.len() as int;
    assert forall|j: int| 0 <= j < n implies s[j] != 'e' && s[j] != 'E' by {
        assert(s[j] == ds[j]);
    }
    first_at_is(s, letter, 0, n);
    let other = if letter == 'e' {
        'E'
    } else {
        'e'
    };
    first_at_finds(s, other, 0);
    assert(first_at(s, other, 0) > n) by {
        let i = first_at(s, other, 0);
        if i <= n {
            assert(s[i] == other);
        }
    }
    assert(s.take(n) =~= ds);
    assert(s.skip(n + 1) =~= rest);
}

/// Nothing is in order with what is no number, and each infinity is in order with
/// itself.
pub proof fn nothing_is_in_order_with_no_number(r: Real)
    ensures
        !at_most(Real::NaN, r) && !at_most(r, Real::NaN),
        at_most(r, r) <==> r != Real::NaN,
        at_most(Real::NegInf, r) <==> r != Real::NaN,
        at_most(r, Real::PosInf) <==> r != Real::NaN,
{
}

/// What is beyond all numbers is shown by its name, with a plus sign where one is
/// asked for, and with no decimals.
pub proof fn what_is_beyond_is_shown_by_name(places: nat)
    ensures
        real_text(Real::NaN, places, false) == seq!['N', 'a', 'N'],
        real_text(Real::NaN, places, true) == seq!['N', 'a', 'N'],
        real_text(Real::PosInf, places, false) == seq!['i', 'n', 'f'],
        real_text(Real::PosInf, places, true) == seq!['+', 'i', 'n', 'f'],
        real_text(Real::NegInf, places, false) == seq!['-', 'i', 'n', 'f'],
        real_text(Real::NegInf, places, true) == seq!['-', 'i', 'n', 'f'],
{
    reveal_strlit("NaN");
    reveal_strlit("inf");
    reveal_strlit("+inf");
    reveal_strlit("-inf");
    assert("NaN"@ =~= seq!['N', 'a', 'N']);
    assert("inf"@ =~= seq!['i', 'n', 'f']);
    assert("+inf"@ =~= seq!['+', 'i', 'n', 'f']);
    assert("-inf"@ =~= seq!['-', 'i', 'n', 'f']);
}

/// A number may begin with its point, as if a zero stood before it.
pub proof fn a_number_may_begin_with_its_point(fraction: Seq<char>)
    requires
        0 < fraction.len() <= 9,
        all_digits(fraction),
    ensures
        real_number(seq!['.'] + fraction) == Some(
            signed(false, number(fraction) * pow10((9 - fraction.len()) as nat)),
        ),
        real_number(seq!['.']) is None,
        real_number(Seq::empty()) is None,
{
    let s = seq!['.'] + fraction;
    reveal_strlit("inf");
    reveal_strlit("infinity");
    reveal_strlit("nan");
    assert(lowered(s)[0] == '.');
    assert(lowered(seq!['.'])[0] == '.');
    assert(lowered("inf"@)[0] == 'i' && lowered("inf"@).len() == 3);
    assert(lowered("infinity"@)[0] == 'i' && lowered("infinity"@).len() == 8);
    assert(lowered("nan"@)[0] == 'n' && lowered("nan"@).len() == 3);
    plain_digits(fraction);
    assert forall|j: int| 0 <= j < s.len() implies s[j] != 'e' && s[j] != 'E' by {
        if j > 0 {
            assert(s[j] == fraction[j - 1]);
        }
    }
    first_at_is(s, 'e', 0, s.len() as int);
    first_at_is(s, 'E', 0, s.len() as int);
    first_at_is(s, '.', 0, 0);
    assert(s.take(s.len() as int) =~= s);
    assert(s.skip(1) =~= fraction);
    assert(s.take(0) + fraction =~= fraction);
    assert(decimal(s) == Some((fraction, 0int)));
    lead_beyond(fraction, (9 - fraction.len()) as nat);
    within_nine(fraction, 0);
    let dot = seq!['.'];
    first_at_is(dot, 'e', 0, 1);
    first_at_is(dot, 'E', 0, 1);
    first_at_is(dot, '.', 0, 0);
    assert(dot.take(1) =~= dot);
    assert(dot.take(0) + dot.skip(1) =~= Seq::<char>::empty());
    assert(decimal(dot) is None);
    let none = Seq::<char>::empty();
    assert(lowered(none).len() == 0);
    first_at_is(none, 'e', 0, 0);
    first_at_is(none, 'E', 0, 0);
    first_at_is(none, '.', 0, 0);
    assert(none.take(0) + none =~= none);
    assert(none.take(0) =~= none);
    assert(decimal(none) is None);
}

/// Only digits make a number, with a sign in front, a point among them and an exponent
/// behind them, which may have a sign too. No other character stands in one.
pub proof fn only_digits_make_a_number(s: Seq<char>, i: int)
    requires
        real_number(s) is Some,
        real_number(s)->0 is Finite,
        0 <= i < s.len(),
    ensures
        ({
            let c = s[i];
            '0' <= c <= '9' || c == '.' || c == 'e' || c == 'E' || c == '+' || c == '-'
        }),
{
    let body = if s[0] == '-' || s[0] == '+' {
        s.skip(1)
    } else {
        s
    };
    let k = i - (s.len() - body.len());
    if k >= 0 {
        assert(s[i] == body[k]);
        let e = exponent_at(body);
        first_at_finds(body, 'e', 0);
        first_at_finds(body, 'E', 0);
        assert(decimal(body) is Some);
        if k < e {
            let mantissa = body.take(e);
            first_at_finds(mantissa, '.', 0);
            let p = first_at(mantissa, '.', 0);
            let fraction = if p < mantissa.len() {
                mantissa.skip(p + 1)
            } else {
                Seq::empty()
            };
            let ds = mantissa.take(p) + fraction;
            assert(all_digits(ds));
            assert(body[k] == mantissa[k]);
            if k < p {
                assert(ds[k] == mantissa[k]);
                assert(is_digit(ds[k]));
            } else if k > p {
                assert(ds[k - 1] == fraction[k - p - 1]);
                assert(is_digit(ds[k - 1]));
            }
        } else if k > e {
            let t = body.skip(e + 1);
            assert(exponent(t) is Some);
            assert(body[k] == t[k - e - 1]);
            let signed = t[0] == '-' || t[0] == '+';
            if signed && k - e - 1 > 0 {
                let rest = t.skip(1);
                assert(rest[k - e - 2] == t[k - e - 1]);
                assert(is_digit(rest[k - e - 2]));
            } else if !signed {
                assert(is_digit(t[k - e - 1]));
            }
        }
    }
}

/// An exponent with a plus sign is the exponent without it.
pub proof fn a_plus_in_front_of_an_exponent(a: nat, k: nat)
    ensures
        real_number(digits(a).push('e').push('+') + digits(k)) == Some(
            signed(false, a * pow10(k + 9)),
        ),
        real_number(digits(a).push('e')) is None,
{
    let ds = digits(a);
    let e = digits(k);
    digits_read_back(a);
    digits_read_back(k);
    assert(is_digit(ds[0]) && is_digit(e[0]));
    plain_digits(ds);
    an_exponent_moves_the_point(a, k);
    let n = ds.len() as int;
    let s = ds.push('e') + e;
    let u = ds.push('e').push('+') + e;
    exponent_is_found(ds, 'e', e);
    exponent_is_found(ds, 'e', seq!['+'] + e);
    assert(u =~= ds.push('e') + (seq!['+'] + e));
    assert((seq!['+'] + e).skip(1) =~= e);
    first_at_is(ds, '.', 0, n);
    assert(ds.take(n) =~= ds);
    assert(ds + Seq::<char>::empty() =~= ds);
    assert(decimal(s) == Some((ds, n + k)));
    assert(decimal(u) == Some((ds, n + k)));
    assert(s[0] == ds[0] && u[0] == ds[0]);
    begins_with_digit(s);
    begins_with_digit(u);
    let v = ds.push('e');
    exponent_is_found(ds, 'e', Seq::empty());
    assert(v + Seq::<char>::empty() =~= v);
    assert(v[0] == ds[0]);
    begins_with_digit(v);
    assert(decimal(v) is None);
}

/// A number with more than nine decimals goes to the nearest billionth, and from half
/// of one on to the higher; but a number with a fraction never goes to a whole number.
pub proof fn further_decimals_are_rounded(
    whole: Seq<char>,
    nine: Seq<char>,
    next: char,
    further: Seq<char>,
)
    requires
        whole.len() > 0,
        all_digits(whole),
        nine.len() == 9,
        all_digits(nine),
        is_digit(next),
        all_digits(further),
    ensures
        ({
            let text = whole.push('.') + (nine.push(next) + further);
            let below = number(whole + nine);
            let zero = forall|i: int| 0 <= i < further.len() ==> #[trigger] further[i] == '0';
            real_number(text) == Some(
                signed(
                    false,
                    if below % 1_000_000_000 == 0 && (next != '0' || !zero) {
                        below + 1
                    } else if next >= '5' && (below + 1) % 1_000_000_000 != 0 {
                        below + 1
                    } else {
                        below
                    },
                ),
            )
        }),
{
    let fraction = nine.push(next) + further;
    let s = whole.push('.') + fraction;
    let ds = whole + fraction;
    let w = whole.len() as int;
    assert(is_digit(whole[0]));
    assert(s[0] == whole[0]);
    begins_with_digit(s);
    assert(all_digits(fraction)) by {
        assert forall|j: int| 0 <= j < fraction.len() implies is_digit(#[trigger] fraction[j]) by {
            if j < 9 {
                assert(fraction[j] == nine[j]);
            } else if j > 9 {
                assert(fraction[j] == further[j - 10]);
            }
        }
    }
    plain_digits(whole);
    plain_digits(fraction);
    assert forall|j: int| 0 <= j < s.len() implies s[j] != 'e' && s[j] != 'E' by {
        if j < w {
            assert(s[j] == whole[j]);
        } else if j > w {
            assert(s[j] == fraction[j - w - 1]);
        }
    }
    first_at_is(s, 'e', 0, s.len() as int);
    first_at_is(s, 'E', 0, s.len() as int);
    assert(s.take(s.len() as int) =~= s);
    first_at_is(s, '.', 0, w);
    assert(s.take(w) =~= whole);
    assert(s.skip(w + 1) =~= fraction);
    assert(all_digits(ds)) by {
        assert forall|j: int| 0 <= j < ds.len() implies is_digit(#[trigger] ds[j]) by {
            if j >= w {
                assert(ds[j] == fraction[j - w]);
            } else {
                assert(ds[j] == whole[j]);
            }
        }
    }
    assert(decimal(s) == Some((ds, w)));
    let below = number(whole + nine);
    lead_is_number(ds, (w + 9) as nat);
    assert(ds.take(w + 9) =~= whole + nine);
    assert(lead(ds, (w + 9) as nat) == below);
    assert(ds[w + 9] == next);
    between_wholes(ds, w);
    nine_zeros();
    lead_between(ds, w as nat, (w + 9) as nat);
    let first = whole_part(ds, w);
    let u = 1_000_000_000nat;
    assert(first * u <= below < (first + 1) * u);
    assert(below / u == first && below % u == below - first * u) by (nonlinear_arith)
        requires
            first * u <= below < (first + 1) * u,
            u == 1_000_000_000,
    ;
    assert((below + 1) % u == 0 <==> below + 1 == (first + 1) * u) by (nonlinear_arith)
        requires
            first * u <= below < (first + 1) * u,
            u == 1_000_000_000,
    ;
    let zero = forall|i: int| 0 <= i < further.len() ==> #[trigger] further[i] == '0';
    if below % u == 0 {
        if has_fraction(ds, w) {
            let i = choose|i: int| w <= i && 0 <= i < ds.len() && digit_value(#[trigger] ds[i]) > 0;
            if i < w + 9 {
                assert(lead(ds, (w + 9) as nat) > lead(ds, w as nat) * pow10(9));
            } else if i > w + 9 {
                assert(ds[i] == further[i - w - 10]);
            }
        } else {
            assert(digit_value(ds[w + 9]) == 0);
            assert forall|i: int| 0 <= i < further.len() implies #[trigger] further[i] == '0' by {
                assert(ds[w + 10 + i] == further[i]);
                assert(digit_value(ds[w + 10 + i]) == 0);
                assert(is_digit(further[i]));
            }
        }
    } else if !has_fraction(ds, w) {
        no_digits_no_growth(ds, w as nat, (w + 9) as nat);
    }
}

proof fn no_digits_no_growth(ds: Seq<char>, m: nat, n: nat)
    requires
        m <= n,
        forall|i: int| m <= i < n && i < ds.len() ==> digit_value(#[trigger] ds[i]) == 0,
    ensures
        lead(ds, n) == lead(ds, m) * pow10((n - m) as nat),
    decreases n - m,
{
    if m < n {
        no_digits_no_growth(ds, m, (n - 1) as nat);
        let l = lead(ds, m);
        let p = pow10((n - 1 - m) as nat);
        assert((l * p) * 10 == l * (10 * p)) by (nonlinear_arith);
        if n - 1 < ds.len() {
            assert(digit_value(ds[n - 1]) == 0);
        }
    } else {
        assert(lead(ds, m) * 1 == lead(ds, m));
    }
}

} // verus!
