//! In/out marks defining the clip to export.
//!
//! Times are nanoseconds from the start of the source. The interesting decisions
//! are what happens when the marks would cross: silently reordering them confuses
//! ("I set in at 30s, why is it at 20s?"), and silently refusing is worse still,
//! because nothing visibly happens. So placing one mark past the other **drops
//! the other one** — the selection you were building is gone, which is honest and
//! obvious.

use vstd::prelude::*;

use crate::fixed::Real;

verus! {

/// Shortest exportable clip, in nanoseconds. Below roughly one frame there is
/// nothing to cut.
pub const MIN_CLIP: i128 = 10_000_000;

#[derive(Debug, Clone, Copy, PartialEq, Eq, Structural)]
pub struct Marks {
    pub in_point: Option<i128>,
    pub out_point: Option<i128>,
}

/// `value` held between zero and the end of the file. The end does not count
/// while it is unknown: not finite, or not positive. What is no finite time is
/// taken as the start.
pub open spec fn within(value: Real, duration: Real) -> int {
    match value {
        Real::Finite(v) => if v < 0 {
            0
        } else {
            match duration {
                Real::Finite(d) if 0 < d < v => d as int,
                _ => v as int,
            }
        },
        _ => 0,
    }
}

fn clamp(value: Real, duration: Real) -> (r: i128)
    ensures
        r == within(value, duration),
{
    match value {
        Real::Finite(v) => {
            if v < 0 {
                return 0;
            }
            match duration {
                Real::Finite(d) => {
                    if 0 < d && d < v {
                        d
                    } else {
                        v
                    }
                },
                _ => v,
            }
        },
        _ => 0,
    }
}

impl Default for Marks {
    fn default() -> (r: Self)
        ensures
            r == Marks::unset(),
    {
        Marks { in_point: None, out_point: None }
    }
}

impl Marks {
    /// No mark set.
    pub open spec fn unset() -> Marks {
        Marks { in_point: None, out_point: None }
    }

    /// The in-mark never stands at or behind the out-mark.
    pub open spec fn ordered(self) -> bool {
        match (self.in_point, self.out_point) {
            (Some(start), Some(end)) => start < end,
            _ => true,
        }
    }

    /// The in-mark at `at`; the out-mark stays only where it is still ahead.
    pub open spec fn with_in(self, at: int) -> Marks {
        Marks {
            in_point: Some(at as i128),
            out_point: match self.out_point {
                Some(end) if end <= at => None,
                kept => kept,
            },
        }
    }

    /// The out-mark at `at`; the in-mark stays only where it is still behind.
    pub open spec fn with_out(self, at: int) -> Marks {
        Marks {
            in_point: match self.in_point {
                Some(start) if start >= at => None,
                kept => kept,
            },
            out_point: Some(at as i128),
        }
    }

    /// Both marks are set, and the shortest clip or more lies between them.
    pub open spec fn encloses_a_clip(self) -> bool {
        match (self.in_point, self.out_point) {
            (Some(start), Some(end)) => end - start >= MIN_CLIP,
            _ => false,
        }
    }

    /// Start and length of the clip, where the marks enclose a usable span. A length
    /// beyond all that can be counted is the longest that can.
    pub open spec fn span(self) -> Option<(i128, i128)> {
        if self.encloses_a_clip() {
            let start = self.in_point->0;
            let length = self.out_point->0 - start;
            Some(
                (
                    start,
                    if length > i128::MAX {
                        i128::MAX
                    } else {
                        length as i128
                    },
                ),
            )
        } else {
            None
        }
    }

    /// Place the in-mark, dropping the out-mark if it would end up behind it.
    pub fn set_in(&mut self, at: Real, duration: Real)
        ensures
            *final(self) == old(self).with_in(within(at, duration)),
            final(self).ordered(),
    {
        let at: i128 = clamp(at, duration);
        self.in_point = Some(at);
        if let Some(end) = self.out_point {
            if end <= at {
                self.out_point = None;
            }
        }
    }

    /// Place the out-mark, dropping the in-mark if it would end up ahead of it.
    pub fn set_out(&mut self, at: Real, duration: Real)
        ensures
            *final(self) == old(self).with_out(within(at, duration)),
            final(self).ordered(),
    {
        let at: i128 = clamp(at, duration);
        self.out_point = Some(at);
        if let Some(start) = self.in_point {
            if start >= at {
                self.in_point = None;
            }
        }
    }

    pub fn clear(&mut self)
        ensures
            *final(self) == Marks::unset(),
    {
        *self = Marks { in_point: None, out_point: None };
    }

    /// `(start, duration)` when both marks are set and enclose a usable span.
    pub fn selection(&self) -> (r: Option<(i128, i128)>)
        ensures
            r == self.span(),
    {
        match (self.in_point, self.out_point) {
            (Some(start), Some(end)) => {
                if end < start {
                    return None;
                }
                let length: i128 = match end.checked_sub(start) {
                    Some(length) => length,
                    None => i128::MAX,
                };
                if length >= MIN_CLIP {
                    Some((start, length))
                } else {
                    None
                }
            },
            _ => None,
        }
    }

    pub fn is_exportable(&self) -> (r: bool)
        ensures
            r == self.span() is Some,
            r == self.encloses_a_clip(),
    {
        self.selection().is_some()
    }

    /// What still needs doing, in words.
    pub open spec fn missing_text(self) -> Option<Seq<char>> {
        if self.in_point is None && self.out_point is None {
            Some("Set an in and out point to export"@)
        } else if self.out_point is None {
            Some("Set an out point"@)
        } else if self.in_point is None {
            Some("Set an in point"@)
        } else if self.span() is None {
            Some("The selection is too short"@)
        } else {
            None
        }
    }

    /// What still needs doing, for the status line. `None` when ready.
    pub fn missing(&self) -> (r: Option<&'static str>)
        ensures
            match r {
                Some(text) => self.missing_text() == Some(text@),
                None => self.missing_text() is None,
            },
            r is None <==> self.encloses_a_clip(),
    {
        match (self.in_point, self.out_point) {
            (None, None) => Some("Set an in and out point to export"),
            (Some(_), None) => Some("Set an out point"),
            (None, Some(_)) => Some("Set an in point"),
            (Some(_), Some(_)) => {
                if self.is_exportable() {
                    None
                } else {
                    Some("The selection is too short")
                }
            },
        }
    }
}

// ---- laws ---------------------------------------------------------------------

/// Whatever mark is placed, wherever, and whatever stood before: it stands where
/// it was put, and the marks do not cross. The other mark is never moved, only
/// kept or dropped, and it is kept exactly when it is on its own side.
pub proof fn placing_a_mark_never_moves_the_other(m: Marks, at: Real, duration: Real)
    ensures
        ({
            let p = within(at, duration);
            let i = m.with_in(p);
            let o = m.with_out(p);
            &&& i.in_point == Some(p as i128) && i.ordered()
            &&& o.out_point == Some(p as i128) && o.ordered()
            &&& i.out_point == m.out_point || i.out_point is None
            &&& o.in_point == m.in_point || o.in_point is None
            &&& i.out_point is Some <==> (m.out_point matches Some(end) && p < end)
            &&& o.in_point is Some <==> (m.in_point matches Some(start) && start < p)
        }),
{
}

/// A mark lands inside a file of known length, and on the spot asked for when
/// that is inside. While the length is unknown, nothing but the start limits it.
pub proof fn marks_stay_inside_the_file(at: Real, duration: Real)
    ensures
        0 <= within(at, duration) <= i128::MAX,
        duration matches Real::Finite(d) ==> (d > 0 ==> within(at, duration) <= d),
        at matches Real::Finite(v) ==> (v >= 0 && (duration matches Real::Finite(d) ==> d <= 0 || v
            <= d) ==> within(at, duration) == v),
{
}

/// A selection lies between its marks, and is never shorter than the shortest clip.
/// It begins at the in-mark and, unless it is longer than can be counted, ends at the
/// out-mark; from a mark inside a file it can always be counted.
pub proof fn a_selection_is_a_usable_span(m: Marks)
    ensures
        m.span() matches Some((start, length)) ==> {
            &&& length >= MIN_CLIP
            &&& m.in_point == Some(start)
            &&& m.out_point matches Some(end) && start + length <= end
            &&& m.ordered()
            &&& start >= 0 || length < i128::MAX ==> m.out_point == Some((start + length) as i128)
        },
{
}

/// Nothing is missing exactly when there is a selection to export, which is exactly
/// when both marks are set and the shortest clip or more lies between them.
/// Otherwise, what is missing says which mark is not set, or that they are too close.
pub proof fn nothing_is_missing_exactly_when_it_can_be_exported(m: Marks)
    ensures
        m.missing_text() is None <==> m.span() is Some,
        m.missing_text() is None <==> (m.in_point is Some && m.out_point is Some
            && m.out_point->0 - m.in_point->0 >= MIN_CLIP),
        m.in_point is None && m.out_point is None ==> m.missing_text() == Some(
            "Set an in and out point to export"@,
        ),
        m.in_point is Some && m.out_point is None ==> m.missing_text() == Some(
            "Set an out point"@,
        ),
        m.in_point is None && m.out_point is Some ==> m.missing_text() == Some("Set an in point"@),
        m.in_point is Some && m.out_point is Some && m.missing_text() is Some
            ==> m.missing_text() == Some("The selection is too short"@),
{
}

/// A mark lands on the point of the file that is nearest to where it was asked for: the
/// start for what is before it or is no time at all, the end for what is behind it, and
/// the very spot for all between. Without a known end there is none to be behind.
pub proof fn a_mark_lands_on_the_nearest_point(v: i128, d: i128, unknown: Real)
    requires
        !(unknown is Finite) || unknown->Finite_0 <= 0,
    ensures
        v <= 0 ==> within(Real::Finite(v), Real::Finite(d)) == 0 && within(
            Real::Finite(v),
            unknown,
        ) == 0,
        d > 0 && 0 <= v <= d ==> within(Real::Finite(v), Real::Finite(d)) == v,
        d > 0 && v > d ==> within(Real::Finite(v), Real::Finite(d)) == d,
        v >= 0 ==> within(Real::Finite(v), unknown) == v,
        within(Real::PosInf, Real::Finite(d)) == 0,
        within(Real::NegInf, Real::Finite(d)) == 0,
        within(Real::NaN, Real::Finite(d)) == 0,
{
}

/// Placing a mark says all there is to say of both: the one placed is at its place, and
/// the other is where it was, unless it would be at or beyond it.
pub proof fn placing_a_mark_settles_both(m: Marks, at: i128)
    ensures
        m.with_in(at as int).in_point == Some(at),
        m.with_out(at as int).out_point == Some(at),
        m.out_point matches Some(end) ==> m.with_in(at as int).out_point == (if at < end {
            Some(end)
        } else {
            None
        }),
        m.in_point matches Some(start) ==> m.with_out(at as int).in_point == (if start < at {
            Some(start)
        } else {
            None
        }),
        m.out_point is None ==> m.with_in(at as int).out_point is None,
        m.in_point is None ==> m.with_out(at as int).in_point is None,
        Marks::unset().in_point is None && Marks::unset().out_point is None,
{
}

/// A selection of two marks inside a file is what lies between them, as soon as that is
/// a hundredth of a second.
pub proof fn a_selection_is_what_lies_between(start: i128, end: i128)
    requires
        0 <= start,
    ensures
        ({
            let m = Marks { in_point: Some(start), out_point: Some(end) };
            &&& end - start >= 10_000_000 ==> m.span() == Some((start, (end - start) as i128))
            &&& end - start < 10_000_000 ==> m.span() is None
        }),
{
}

/// A mark at no number lands on the start, however long the file is.
pub proof fn a_mark_at_no_number_lands_on_the_start(duration: Real)
    ensures
        within(Real::PosInf, duration) == 0,
        within(Real::NegInf, duration) == 0,
        within(Real::NaN, duration) == 0,
{
}

} // verus!
