use clipcut::fixed::Real;
use clipcut::marks::Marks;

const DUR: f64 = 100.0;

fn ns(v: f64) -> i128 {
    (v * 1e9).round() as i128
}

fn sec(v: f64) -> Real {
    if v.is_nan() {
        Real::NaN
    } else if v == f64::INFINITY {
        Real::PosInf
    } else if v == f64::NEG_INFINITY {
        Real::NegInf
    } else {
        Real::Finite(ns(v))
    }
}

#[test]
fn marks_start_empty() {
    let m = Marks::default();
    assert!(!m.is_exportable());
    assert_eq!(m.selection(), None);
    assert!(m.missing().is_some());
}

#[test]
fn a_normal_selection_reports_start_and_length() {
    let mut m = Marks::default();
    m.set_in(sec(10.0), sec(DUR));
    m.set_out(sec(25.5), sec(DUR));
    assert_eq!(m.selection(), Some((ns(10.0), ns(15.5))));
    assert!(m.is_exportable());
    assert_eq!(m.missing(), None);
}

#[test]
fn marks_are_clamped_to_the_file() {
    let mut m = Marks::default();
    m.set_in(sec(-5.0), sec(DUR));
    m.set_out(sec(500.0), sec(DUR));
    assert_eq!(m.in_point, Some(ns(0.0)));
    assert_eq!(m.out_point, Some(ns(DUR)));
}

#[test]
fn an_unknown_duration_does_not_clamp_to_zero() {
    // Duration is unavailable briefly after loading; marks must still work.
    let mut m = Marks::default();
    m.set_in(sec(12.0), sec(0.0));
    assert_eq!(m.in_point, Some(ns(12.0)));
    m.set_out(sec(30.0), sec(f64::NAN));
    assert_eq!(m.out_point, Some(ns(30.0)));
}

#[test]
fn moving_in_past_out_drops_out() {
    let mut m = Marks::default();
    m.set_in(sec(10.0), sec(DUR));
    m.set_out(sec(20.0), sec(DUR));
    m.set_in(sec(30.0), sec(DUR));
    assert_eq!(m.in_point, Some(ns(30.0)));
    assert_eq!(m.out_point, None, "the stale out-mark must not survive");
}

#[test]
fn moving_out_before_in_drops_in() {
    let mut m = Marks::default();
    m.set_in(sec(10.0), sec(DUR));
    m.set_out(sec(20.0), sec(DUR));
    m.set_out(sec(5.0), sec(DUR));
    assert_eq!(m.out_point, Some(ns(5.0)));
    assert_eq!(m.in_point, None);
}

#[test]
fn coincident_marks_are_treated_as_crossing() {
    let mut m = Marks::default();
    m.set_in(sec(10.0), sec(DUR));
    m.set_out(sec(10.0), sec(DUR));
    // A zero-length clip is meaningless, so this is not left as a selection.
    assert_eq!(m.in_point, None);
    assert!(!m.is_exportable());
}

#[test]
fn a_selection_shorter_than_a_frame_is_not_exportable() {
    let mut m = Marks::default();
    m.set_in(sec(10.0), sec(DUR));
    m.set_out(sec(10.001), sec(DUR));
    assert!(!m.is_exportable());
    assert_eq!(m.missing(), Some("The selection is too short"));
}

#[test]
fn missing_describes_what_is_needed() {
    let mut m = Marks::default();
    assert_eq!(m.missing(), Some("Set an in and out point to export"));
    m.set_in(sec(1.0), sec(DUR));
    assert_eq!(m.missing(), Some("Set an out point"));
    m.clear();
    m.set_out(sec(9.0), sec(DUR));
    assert_eq!(m.missing(), Some("Set an in point"));
}

#[test]
fn clearing_resets_everything() {
    let mut m = Marks::default();
    m.set_in(sec(1.0), sec(DUR));
    m.set_out(sec(9.0), sec(DUR));
    m.clear();
    assert_eq!(m, Marks::default());
}

#[test]
fn a_mark_that_is_no_time_goes_to_the_start() {
    let mut m = Marks::default();
    m.set_in(sec(f64::NAN), sec(DUR));
    assert_eq!(m.in_point, Some(0));
    m.set_in(sec(f64::INFINITY), sec(DUR));
    assert_eq!(m.in_point, Some(0));
    m.set_out(sec(5.0), sec(f64::INFINITY));
    assert_eq!(m.selection(), Some((0, ns(5.0))));
}

#[test]
fn the_shortest_clip_is_a_hundredth_of_a_second() {
    let mut m = Marks::default();
    m.set_in(sec(1.0), sec(DUR));
    m.set_out(Real::Finite(1_009_999_999), sec(DUR));
    assert_eq!(m.selection(), None);
    m.set_out(Real::Finite(1_010_000_000), sec(DUR));
    assert_eq!(m.selection(), Some((ns(1.0), 10_000_000)));
}

#[test]
fn the_other_mark_is_kept_where_it_stands() {
    let mut m = Marks::default();
    m.set_in(sec(10.0), sec(DUR));
    m.set_out(sec(20.0), sec(DUR));
    m.set_in(sec(19.999), sec(DUR));
    assert_eq!(m.out_point, Some(ns(20.0)));
    m.set_out(sec(30.0), sec(DUR));
    assert_eq!(m.in_point, Some(ns(19.999)));
}

#[test]
fn nothing_is_missing_exactly_when_it_can_be_exported() {
    let ends = [None, Some(i128::MIN), Some(-1), Some(0), Some(10_000_000), Some(i128::MAX)];
    for in_point in ends {
        for out_point in ends {
            let m = Marks { in_point, out_point };
            let want = match (in_point, out_point) {
                (None, None) => Some("Set an in and out point to export"),
                (Some(_), None) => Some("Set an out point"),
                (None, Some(_)) => Some("Set an in point"),
                (Some(a), Some(b)) if b.saturating_sub(a) < 10_000_000 => {
                    Some("The selection is too short")
                }
                _ => None,
            };
            assert_eq!(m.missing(), want, "{m:?}");
            assert_eq!(m.is_exportable(), want.is_none(), "{m:?}");
            assert_eq!(m.selection().is_some(), want.is_none(), "{m:?}");
        }
    }
}
