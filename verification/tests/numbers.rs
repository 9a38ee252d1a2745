use clipcut::fixed::{divide, parse_real, push_decimal, push_real, Real};
use clipcut::text::{
    chars_of, in_order, lines, parse_whole, split, text_of, trim, trim_trailing, word_two,
};

fn read(s: &str) -> Option<Real> {
    parse_real(&chars_of(s))
}

fn shown(v: f64, places: usize) -> String {
    let mut out = String::new();
    push_real(&mut out, Real::Finite((v * 1e9).round() as i128), places, false);
    out
}

#[test]
fn numbers_are_read_as_floats_are() {
    for s in ["0", "1.5", "-2.25", "+3", ".5", "5.", "1e3", "1.5E-2", "-0", "1e+2", "000.125"] {
        let v: f64 = s.parse().unwrap();
        assert_eq!(read(s), Some(Real::Finite((v * 1e9).round() as i128)), "{s}");
    }
    for s in ["", ".", "-", "+", "e5", "1e", "1e+", "1.2.3", "1x", " 1", "1 ", "--1", "0x1", "1_0", "in", "infin", "nann"] {
        assert!(s.parse::<f64>().is_err(), "{s}");
        assert_eq!(read(s), None, "{s}");
    }
    for s in ["inf", "Infinity", "+INF"] {
        assert!(s.parse::<f64>().unwrap().is_infinite());
        assert_eq!(read(s), Some(Real::PosInf), "{s}");
    }
    assert_eq!(read("-inf"), Some(Real::NegInf));
    assert_eq!(read("NaN"), Some(Real::NaN));
    assert_eq!(read("-nan"), Some(Real::NaN));
    assert_eq!(read("1e400"), Some(Real::PosInf));
    assert_eq!(read("-1e400"), Some(Real::NegInf));
    assert_eq!(read("0e-400"), Some(Real::Finite(0)));
}

#[test]
fn a_number_stays_on_its_side_of_a_whole_one() {
    assert_eq!(read("0.0000000004"), Some(Real::Finite(1)));
    assert_eq!(read("-1e-30"), Some(Real::Finite(-1)));
    assert_eq!(read("59.9999999999"), Some(Real::Finite(59_999_999_999)));
    assert_eq!(read("60.0000000001"), Some(Real::Finite(60_000_000_001)));
    assert_eq!(read("60.0000000000"), Some(Real::Finite(60_000_000_000)));
    assert_eq!(read("1.0000000015"), Some(Real::Finite(1_000_000_002)));
    assert_eq!(read("1.0000000024"), Some(Real::Finite(1_000_000_002)));
    assert_eq!(read("5999999999999e-12"), Some(Real::Finite(5_999_999_999)));
}

#[test]
fn numbers_are_shown_as_floats_are() {
    for v in [0.0, 0.05, 0.15, 0.25, 0.35, 1.005, 2.5, 9.995, 99.95, 1234.5678, 62.53, 0.5, 1.5] {
        assert_eq!(shown(v, 0), format!("{v:.0}"), "{v}");
        assert_eq!(shown(v, 1), format!("{v:.1}"), "{v}");
        assert_eq!(shown(v, 2), format!("{v:.2}"), "{v}");
        assert_eq!(shown(v, 3), format!("{v:.3}"), "{v}");
        assert_eq!(shown(v, 4), format!("{v:.4}"), "{v}");
        assert_eq!(shown(-v - 1.0, 2), format!("{:.2}", -v - 1.0), "{v}");
    }
}

#[test]
fn quotients_are_shown_as_floats_are() {
    for (a, b) in [(1u64, 3u64), (2, 3), (9_995, 1000), (99_950, 1000), (1_005, 1000), (7, 1000)] {
        for places in 0..3 {
            let mut out = String::new();
            push_decimal(&mut out, a as u128, b as u128, places);
            assert_eq!(out, format!("{:.*}", places, a as f64 / b as f64), "{a}/{b}");
        }
    }
}

#[test]
fn quotients_are_rounded_down_to_billionths() {
    assert_eq!(divide(1, 3), Some(333_333_333));
    assert_eq!(divide(10, 4), Some(2_500_000_000));
    assert_eq!(divide(0, 7), Some(0));
    assert_eq!(divide(u128::MAX, 1), None);
}

#[test]
fn whole_numbers_are_read_as_integers_are() {
    for s in ["0", "7", "+7", "007", "18446744073709551615"] {
        assert_eq!(parse_whole(&chars_of(s), u64::MAX), s.parse::<u64>().ok(), "{s}");
    }
    for s in ["", "+", "-1", "1.0", " 1", "18446744073709551616", "1a"] {
        assert!(s.parse::<u64>().is_err());
        assert_eq!(parse_whole(&chars_of(s), u64::MAX), None, "{s}");
    }
    assert_eq!(parse_whole(&chars_of("256"), 255), None);
}

#[test]
fn text_is_cut_as_strings_are() {
    for s in ["a\nb\r\nc", "a\n", "\n\n", "", "x\r", "x\r\r\n", "\r\n"] {
        let cs = chars_of(s);
        let got: Vec<String> = lines(&cs).iter().map(|l| text_of(l)).collect();
        let want: Vec<String> = s.lines().map(|l| l.to_string()).collect();
        assert_eq!(got, want, "{s:?}");
    }
    for s in ["a,b,,c", "", ",", "abc"] {
        let cs = chars_of(s);
        let got: Vec<String> = split(&cs, ',').iter().map(|l| text_of(l)).collect();
        let want: Vec<String> = s.split(',').map(|l| l.to_string()).collect();
        assert_eq!(got, want, "{s:?}");
    }
    for s in [" a b ", "\u{a0}x\u{2003}", "", "\t\n", "é\u{3000}"] {
        let cs = chars_of(s);
        assert_eq!(text_of(trim(&cs)), s.trim(), "{s:?}");
    }
    for s in ["a\r\n", "\r\n\r", "abc", "a\rb\n"] {
        let cs = chars_of(s);
        assert_eq!(text_of(trim_trailing(&cs, '\r', '\n')), s.trim_end_matches(['\r', '\n']));
    }
    for s in [" V.. name rest", "one", "", " a\tb", "a b"] {
        let cs = chars_of(s);
        assert_eq!(
            word_two(&cs).map(|w| text_of(w)),
            s.split_whitespace().nth(1).map(|w| w.to_string()),
            "{s:?}"
        );
    }
}

#[test]
fn text_is_ordered_as_strings_are() {
    let all = ["", "a", "ab", "b", "B", "é", "z", "\u{10000}", "\u{ffff}"];
    for a in all {
        for b in all {
            assert_eq!(in_order(&chars_of(a), &chars_of(b)), a <= b, "{a:?} {b:?}");
        }
    }
}
