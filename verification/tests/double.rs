use std::cmp::Ordering;

use powerdisplay::big::{from_u64, shifted, to_text};
use powerdisplay::double::{quotient, to_whole, Double, INFINITE, NOT_A_NUMBER, ONE};
use powerdisplay::rate::{format_fixed, parse_rate};

fn number(n: f64) -> Double {
    Double { bits: n.to_bits() }
}

/// Bits that look random, the same at every run.
fn draw(seed: &mut u64) -> u64 {
    *seed ^= *seed << 13;
    *seed ^= *seed >> 7;
    *seed ^= *seed << 17;
    *seed
}

fn samples() -> Vec<f64> {
    let mut list = vec![
        0.0,
        -0.0,
        1.0,
        -1.0,
        0.001,
        0.0005,
        0.5,
        1.5,
        2.5,
        59.94,
        60.0005,
        59.810825347900391,
        1.6,
        852.5,
        2147483646.5,
        2147483647.5,
        9007199254740991.0,
        9007199254740993.0,
        1e22,
        1e23,
        f64::MIN_POSITIVE,
        -f64::MIN_POSITIVE / 4.0,
        f64::from_bits(1),
        f64::from_bits(0x000f_ffff_ffff_ffff),
        f64::MAX,
        f64::MIN,
        f64::INFINITY,
        f64::NEG_INFINITY,
    ];
    let mut seed: u64 = 0x9e37_79b9_7f4a_7c15;
    for _ in 0..60 {
        let any = f64::from_bits(draw(&mut seed));
        if !any.is_nan() {
            list.push(any);
        }
        list.push((draw(&mut seed) % 1_000_000_000) as f64 / 1_000_000.0);
    }
    list
}

#[test]
fn numbers_are_written_in_full() {
    for n in samples() {
        assert_eq!(format_fixed(number(n), 2), format!("{n:.2}"));
        assert_eq!(format_fixed(number(n), 3), format!("{n:.3}"));
    }
    assert_eq!(format_fixed(number(f64::NAN), 3), format!("{:.3}", f64::NAN));
    assert_eq!(to_text(&shifted(&from_u64(1), 70)), "1180591620717411303424");
}

#[test]
fn texts_are_read_to_the_nearest_number() {
    for n in samples() {
        for text in [format!("{n}"), format!("{n:e}"), format!("{n:.3}"), format!("{n:.30}")] {
            let want: f64 = text.parse().unwrap();
            assert_eq!(parse_rate(&text), Some(number(want)), "{text}");
        }
        assert_eq!(parse_rate(&format!("{n}")), Some(number(n)));
    }
    let halfway = "9007199254740993";
    assert_eq!(parse_rate(halfway), Some(number(9007199254740992.0)));
    let above = "9007199254740993.00000000000000000000000000001";
    assert_eq!(parse_rate(above), Some(number(9007199254740994.0)));
    for text in ["", "+", "e5", "1e+", "1_0", "0x1", " 1", "1 ", "nan1", "--1", "1.2.3"] {
        assert!(text.parse::<f64>().is_err());
        assert_eq!(parse_rate(text), None, "{text}");
    }
    for text in ["1.", ".5", "+.5e-3", "007", "1E400", "1e-400", "2.4703282292062328e-324"] {
        let want: f64 = text.parse().unwrap();
        assert_eq!(parse_rate(text), Some(number(want)), "{text}");
    }
}

#[test]
fn quotients_are_those_of_the_machine() {
    let mut seed: u64 = 7;
    for _ in 0..200 {
        let n = draw(&mut seed) >> (draw(&mut seed) % 60 + 4);
        let d = (draw(&mut seed) >> 31) + 1;
        if n < 1 << 53 {
            assert_eq!(quotient(n, d), number(n as f64 / d as f64));
        }
    }
    assert_eq!(quotient(1, 3), number(1.0 / 3.0));
    assert_eq!(quotient(5, 5).bits, ONE);
}

#[test]
fn gaps_are_those_of_the_machine() {
    let list = samples();
    for a in list.iter().step_by(3) {
        for b in list.iter().step_by(2) {
            let want = (a - b).abs();
            let bits = if want.is_nan() { NOT_A_NUMBER } else { want.to_bits() };
            assert_eq!(number(*a).gap_to(number(*b)), bits, "{a} {b}");
        }
    }
    assert_eq!(number(f64::NAN).gap_to(number(1.0)), NOT_A_NUMBER);
    assert_eq!(number(1.0).gap_to(number(f64::NEG_INFINITY)), INFINITE);
}

#[test]
fn numbers_stand_in_order() {
    let mut list = samples();
    list.push(f64::NAN);
    list.push(-f64::NAN);
    for a in &list {
        for b in &list {
            assert_eq!(
                number(*a).precedes(number(*b)),
                a.total_cmp(b) == Ordering::Less,
                "{a} {b}"
            );
        }
        assert_eq!(number(*a).is_positive(), *a > 0.0);
    }
}

#[test]
fn whole_numbers_are_those_of_the_machine() {
    for n in samples() {
        if n >= 0.0 {
            assert_eq!(to_whole(n.abs().to_bits()), n.round() as i32, "{n}");
        }
        if n > 0.0 {
            for pixels in [0u32, 1, 1364, 1920, u32::MAX] {
                let want = f64::from(pixels) / n;
                assert_eq!(number(n).divides(pixels), want.to_bits(), "{pixels} {n}");
            }
        }
    }
}
