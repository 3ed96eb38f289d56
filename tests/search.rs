use gyrator_calculator::argument::{tolerance_window, PARTS};
use gyrator_calculator::natural::Natural;
use gyrator_calculator::quantity::{compare_products, Quantity};
use gyrator_calculator::search::calculate;
use gyrator_calculator::series::{series_table, Series};
use gyrator_calculator::{Arg, Input, Selection};
use std::cmp::Ordering;
use std::f64::consts::PI;

fn q(significand: u64, exponent: i32) -> Quantity {
    Quantity::new(significand, exponent)
}

fn to_f64(x: Quantity) -> f64 {
    x.significand as f64 * 10f64.powi(x.exponent)
}

fn values(v: &[Quantity]) -> Vec<f64> {
    v.iter().map(|x| to_f64(*x)).collect()
}

fn frequency_of(s: &Selection) -> f64 {
    let l = to_f64(s.r1) * to_f64(s.r2) * to_f64(s.c2);
    1.0 / (2.0 * PI * (l * to_f64(s.c1)).sqrt())
}

fn q_factor_of(s: &Selection) -> f64 {
    let l = to_f64(s.r1) * to_f64(s.r2) * to_f64(s.c2);
    2.0 * PI * frequency_of(s) * l / to_f64(s.r1)
}

fn close(a: f64, b: f64) -> bool {
    (a - b).abs() <= 1e-9 * b.abs().max(1e-300)
}

#[test]
fn e6_decade_holds_six_values() {
    let t = series_table(Series::E6, q(1, 0), q(10, 0));
    let expected: Vec<Quantity> =
        [100, 150, 220, 330, 470, 680].iter().map(|m| q(*m, -2)).collect();
    assert_eq!(t, expected);
}

#[test]
fn e12_decade_adds_six_values() {
    let t = series_table(Series::E12, q(1, 0), q(10, 0));
    let expected: Vec<Quantity> = [100, 120, 150, 180, 220, 270, 330, 390, 470, 560, 680, 820]
        .iter()
        .map(|m| q(*m, -2))
        .collect();
    assert_eq!(t.len(), 12);
    assert_eq!(t, expected);
}

#[test]
fn series_bounds_are_half_open() {
    // 1k is kept, 10k is not.
    let t = series_table(Series::E24, q(1, 3), q(10, 3));
    assert_eq!(t.len(), 24);
    assert_eq!(t[0], q(100, 1));
    assert_eq!(*t.last().unwrap(), q(910, 1));
    let v = values(&t);
    for w in v.windows(2) {
        assert!(w[0] < w[1]);
    }
    for x in &v {
        assert!(*x >= 1000.0 && *x < 10000.0);
    }
}

#[test]
fn series_bounds_in_other_units() {
    // The same bounds written with other exponents give the same values.
    let a = series_table(Series::E48, q(1, 3), q(10, 3));
    let b = series_table(Series::E48, q(1000, 0), q(100, 2));
    assert_eq!(a, b);
    assert_eq!(a.len(), 69);
}

#[test]
fn series_extremes() {
    let all = series_table(Series::E48, q(0, 0), q(1, 12));
    assert_eq!(all.len(), 69 * 24);
    assert_eq!(all[0], q(100, -17));
    assert_eq!(*all.last().unwrap(), q(953, 6));
}

#[test]
fn empty_or_reversed_range_gives_nothing() {
    assert!(series_table(Series::E12, q(1, 3), q(1, 3)).is_empty());
    assert!(series_table(Series::E12, q(10, 3), q(1, 3)).is_empty());
}

#[test]
fn series_names() {
    assert_eq!(Series::E6.as_str(), "e6");
    assert_eq!(Series::E12.as_str(), "e12");
    assert_eq!(Series::E24.as_str(), "e24");
    assert_eq!(Series::E48.as_str(), "e48");
    assert_eq!(Series::from("e24".to_string()), Series::E24);
    assert_eq!(Series::from("e48".to_string()), Series::E48);
    assert_eq!(Series::from("e12".to_string()), Series::E12);
    assert_eq!(Series::from("bogus".to_string()), Series::E6);
}

#[test]
fn tolerance_window_is_symmetric() {
    let w = tolerance_window(q(2, 0), 100_000_000);
    assert_eq!(w.low_factor, 900_000_000);
    assert_eq!(w.high_factor, 1_100_000_000);
    assert_eq!(w.low, q(2, 0));
    assert_eq!(w.high, q(2, 0));
    let low = to_f64(w.low) * w.low_factor as f64 / PARTS as f64;
    let high = to_f64(w.high) * w.high_factor as f64 / PARTS as f64;
    assert!(close(low, 1.8) && close(high, 2.2));
    assert!(low <= 2.0 && 2.0 <= high);
}

#[test]
fn tolerance_above_one_keeps_lower_end_at_zero() {
    let w = tolerance_window(q(2, 0), 1_500_000_000);
    assert_eq!(w.low_factor, 0);
    assert_eq!(w.high_factor, 2_500_000_000);
}

#[test]
fn series_input_bounds_fall_back_independently() {
    let input = Input::InputWithSeries(Series::E12, None, Some(q(5, 3)), q(1, 3), q(100, 3));
    assert_eq!(input.to_arg(), Some(Arg::ArgWithSeries(Series::E12, q(1, 3), q(5, 3))));
    let input = Input::InputWithSeries(Series::E12, Some(q(2, 3)), None, q(1, 3), q(100, 3));
    assert_eq!(input.to_arg(), Some(Arg::ArgWithSeries(Series::E12, q(2, 3), q(100, 3))));
    let input = Input::InputWithSeries(Series::E6, None, None, q(1, 3), q(100, 3));
    assert_eq!(input.to_arg(), Some(Arg::ArgWithSeries(Series::E6, q(1, 3), q(100, 3))));
}

#[test]
fn exact_input_resolution() {
    assert_eq!(Input::InputWithExact(None, None).to_arg(), None);
    assert_eq!(
        Input::InputWithExact(Some(q(3, 0)), Some(q(4, 0))).to_arg(),
        Some(Arg::ArgWithExact(q(3, 0)))
    );
    assert_eq!(
        Input::InputWithExact(None, Some(q(4, 0))).to_arg(),
        Some(Arg::ArgWithExact(q(4, 0)))
    );
}

#[test]
fn tolerance_input_resolution() {
    assert_eq!(
        Input::InputWithTolerance(None, 50_000_000, q(7, 0)).to_arg(),
        Some(Arg::ArgWithTolerance(q(7, 0), 50_000_000))
    );
    assert_eq!(
        Input::InputWithTolerance(Some(q(8, 0)), 50_000_000, q(7, 0)).to_arg(),
        Some(Arg::ArgWithTolerance(q(8, 0), 50_000_000))
    );
}

#[test]
fn tables_of_arguments() {
    assert_eq!(Arg::ArgWithExact(q(5, 1)).to_table(), vec![q(5, 1)]);
    assert_eq!(Arg::ArgWithTolerance(q(5, 1), 10).to_table(), vec![q(5, 1)]);
    assert_eq!(Arg::ArgWithSeries(Series::E6, q(1, 0), q(2, 0)).to_table(), vec![q(100, -2), q(150, -2)]);
}

#[test]
fn unit_values_give_one_result() {
    let one = Arg::ArgWithExact(q(1, 0));
    let r = calculate(
        Arg::ArgWithTolerance(q(1, 0), 1_000_000_000),
        Arg::ArgWithTolerance(q(1, 0), 500_000_000),
        one,
        one,
        one,
        one,
    );
    assert_eq!(r.len(), 1);
    let s = r[0];
    assert_eq!(s.r1_resistance(), q(1, 0));
    assert_eq!(s.r2_resistance(), q(1, 0));
    assert_eq!(s.c1_capacitance(), q(1, 0));
    assert_eq!(s.c2_capacitance(), q(1, 0));
    let (l, e) = s.inductance();
    assert!(matches!(l.compare(&Natural::from_u64(1)), Ordering::Equal));
    assert_eq!(e, 0);
    assert!((frequency_of(&s) - 0.159155).abs() < 1e-6);
    assert!(close(q_factor_of(&s), 1.0));
}

#[test]
fn low_frequency_target_prunes_by_inductance() {
    let one = Arg::ArgWithExact(q(1, 0));
    let r = calculate(
        Arg::ArgWithTolerance(q(5, -2), 1_000_000_000),
        Arg::ArgWithTolerance(q(1, 0), 500_000_000),
        one,
        one,
        one,
        one,
    );
    assert!(r.is_empty());
}

#[test]
fn zero_frequency_target_gives_nothing() {
    let one = Arg::ArgWithExact(q(1, 0));
    let r = calculate(
        Arg::ArgWithTolerance(q(0, 0), 1_000_000_000),
        Arg::ArgWithTolerance(q(1, 0), 1_000_000_000),
        one,
        one,
        one,
        one,
    );
    assert!(r.is_empty());
}

#[test]
fn zero_width_series_range_gives_nothing() {
    let freq = Arg::ArgWithTolerance(q(1, 3), 100_000_000);
    let quality = Arg::ArgWithTolerance(q(707, -3), 200_000_000);
    let rs = Arg::ArgWithSeries(Series::E12, q(1, 3), q(100, 3));
    let cs = Arg::ArgWithSeries(Series::E6, q(1, -9), q(1, -6));
    let empty = Arg::ArgWithSeries(Series::E12, q(1, 3), q(1, 3));
    assert!(calculate(freq, quality, empty, rs, cs, cs).is_empty());
    assert!(calculate(freq, quality, rs, empty, cs, cs).is_empty());
    assert!(calculate(freq, quality, rs, rs, empty, cs).is_empty());
    assert!(calculate(freq, quality, rs, rs, cs, empty).is_empty());
}

#[test]
fn series_search_meets_windows_and_order() {
    let freq = Arg::ArgWithTolerance(q(1, 3), 100_000_000);
    let quality = Arg::ArgWithTolerance(q(707, -3), 200_000_000);
    let rs = Arg::ArgWithSeries(Series::E12, q(1, 3), q(100, 3));
    let cs = Arg::ArgWithSeries(Series::E6, q(1, -9), q(1, -6));
    let r = calculate(freq, quality, rs, rs, cs, cs);
    assert!(!r.is_empty());
    for s in &r {
        let f = frequency_of(s);
        let qf = q_factor_of(s);
        assert!(f >= 900.0 * (1.0 - 1e-12) && f <= 1100.0 * (1.0 + 1e-12));
        assert!(qf >= 0.5656 * (1.0 - 1e-12) && qf <= 0.8484 * (1.0 + 1e-12));
        let r1 = to_f64(s.r1);
        let l = r1 * to_f64(s.r2) * to_f64(s.c2);
        assert!(l >= r1 / 10.0 / 1000.0 * (1.0 - 1e-12) && l <= r1 * 10.0 / 1000.0 * (1.0 + 1e-12));
    }
    for w in r.windows(2) {
        assert!(frequency_of(&w[0]) <= frequency_of(&w[1]) * (1.0 + 1e-12));
        assert_ne!(w[0], w[1]);
    }
    for (i, a) in r.iter().enumerate() {
        for b in &r[i + 1..] {
            assert_ne!(a, b);
        }
    }
    // Every combination of the tables that meets the windows is found.
    let rt = rs.to_table();
    let ct = cs.to_table();
    let mut expected = 0usize;
    for r1 in &rt {
        for r2 in &rt {
            for c1 in &ct {
                for c2 in &ct {
                    let s = Selection { r1: *r1, r2: *r2, c1: *c1, c2: *c2 };
                    let f = frequency_of(&s);
                    let qf = q_factor_of(&s);
                    let l = to_f64(*r1) * to_f64(*r2) * to_f64(*c2);
                    let a = to_f64(*r1);
                    let margin = 1e-9;
                    let inside = f > 900.0 * (1.0 + margin)
                        && f < 1100.0 * (1.0 - margin)
                        && qf > 0.5656 * (1.0 + margin)
                        && qf < 0.8484 * (1.0 - margin)
                        && l > a / 10.0 / 1000.0 * (1.0 + margin)
                        && l < a * 10.0 / 1000.0 * (1.0 - margin);
                    if inside {
                        expected += 1;
                        assert!(r.contains(&s));
                    }
                }
            }
        }
    }
    assert!(expected > 0);
}

#[test]
fn order_breaks_frequency_ties_by_quality_factor() {
    // R1·R2·C2·C1 is the same for both choices of R2 and C2 below, so the
    // frequencies tie and the quality factor decides.
    let freq = Arg::ArgWithTolerance(q(1, 0), 1_000_000_000);
    let quality = Arg::ArgWithTolerance(q(1, 0), 1_000_000_000);
    let r1 = Arg::ArgWithExact(q(1, 0));
    let r2 = Arg::ArgWithSeries(Series::E6, q(1, 0), q(3, 0));
    let c1 = Arg::ArgWithExact(q(1, 0));
    let c2 = Arg::ArgWithSeries(Series::E6, q(1, 0), q(3, 0));
    let r = calculate(freq, quality, r1, r2, c1, c2);
    for w in r.windows(2) {
        let (fa, fb) = (frequency_of(&w[0]), frequency_of(&w[1]));
        assert!(fa <= fb * (1.0 + 1e-12));
        if close(fa, fb) {
            assert!(q_factor_of(&w[0]) <= q_factor_of(&w[1]) * (1.0 + 1e-12));
        }
    }
    assert!(r.len() >= 2);
}

#[test]
fn quantities_compare_by_value() {
    assert!(matches!(q(1, 3).compare(&q(1000, 0)), Ordering::Equal));
    assert!(matches!(q(999, 0).compare(&q(1, 3)), Ordering::Less));
    assert!(matches!(q(1, 3).compare(&q(999, 0)), Ordering::Greater));
    assert!(matches!(q(0, 5).compare(&q(0, -5)), Ordering::Equal));
}

#[test]
fn products_compare_exactly() {
    // (2^64 - 1)^2 against itself plus one unit of a smaller exponent.
    let big = vec![u64::MAX, u64::MAX];
    assert!(matches!(compare_products(&big, 0, &big, 0), Ordering::Equal));
    assert!(matches!(compare_products(&big, 1, &big, 0), Ordering::Greater));
    assert!(matches!(compare_products(&vec![10], 0, &vec![1], 1), Ordering::Equal));
    assert!(matches!(compare_products(&vec![3, 7], -1, &vec![2], 0), Ordering::Greater));
    assert!(matches!(compare_products(&vec![], 0, &vec![2], -1), Ordering::Greater));
}

#[test]
fn natural_arithmetic() {
    let a = Natural::from_u64(u64::MAX).mul_word(u64::MAX);
    let b = Natural::from_u64(u64::MAX).mul_word(u64::MAX - 1);
    assert!(matches!(b.compare(&a), Ordering::Less));
    assert!(matches!(a.compare(&b), Ordering::Greater));
    let c = Natural::from_u64(6).mul_word(7);
    assert!(matches!(c.compare(&Natural::from_u64(42)), Ordering::Equal));
}
