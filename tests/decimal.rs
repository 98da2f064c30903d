use stats::decimal::{ExactDecimal, FRACT_BASE};

fn dec(trunc: i64, fract: u64) -> ExactDecimal {
    ExactDecimal::new(trunc, fract)
}

#[test]
fn new_carries_whole_unit_out_of_fraction() {
    let d = dec(1, FRACT_BASE + 5);
    assert_eq!(d.trunc, 2);
    assert_eq!(d.fract, 5);
    let e = dec(-3, 7);
    assert_eq!((e.trunc, e.fract), (-3, 7));
}

#[test]
fn point_one_plus_point_two_is_exact() {
    let a = dec(0, 1_000_000_000_000_000_000);
    let b = dec(0, 2_000_000_000_000_000_000);
    let sum = a.add(&b);
    assert_eq!(sum, dec(0, 3_000_000_000_000_000_000));
    let text = sum.to_string();
    assert_eq!(text, "0.3000000000000000000");
    let native = format!("{}", 0.1f64 + 0.2f64);
    assert_eq!(native, "0.30000000000000004");
    assert_ne!(text, native);
    assert!(!text.contains("0.30000000000000004"));
}

#[test]
fn add_carries_at_the_base() {
    let a = dec(1, 9_000_000_000_000_000_000);
    let b = dec(2, 2_000_000_000_000_000_000);
    let s = a.add(&b);
    assert_eq!((s.trunc, s.fract), (4, 1_000_000_000_000_000_000));
}

#[test]
fn add_with_zero_returns_other_operand() {
    let z = ExactDecimal::zero();
    let a = dec(7, 123);
    assert_eq!(z.add(&a), a);
    assert_eq!(a.add(&z), a);
}

#[test]
fn subtract_borrows_at_the_base() {
    let a = dec(3, 1_000_000_000_000_000_000);
    let b = dec(1, 4_000_000_000_000_000_000);
    let d = a.subtract(&b);
    assert_eq!((d.trunc, d.fract), (1, 7_000_000_000_000_000_000));
    let n = b.subtract(&a);
    assert_eq!((n.trunc, n.fract), (-2, 3_000_000_000_000_000_000));
    assert_eq!(n.add(&d), ExactDecimal::zero());
}

#[test]
fn multiply_trivial_shapes() {
    let one = ExactDecimal::one();
    let x = dec(2, 5_000_000_000_000_000_000);
    assert!(x.can_multiply(&one));
    assert_eq!(x.multiply(&one), x);
    assert_eq!(one.multiply(&x), x);
    assert_eq!(x.multiply(&ExactDecimal::zero()), ExactDecimal::zero());
    assert_eq!(dec(-3, 0).multiply(&dec(4, 0)), dec(-12, 0));
}

#[test]
fn multiply_general_shape_is_unsupported() {
    let a = dec(1, 5_000_000_000_000_000_000);
    let b = dec(2, 5_000_000_000_000_000_000);
    assert!(!a.can_multiply(&b));
}

#[test]
fn divide_trivial_shapes() {
    let x = dec(2, 5_000_000_000_000_000_000);
    assert_eq!(x.divide(&ExactDecimal::one()), x);
    assert_eq!(ExactDecimal::zero().divide(&x), ExactDecimal::zero());
    assert_eq!(dec(1, 0).divide(&dec(3, 0)), dec(0, 3_333_333_333_333_333_333));
    assert_eq!(dec(-1, 0).divide(&dec(4, 0)), dec(-1, 7_500_000_000_000_000_000));
    assert_eq!(dec(7, 0).divide(&dec(-2, 0)), dec(-4, 5_000_000_000_000_000_000));
}

#[test]
fn divide_unsupported_shapes() {
    let a = dec(1, 5_000_000_000_000_000_000);
    assert!(!a.can_divide(&ExactDecimal::zero()));
    assert!(!a.can_divide(&dec(3, 0)));
    assert!(dec(6, 0).can_divide(&dec(3, 0)));
}

#[test]
fn predicates() {
    assert!(ExactDecimal::zero().is_zero());
    assert!(!dec(0, 1).is_zero());
    assert!(dec(0, 1).has_fraction());
    assert!(!dec(5, 0).has_fraction());
}

#[test]
fn euler_constant() {
    let e = ExactDecimal::euler();
    assert_eq!(e.to_string(), "2.7182818284590452353");
    assert_eq!(e.frac_digits(), 19);
}

#[test]
fn to_string_has_no_padding() {
    assert_eq!(dec(0, 5).to_string(), "0.5");
    assert_eq!(dec(-12, 0).to_string(), "-12.0");
    assert_eq!(dec(i64::MIN, 0).to_string(), "-9223372036854775808.0");
    assert_eq!(dec(3, 50).frac_digits(), 2);
    assert_eq!(dec(3, 0).frac_digits(), 1);
    assert_eq!(dec(3, 18_446_744_073_709_551_615 % FRACT_BASE).frac_digits(), 19);
}

#[test]
fn text_round_trip_on_sample_values() {
    // 3.14159, 0.000123, 42.5 and 1234.0625, written in fixed point
    let samples = [
        dec(3, 1_415_900_000_000_000_000),
        dec(0, 1_230_000_000_000_000),
        dec(42, 5_000_000_000_000_000_000),
        dec(1234, 625_000_000_000_000_000),
    ];
    for d in samples.iter() {
        let text = d.to_string();
        let (whole, frac) = text.split_once('.').unwrap();
        assert_eq!(whole.parse::<i64>().unwrap(), d.trunc);
        assert_eq!(frac.parse::<u64>().unwrap(), d.fract);
        let padded = format!("{}{}", "0".repeat(19 - d.frac_digits()), frac);
        assert_eq!(padded.len(), 19);
    }
    let pi = samples[0].to_string();
    assert!(pi.starts_with("3.14159"));
}

#[test]
fn order_is_strict_and_total_on_samples() {
    let samples = [
        dec(-2, 0),
        dec(-2, 5),
        dec(0, 0),
        dec(0, 1),
        dec(1, 0),
        dec(1, 9_999_999_999_999_999_999),
        dec(2, 0),
    ];
    for (i, a) in samples.iter().enumerate() {
        assert!(!a.less_than(a));
        for (j, b) in samples.iter().enumerate() {
            assert_eq!(a.less_than(b), i < j);
            assert_eq!(a.less_or_equal(b), i <= j);
            assert_eq!(a < b, a.less_than(b));
            for c in samples.iter() {
                if a.less_than(b) && b.less_than(c) {
                    assert!(a.less_than(c));
                }
            }
        }
    }
}

#[test]
fn parse_reads_back_what_to_string_writes() {
    let samples = [
        dec(0, 0),
        dec(-1, 7_500_000_000_000_000_000),
        dec(i64::MAX, FRACT_BASE - 1),
        dec(i64::MIN, 1),
        ExactDecimal::euler(),
    ];
    for d in samples.iter() {
        assert_eq!(ExactDecimal::parse(&d.to_string()), Some(*d));
    }
    assert_eq!(ExactDecimal::parse("007.05"), Some(dec(7, 5)));
    assert_eq!(ExactDecimal::parse("-0.3"), Some(dec(0, 3)));
}

#[test]
fn parse_rejects_other_shapes_and_ranges() {
    for text in ["", ".", "1.", ".5", "1", "-", "-.5", "1.2.3", "1,5", "+1.5", "1.5x", "a.1"] {
        assert_eq!(ExactDecimal::parse(text), None, "{}", text);
    }
    assert_eq!(ExactDecimal::parse("9223372036854775808.0"), None);
    assert_eq!(ExactDecimal::parse("-9223372036854775808.0"), Some(dec(i64::MIN, 0)));
    assert_eq!(ExactDecimal::parse("-9223372036854775809.0"), None);
    assert_eq!(ExactDecimal::parse("1.10000000000000000000"), None);
    assert_eq!(ExactDecimal::parse("1.9999999999999999999"), Some(dec(1, FRACT_BASE - 1)));
    assert_eq!(ExactDecimal::parse("1.99999999999999999999999999999"), None);
    assert_eq!(ExactDecimal::parse("999999999999999999999999999.1"), None);
}

#[test]
fn float_text_round_trip_keeps_fifteen_digits() {
    for x in [3.14159f64, 0.1, 2.5, 123.456, 98765.4321, 0.000123, 1.0e-7 + 5.0] {
        let whole = x.floor();
        let d = ExactDecimal::new(whole as i64, ((x - whole) * 1e19).round() as u64);
        let text = d.to_string();
        let (t, f) = text.split_once('.').unwrap();
        let trunc: i64 = t.parse().unwrap();
        let fract: u64 = f.parse().unwrap();
        assert_eq!(trunc, x.trunc() as i64);
        let back = trunc as f64 + fract as f64 / 1e19;
        assert!(((back - x) / x).abs() < 1e-15, "{} {}", x, text);
        assert_eq!(format!("{:.15e}", back), format!("{:.15e}", x));
    }
}

#[test]
fn scaled_value_and_back() {
    let d = ExactDecimal::from_scaled(-5);
    assert_eq!((d.trunc, d.fract), (-1, FRACT_BASE - 5));
    assert_eq!(d.scaled_value(), -5);
    let e = ExactDecimal::from_scaled(3 * FRACT_BASE as i128 + 2);
    assert_eq!((e.trunc, e.fract), (3, 2));
    assert_eq!(ExactDecimal::from_scaled(i64::MIN as i128 * FRACT_BASE as i128), dec(i64::MIN, 0));
}
