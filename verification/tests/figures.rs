use load_harness::binary64::Binary64;
use load_harness::decimal::{align_right, format_fixed, push_decimal};

const MEGABYTE: u64 = 1024 * 1024;

/// Values around every power of two, and the ends of the range.
fn samples() -> Vec<u64> {
    let mut values = vec![0, 1, 2, 3, 5, 7, 10, 99, 100, 101, u64::MAX, u64::MAX - 1];
    for k in 1..64 {
        let p = 1u64 << k;
        for near in [p - 1, p, p + 1, p + 3, p / 2 * 3, p / 4 * 5, p / 8 * 9 + 1] {
            values.push(near);
        }
    }
    let mut x: u64 = 0x9e37_79b9_7f4a_7c15;
    for _ in 0..20000 {
        x ^= x << 13;
        x ^= x >> 7;
        x ^= x << 17;
        values.push(x >> (x % 60));
    }
    values
}

#[test]
fn megabytes_match_double_precision() {
    for bytes in samples() {
        let expected = format!("{:8.2}", bytes as f64 / (1024.0 * 1024.0));
        let figure = align_right(Binary64::quotient(bytes, MEGABYTE).format(2), 8);
        assert_eq!(figure, expected, "{bytes} bytes");
    }
}

#[test]
fn rates_match_double_precision() {
    for delta in samples() {
        let expected = format!("{:.1}", delta as f64 / 5.0);
        assert_eq!(Binary64::quotient(delta, 5).format(1), expected, "{delta} requests");
    }
}

#[test]
fn other_quotients_match_double_precision() {
    for n in samples() {
        for d in [1u64, 3, 7, 10, 1000, 4095, (1 << 53) - 1, 1 << 53] {
            let x = n as f64 / d as f64;
            assert_eq!(Binary64::quotient(n, d).format(0), format!("{x:.0}"), "{n} / {d}");
            assert_eq!(Binary64::quotient(n, d).format(3), format!("{x:.3}"), "{n} / {d}");
            assert_eq!(Binary64::quotient(n, d).format(18), format!("{x:.18}"), "{n} / {d}");
        }
    }
}

#[test]
fn ties_go_to_the_even_digit() {
    assert_eq!(Binary64::quotient(131072, MEGABYTE).format(2), "0.12");
    assert_eq!(Binary64::quotient(3 * 131072, MEGABYTE).format(2), "0.38");
    assert_eq!(Binary64::quotient(5 * 131072, MEGABYTE).format(2), "0.62");
    for k in 0..5000u64 {
        let bytes = k * 131072;
        let expected = format!("{:.2}", bytes as f64 / (1024.0 * 1024.0));
        assert_eq!(Binary64::quotient(bytes, MEGABYTE).format(2), expected);
    }
}

#[test]
fn exact_figures() {
    assert_eq!(Binary64::quotient(16777216, MEGABYTE).format(2), "16.00");
    assert_eq!(Binary64::quotient(17000000, MEGABYTE).format(2), "16.21");
    assert_eq!(Binary64::quotient(212, 5).format(1), "42.4");
    assert_eq!(Binary64::quotient(0, 5).format(1), "0.0");
    assert_eq!(Binary64::quotient(1, 5).format(1), "0.2");
    assert_eq!(Binary64::quotient(u64::MAX, MEGABYTE).format(2), "17592186044416.00");
}

#[test]
fn rates_below_the_bound_are_exact() {
    for delta in [1u64, 4, 5, 1 << 40, (1 << 51) - 1, (1 << 51) - 2] {
        let expected = format!("{}.{}", 2 * delta / 10, 2 * delta % 10);
        assert_eq!(Binary64::quotient(delta, 5).format(1), expected);
    }
}

#[test]
fn larger_counts_never_read_as_less() {
    let mut values = samples();
    values.sort();
    let mut last = 0.0;
    for bytes in values {
        let figure: f64 = Binary64::quotient(bytes, MEGABYTE).format(2).parse().unwrap();
        assert!(last <= figure, "{bytes} bytes");
        last = figure;
    }
}

#[test]
fn decimal_text() {
    for n in [0u128, 9, 10, 11, 99, 100, 12345678901234567890, u128::MAX] {
        let mut text = String::from("n=");
        push_decimal(&mut text, n);
        assert_eq!(text, format!("n={n}"));
        assert_eq!(text[2..].parse::<u128>().unwrap(), n);
    }
}

#[test]
fn fixed_point_text() {
    assert_eq!(format_fixed(0, 2), "0.00");
    assert_eq!(format_fixed(5, 2), "0.05");
    assert_eq!(format_fixed(105, 2), "1.05");
    assert_eq!(format_fixed(424, 1), "42.4");
    assert_eq!(format_fixed(7, 0), "7");
}

#[test]
fn alignment() {
    assert_eq!(align_right(String::from("16.00"), 8), "   16.00");
    assert_eq!(align_right(String::from("12345.67"), 8), "12345.67");
    assert_eq!(align_right(String::from("123456.78"), 8), "123456.78");
    assert_eq!(align_right(String::new(), 2), "  ");
}
