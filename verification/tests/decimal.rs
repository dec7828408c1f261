//! Decimal text, held against the standard library.
use agent_usage::binary64::Binary64;
use agent_usage::decimal::{count_text, fixed_text};

#[test]
fn counts_are_written_in_full() {
    for count in [0, 1, 9, 10, 99, 100, 12_345, 1 << 53, u64::MAX - 1, u64::MAX] {
        assert_eq!(count_text(count), count.to_string());
    }
}

#[test]
fn numbers_have_the_places_asked_for() {
    let mut numbers = vec![
        0.0, -0.0, 0.05, 0.15, 0.25, 0.35, 0.125, 0.375, 0.5, 1.5, 2.5, 0.0005, 0.00005, 9.9999,
        9.99995, 999.5, 1e21, -1e21, 1.7976931348623157e308, 5e-324, 2.2250738585072014e-308,
        f64::INFINITY, f64::NEG_INFINITY, f64::NAN,
    ];
    let mut state: u64 = 11;
    for _ in 0..2_000 {
        state = state.wrapping_mul(6_364_136_223_846_793_005).wrapping_add(12_345);
        numbers.push(f64::from_bits(state));
        numbers.push(f64::from_bits((state >> 12) | 0x3FF0_0000_0000_0000));
        // Sixteenths of 1/1024: many of them ties.
        numbers.push((state >> 44) as f64 / 16_384.0);
    }
    for number in numbers {
        let ours = Binary64 { bits: number.to_bits() };
        assert_eq!(fixed_text(ours, 0), format!("{number:.0}"), "{number:e}");
        assert_eq!(fixed_text(ours, 1), format!("{number:.1}"), "{number:e}");
        assert_eq!(fixed_text(ours, 2), format!("{number:.2}"), "{number:e}");
        assert_eq!(fixed_text(ours, 3), format!("{number:.3}"), "{number:e}");
        assert_eq!(fixed_text(ours, 4), format!("{number:.4}"), "{number:e}");
    }
}
