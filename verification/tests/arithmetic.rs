//! The arithmetic, held against the machine's own.
use agent_usage::binary64::Binary64;

fn bits(number: f64) -> Binary64 {
    Binary64 { bits: number.to_bits() }
}

/// Equal as patterns, or both not a number.
fn agrees(ours: Binary64, theirs: f64) -> bool {
    ours.bits == theirs.to_bits() || (f64::from_bits(ours.bits).is_nan() && theirs.is_nan())
}

/// Patterns at the edges of the format, and a spread of others.
fn patterns() -> Vec<f64> {
    let mut found: Vec<u64> = vec![
        0,
        1,
        2,
        3,
        0x000F_FFFF_FFFF_FFFF,
        0x0010_0000_0000_0000,
        0x0010_0000_0000_0001,
        0x001F_FFFF_FFFF_FFFF,
        0x0020_0000_0000_0000,
        0x3FF0_0000_0000_0000,
        0x3FF0_0000_0000_0001,
        0x3FEF_FFFF_FFFF_FFFF,
        0x4340_0000_0000_0000,
        0x4340_0000_0000_0001,
        0x433F_FFFF_FFFF_FFFF,
        0x7FEF_FFFF_FFFF_FFFF,
        0x7FEF_FFFF_FFFF_FFFE,
        0x7FE0_0000_0000_0000,
        0x7FF0_0000_0000_0000,
        0x7FF8_0000_0000_0000,
        0x7FF0_0000_0000_0001,
    ];
    let mut state: u64 = 0x9E37_79B9_7F4A_7C15;
    for round in 0..120u64 {
        state = state.wrapping_mul(6_364_136_223_846_793_005).wrapping_add(round);
        found.push(state >> 1);
        // Near one, so that sums and products meet often.
        found.push(0x3FF0_0000_0000_0000 + (state >> 9));
        found.push((0x3E00_0000_0000_0000 + (state >> 6)) & 0x7FFF_FFFF_FFFF_FFFF);
    }
    let mut numbers: Vec<f64> = Vec::new();
    for pattern in found {
        numbers.push(f64::from_bits(pattern));
        numbers.push(-f64::from_bits(pattern));
    }
    numbers
}

#[test]
fn sums_products_and_differences_are_the_machines() {
    let numbers = patterns();
    for &a in &numbers {
        for &b in &numbers {
            assert!(agrees(bits(a).sum(bits(b)), a + b), "{a:e} + {b:e}");
            assert!(agrees(bits(a).difference(bits(b)), a - b), "{a:e} - {b:e}");
            assert!(agrees(bits(a).product(bits(b)), a * b), "{a:e} * {b:e}");
            assert_eq!(bits(a) == bits(b), a == b, "{a:e} == {b:e}");
            assert_eq!(bits(a).is_at_least(bits(b)), a >= b, "{a:e} >= {b:e}");
        }
    }
}

#[test]
fn a_millionth_is_the_machines() {
    for a in patterns() {
        assert!(agrees(bits(a).divided_per_million(), a / 1_000_000.0), "{a:e}");
        assert_eq!(bits(a).finite(), a.is_finite());
    }
}

#[test]
fn counts_round_as_the_machines_do() {
    let mut counts: Vec<u64> = vec![0, 1, 2, 999, 1 << 53, (1 << 53) + 1, (1 << 53) + 3, u64::MAX];
    let mut state: u64 = 1;
    for _ in 0..2000 {
        state = state.wrapping_mul(6_364_136_223_846_793_005).wrapping_add(1);
        counts.push(state);
        counts.push(state >> (state % 60));
    }
    for count in counts {
        assert_eq!(Binary64::of_count(count).bits, (count as f64).to_bits());
    }
}

#[test]
fn widening_is_exact() {
    let mut singles: Vec<u32> = vec![
        0,
        1,
        2,
        0x007F_FFFF,
        0x0080_0000,
        0x0080_0001,
        0x3F80_0000,
        0x7F7F_FFFF,
        0x7F80_0000,
        0x7F80_0001,
        0x7FC0_0000,
    ];
    let mut state: u32 = 1;
    for _ in 0..20_000 {
        state = state.wrapping_mul(1_664_525).wrapping_add(1_013_904_223);
        singles.push(state);
    }
    for single in singles {
        for pattern in [single, single | 0x8000_0000] {
            let wide = f64::from(f32::from_bits(pattern));
            assert!(agrees(Binary64::widen(pattern), wide), "{pattern:x}");
        }
    }
}

#[test]
fn quotients_by_small_counts_are_the_machines() {
    for a in patterns() {
        for divisor in [1u64, 3, 7, 1_000, 999_983, 1_000_000] {
            assert!(agrees(bits(a).divided(divisor), a / divisor as f64), "{a:e} / {divisor}");
        }
    }
}

#[test]
fn the_total_order_is_the_machines() {
    let numbers = patterns();
    for &a in numbers.iter().step_by(3) {
        for &b in &numbers {
            assert_eq!(
                bits(a).total_order().cmp(&bits(b).total_order()),
                a.total_cmp(&b),
                "{a:e} and {b:e}"
            );
        }
    }
}

#[test]
fn amounts_add_up_to_amounts() {
    for a in patterns() {
        for b in patterns().into_iter().step_by(5) {
            if a >= 0.0 && b >= 0.0 {
                assert!(bits(a).sum(bits(b)).is_at_least(bits(0.0)));
            }
        }
    }
}
