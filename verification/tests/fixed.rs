use raytracer::fixed::Fixed;
use raytracer::fixed::MAX_RAW;
use raytracer::fixed::ONE_RAW;

fn raw(n: i64) -> Fixed {
    Fixed { raw: n }
}

#[test]
fn one_is_two_to_the_thirty_second() {
    assert_eq!(ONE_RAW, 1i64 << 32);
    assert_eq!(Fixed::one().raw, 4294967296);
    assert_eq!(Fixed::zero().raw, 0);
    assert_eq!(Fixed::infinity().raw, i64::MAX);
    assert_eq!(MAX_RAW, i64::MAX);
}

#[test]
fn whole_numbers_are_scaled() {
    assert_eq!(Fixed::from_int(3).raw, 3 << 32);
    assert_eq!(Fixed::from_int(-3).raw, -(3 << 32));
    assert_eq!(Fixed::from_int(0).raw, 0);
}

#[test]
fn whole_numbers_out_of_range_are_clamped() {
    assert_eq!(Fixed::from_int(1 << 31).raw, i64::MAX);
    assert_eq!(Fixed::from_int(-(1 << 31)).raw, -i64::MAX);
    assert_eq!(Fixed::from_int(i64::MAX).raw, i64::MAX);
    assert_eq!(Fixed::from_int(i64::MIN).raw, -i64::MAX);
    assert_eq!(Fixed::from_int((1 << 31) - 1).raw, ((1i64 << 31) - 1) << 32);
}

#[test]
fn ratios_round_toward_zero() {
    assert_eq!(Fixed::ratio(1, 1000).raw, 4294967);
    assert_eq!(Fixed::ratio(-1, 1000).raw, -4294967);
    assert_eq!(Fixed::ratio(7, 10).raw, 3006477107);
    assert_eq!(Fixed::ratio(1, 3).raw, 1431655765);
    assert_eq!(Fixed::ratio(-1, 3).raw, -1431655765);
    assert_eq!(Fixed::ratio(1, -3).raw, -1431655765);
    assert_eq!(Fixed::ratio(1, 2).raw, 1 << 31);
    assert_eq!(Fixed::ratio(1, 100_000_000).raw, 42);
}

#[test]
fn sums_and_differences_are_exact_in_range() {
    assert_eq!((Fixed::from_int(2) + Fixed::ratio(1, 2)).raw, 5 << 31);
    assert_eq!((Fixed::from_int(2) - Fixed::from_int(5)).raw, -(3 << 32));
    assert_eq!((raw(7) + raw(-9)).raw, -2);
}

#[test]
fn sums_and_differences_are_clamped_at_the_ends() {
    assert_eq!((raw(i64::MAX) + Fixed::one()).raw, i64::MAX);
    assert_eq!((raw(-i64::MAX) - Fixed::one()).raw, -i64::MAX);
    assert_eq!((raw(i64::MIN) + raw(0)).raw, -i64::MAX);
    assert_eq!((raw(i64::MIN) - raw(i64::MAX)).raw, -i64::MAX);
    assert_eq!((raw(i64::MAX) - raw(i64::MIN)).raw, i64::MAX);
}

#[test]
fn negation_is_exact_but_for_the_lowest_count() {
    assert_eq!((-Fixed::from_int(5)).raw, -(5 << 32));
    assert_eq!((-raw(-i64::MAX)).raw, i64::MAX);
    assert_eq!((-raw(i64::MIN)).raw, i64::MAX);
    assert_eq!((-raw(0)).raw, 0);
}

#[test]
fn products_round_toward_zero() {
    let half = Fixed::ratio(1, 2);
    assert_eq!((raw(3) * half).raw, 1);
    assert_eq!((raw(-3) * half).raw, -1);
    assert_eq!((raw(3) * -half).raw, -1);
    assert_eq!((raw(-3) * -half).raw, 1);
    assert_eq!((raw(1) * raw(1)).raw, 0);
    assert_eq!((raw(-1) * raw(1)).raw, 0);
}

#[test]
fn products_of_whole_numbers_are_exact() {
    assert_eq!((Fixed::from_int(6) * Fixed::from_int(7)).raw, 42 << 32);
    assert_eq!((Fixed::from_int(-6) * Fixed::from_int(7)).raw, -(42 << 32));
    assert_eq!((Fixed::from_int(12) * Fixed::one()).raw, 12 << 32);
    assert_eq!((Fixed::from_int(12) * Fixed::zero()).raw, 0);
}

#[test]
fn products_are_clamped_at_the_ends() {
    let big = Fixed::from_int(100_000);
    assert_eq!((big * big).raw, i64::MAX);
    assert_eq!((-big * big).raw, -i64::MAX);
    assert_eq!((raw(i64::MIN) * raw(i64::MIN)).raw, i64::MAX);
}

#[test]
fn quotients_round_toward_zero() {
    assert_eq!((Fixed::from_int(1) / Fixed::from_int(4)).raw, 1 << 30);
    assert_eq!((Fixed::from_int(-7) / Fixed::from_int(2)).raw, -(7 << 31));
    assert_eq!((Fixed::from_int(2) / Fixed::from_int(3)).raw, 2863311530);
    assert_eq!((Fixed::from_int(-2) / Fixed::from_int(3)).raw, -2863311530);
    assert_eq!((raw(1) / Fixed::from_int(2)).raw, 0);
    assert_eq!((raw(-1) / Fixed::from_int(2)).raw, 0);
}

#[test]
fn division_by_zero_gives_the_end_of_the_range() {
    assert_eq!((Fixed::one() / Fixed::zero()).raw, i64::MAX);
    assert_eq!((-Fixed::one() / Fixed::zero()).raw, -i64::MAX);
    assert_eq!((Fixed::zero() / Fixed::zero()).raw, 0);
}

#[test]
fn quotients_are_clamped_at_the_ends() {
    assert_eq!((Fixed::from_int(1_000_000) / raw(1)).raw, i64::MAX);
    assert_eq!((Fixed::from_int(-1_000_000) / raw(1)).raw, -i64::MAX);
    assert_eq!((raw(i64::MIN) / Fixed::from_int(-1)).raw, i64::MAX);
}

#[test]
fn absolute_value() {
    assert_eq!(Fixed::from_int(-3).abs().raw, 3 << 32);
    assert_eq!(Fixed::from_int(3).abs().raw, 3 << 32);
    assert_eq!(raw(i64::MIN).abs().raw, i64::MAX);
    assert_eq!(raw(0).abs().raw, 0);
}

#[test]
fn min_takes_the_smaller() {
    assert_eq!(Fixed::from_int(3).min(Fixed::from_int(1)).raw, 1 << 32);
    assert_eq!(Fixed::from_int(-3).min(Fixed::from_int(1)).raw, -(3 << 32));
    assert_eq!(Fixed::from_int(1).min(Fixed::from_int(1)).raw, 1 << 32);
}

#[test]
fn square_roots_round_down() {
    assert_eq!(Fixed::from_int(4).sqrt().raw, 2 << 32);
    assert_eq!(Fixed::from_int(25).sqrt().raw, 5 << 32);
    assert_eq!(Fixed::ratio(1, 4).sqrt().raw, 1 << 31);
    assert_eq!(Fixed::from_int(2).sqrt().raw, 6074000999);
    assert_eq!(raw(1).sqrt().raw, 65536);
    assert_eq!(raw(3).sqrt().raw, 113511);
    assert_eq!(Fixed::one().sqrt().raw, 1 << 32);
}

#[test]
fn square_root_of_the_largest_number() {
    let r = raw(i64::MAX).sqrt();
    let n = (i64::MAX as u128) << 32;
    let root = r.raw as u128;
    assert!(root * root <= n);
    assert!((root + 1) * (root + 1) > n);
}

#[test]
fn square_root_of_what_is_not_positive_is_zero() {
    assert_eq!(Fixed::zero().sqrt().raw, 0);
    assert_eq!(Fixed::from_int(-4).sqrt().raw, 0);
    assert_eq!(raw(i64::MIN).sqrt().raw, 0);
}

#[test]
fn powers_by_repeated_multiplication() {
    assert_eq!(Fixed::from_int(2).powi(5).raw, 32 << 32);
    assert_eq!(Fixed::from_int(-2).powi(3).raw, -(8 << 32));
    assert_eq!(Fixed::from_int(7).powi(0).raw, 1 << 32);
    assert_eq!(Fixed::ratio(1, 2).powi(5).raw, 1 << 27);
    assert_eq!(Fixed::zero().powi(5).raw, 0);
    assert_eq!(Fixed::from_int(1000).powi(5).raw, i64::MAX);
}

#[test]
fn order_and_equality_follow_the_raw_counts() {
    assert!(Fixed::from_int(1) < Fixed::from_int(2));
    assert!(Fixed::from_int(-1) < Fixed::zero());
    assert!(Fixed::from_int(2) > Fixed::from_int(1));
    assert!(Fixed::from_int(2) >= Fixed::from_int(2));
    assert!(Fixed::from_int(2) <= Fixed::from_int(2));
    assert!(Fixed::from_int(2) == raw(2 << 32));
    assert!(Fixed::from_int(2) != raw((2 << 32) + 1));
    assert!(!(Fixed::from_int(2) < Fixed::from_int(2)));
}

#[test]
fn fraction_bits_fill_the_unit_interval() {
    assert_eq!(Fixed::from_fraction_bits(0).raw, 0);
    assert_eq!(Fixed::from_fraction_bits(1).raw, 1);
    assert_eq!(Fixed::from_fraction_bits(1 << 31).raw, Fixed::ratio(1, 2).raw);
    assert_eq!(Fixed::from_fraction_bits(u32::MAX).raw, (1 << 32) - 1);
    assert!(Fixed::from_fraction_bits(u32::MAX) < Fixed::one());
}

#[test]
fn random_numbers_lie_in_the_unit_interval() {
    let first = Fixed::random();
    let mut varies = false;
    for _ in 0..1000 {
        let x = Fixed::random();
        assert!(x.raw >= 0);
        assert!(x.raw < ONE_RAW);
        if x.raw != first.raw {
            varies = true;
        }
    }
    assert!(varies);
}

#[test]
fn random_numbers_average_near_one_half() {
    let mut sum: i128 = 0;
    let n = 20000;
    for _ in 0..n {
        sum += Fixed::random().raw as i128;
    }
    let mean = (sum / n) as f64 / 4294967296.0;
    assert!((mean - 0.5).abs() < 0.02);
}
