use compute_engine::decimal::integer_sqrt;
use compute_engine::decimal::Decimal;

fn dec(mantissa: i128, scale: u32) -> Decimal {
    Decimal { mantissa, scale }
}

#[test]
fn sum_of_two_decimals_aligns_scales() {
    let r = dec(5, 1).checked_add(dec(-3, 1)).unwrap();
    assert!(r.same_number(dec(2, 1)));
    let r = dec(15, 1).checked_add(dec(25, 2)).unwrap();
    assert!(r.same_number(dec(175, 2)));
}

#[test]
fn quotient_of_two_decimals() {
    assert!(dec(2, 1).checked_div(dec(2, 0)).unwrap().same_number(dec(1, 1)));
    assert!(dec(-9, 0).checked_div(dec(4, 0)).unwrap().same_number(dec(-225, 2)));
    assert_eq!(dec(1, 0).checked_div(dec(3, 0)), Some(dec(3333333333333333333333333333, 28)));
}

#[test]
fn division_by_zero_is_none() {
    assert_eq!(dec(1, 0).checked_div(dec(0, 0)), None);
    assert_eq!(dec(1, 0).checked_div(dec(0, 5)), None);
}

#[test]
fn overflowing_sum_is_none() {
    let max = dec(0xFFFF_FFFF_FFFF_FFFF_FFFF_FFFF, 0);
    assert_eq!(max.checked_add(max), None);
    assert_eq!(max.checked_add(dec(1, 0)), None);
    assert_eq!(max.checked_div(dec(1, 1)), None);
}

#[test]
fn malformed_operands_are_refused() {
    let too_wide = dec(0x1_0000_0000_0000_0000_0000_0000, 0);
    let too_deep = dec(1, 29);
    assert!(!too_wide.is_well_formed());
    assert!(!too_deep.is_well_formed());
    assert_eq!(too_wide.checked_add(dec(1, 0)), None);
    assert_eq!(dec(1, 0).checked_add(too_deep), None);
    assert_eq!(too_deep.checked_div(dec(1, 0)), None);
    assert_eq!(dec(1, 0).checked_div(too_wide), None);
    assert_eq!(too_wide.or_zero(), Decimal::zero());
    assert_eq!(dec(7, 3).or_zero(), dec(7, 3));
}

#[test]
fn same_number_ignores_trailing_zeros() {
    assert!(dec(1, 0).same_number(dec(100, 2)));
    assert!(dec(100, 2).same_number(dec(1, 0)));
    assert!(!dec(1, 0).same_number(dec(101, 2)));
    assert!(dec(0, 0).same_number(dec(0, 4_000_000_000)));
    assert!(!dec(1, 0).same_number(dec(1, 4_000_000_000)));
    assert!(!dec(i128::MAX, 0).same_number(dec(i128::MAX, 1)));
}

#[test]
fn integer_square_root_is_exact_on_squares_and_floors_between() {
    assert_eq!(integer_sqrt(0), 0);
    assert_eq!(integer_sqrt(1), 1);
    assert_eq!(integer_sqrt(3), 1);
    assert_eq!(integer_sqrt(4), 2);
    assert_eq!(integer_sqrt(99), 9);
    assert_eq!(integer_sqrt(u128::MAX), u64::MAX);
}
