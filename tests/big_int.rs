use std::cmp::Ordering;
use trophy_bot::big_int::{ArithmeticError, BigInt, ConversionError};

fn from(n: i128) -> BigInt {
    BigInt::new(n).unwrap()
}

#[test]
fn test_add_bigint() {
    // 1.8 holds the digits 18
    assert_eq!(
        BigInt::construct_new(9, 10)
            .checked_add(&BigInt::construct_new(9, 10))
            .unwrap(),
        BigInt::construct_new(18, 11)
    )
}

#[test]
fn test_sub_bigint() {
    assert_eq!(from(73).checked_sub(&from(7)).unwrap(), from(66))
}

#[test]
fn test_mul_bigint() {
    assert_eq!(from(85).checked_mul(&from(12)).unwrap(), from(1020));
    assert_eq!(
        BigInt::from_decimal(15, 1)
            .unwrap()
            .checked_mul(&from(2))
            .unwrap(),
        from(3)
    );
}

#[test]
fn test_div_bigint() {
    assert_eq!(from(150).checked_div(&from(2)).unwrap(), from(75));
    assert_eq!(from(2395872).checked_div(&from(1)).unwrap(), from(2395872));
    assert_eq!(
        BigInt::construct_new(5, 15).checked_div(&from(100)).unwrap(),
        BigInt::construct_new(5, 13)
    );
}

#[test]
fn test_conversion() {
    println!("{} \n {}", f64::MAX, i128::MAX);
    // the cast saturates: no float beyond i128 reaches the library unchecked
    assert_eq!(f64::MAX as i128, i128::MAX);
    let text = BigInt::from_decimal(155, 1).unwrap().to_string();
    assert_eq!(text, "15.5");
    assert_eq!(text.parse::<f64>().unwrap(), 15.5f64)
}

#[test]
fn round_trip_small_integers() {
    for n in [1i128, 5, 9, 10, 66, 75, 100, 1020, 2395872, 12345678, 99999999] {
        assert_eq!(from(n).to_string(), n.to_string());
    }
}

#[test]
fn nine_digit_integers_keep_eight_digits() {
    let x = from(123456789);
    assert_eq!(x, BigInt { mantissa: 12345678, exponent: 9 });
    assert_eq!(x.to_string(), "1.2345e8");
}

#[test]
fn multiplication_displays() {
    assert_eq!(from(85).checked_mul(&from(12)).unwrap().to_string(), "1020");
    let a = BigInt::from_decimal(15, 1).unwrap();
    assert_eq!(a.checked_mul(&from(2)).unwrap().to_string(), "3");
}

#[test]
fn division_displays() {
    assert_eq!(from(150).checked_div(&from(2)).unwrap().to_string(), "75");
    assert_eq!(
        from(2395872).checked_div(&from(1)).unwrap().to_string(),
        "2395872"
    );
}

#[test]
fn division_rounds_to_nearest() {
    let third = from(1).checked_div(&from(3)).unwrap();
    assert_eq!(third, BigInt { mantissa: 33333333, exponent: 0 });
    assert_eq!(third.to_string(), "0.33333333");
    let two_thirds = from(2).checked_div(&from(3)).unwrap();
    assert_eq!(two_thirds, BigInt { mantissa: 66666667, exponent: 0 });
}

#[test]
fn subtraction_displays() {
    assert_eq!(from(73).checked_sub(&from(7)).unwrap().to_string(), "66");
}

#[test]
fn subtraction_below_zero() {
    let r = from(7).checked_sub(&from(73)).unwrap();
    assert_eq!(r, BigInt { mantissa: -66000000, exponent: 2 });
    assert_eq!(r.to_string(), "-66");
}

#[test]
fn subtraction_to_zero() {
    assert_eq!(from(42).checked_sub(&from(42)).unwrap(), BigInt::zero());
}

#[test]
fn larger_exponent_orders_first() {
    let big = from(1_000_000_000);
    let small = from(5);
    assert!(big.exponent > small.exponent);
    assert_eq!(big.compare(&small), Ordering::Greater);
    assert_eq!(small.compare(&big), Ordering::Less);
    assert!(big > small);
}

#[test]
fn equal_exponents_order_by_mantissa() {
    assert_eq!(from(3).compare(&from(7)), Ordering::Less);
    assert_eq!(from(7).compare(&from(7)), Ordering::Equal);
}

#[test]
fn conversion_of_zero_and_negatives() {
    assert_eq!(BigInt::new(0), Ok(BigInt::zero()));
    assert_eq!(BigInt::new(-1), Err(ConversionError));
    assert_eq!(BigInt::new(-250), Err(ConversionError));
    assert_eq!(BigInt::from_decimal(-15, 1), Err(ConversionError));
    assert_eq!(BigInt::zero().to_string(), "0");
}

#[test]
fn division_by_zero_fails() {
    assert_eq!(
        from(5).checked_div(&from(0)),
        Err(ArithmeticError::DivisionByZero)
    );
    assert_eq!(
        BigInt::zero().checked_div(&BigInt::zero()),
        Err(ArithmeticError::DivisionByZero)
    );
}

#[test]
fn normalizing_twice_changes_nothing() {
    for x in [from(1), from(73), from(2395872), BigInt::construct_new(5, 15), BigInt::zero()] {
        assert_eq!(x.verify(), Ok(x));
        assert_eq!(BigInt::reconstruct(x.mantissa, x.exponent), Ok(x));
        assert_eq!(BigInt::construct_new(x.mantissa, x.exponent), x);
    }
}

#[test]
fn reconstruct_compensates_exponent() {
    assert_eq!(
        BigInt::reconstruct(1_800_000_000, 10),
        Ok(BigInt { mantissa: 18_000_000, exponent: 12 })
    );
    assert_eq!(
        BigInt::reconstruct(75, 3),
        Ok(BigInt { mantissa: 75_000_000, exponent: -3 })
    );
    assert_eq!(
        BigInt::reconstruct(-123, 0),
        Ok(BigInt { mantissa: -12_300_000, exponent: -5 })
    );
    assert_eq!(
        BigInt::reconstruct(12_345_678, 0),
        Ok(BigInt { mantissa: 12_345_678, exponent: 0 })
    );
    assert_eq!(
        BigInt::reconstruct(123_456_789, 0),
        Ok(BigInt { mantissa: 12_345_678, exponent: 1 })
    );
}

#[test]
fn construct_new_keeps_exponent() {
    assert_eq!(
        BigInt::construct_new(1_800_000_000, 10),
        BigInt { mantissa: 18_000_000, exponent: 10 }
    );
    assert_eq!(
        BigInt::construct_new(9, 10),
        BigInt { mantissa: 90_000_000, exponent: 10 }
    );
    assert_eq!(
        BigInt::construct_new(12_345_678, 0),
        BigInt { mantissa: 12_345_678, exponent: 0 }
    );
    assert_eq!(BigInt::construct_new(0, 10), BigInt::zero());
}

#[test]
fn large_integers_truncate() {
    let x = from(12_345_678_999);
    assert_eq!(x, BigInt { mantissa: 12_345_678, exponent: 11 });
    assert_eq!(x.to_string(), "1.2345e10");
    let max = from(i128::MAX);
    assert_eq!(max.exponent, 39);
    assert_eq!(max.mantissa, 17_014_118);
}

#[test]
fn fractional_digits_round_half_up() {
    assert_eq!(
        BigInt::from_decimal(1_234_567_895, 9).unwrap(),
        BigInt { mantissa: 12_345_679, exponent: 1 }
    );
    assert_eq!(
        BigInt::from_decimal(9_999_999_995, 9).unwrap(),
        BigInt { mantissa: 10_000_000, exponent: 2 }
    );
    assert_eq!(
        BigInt::from_decimal(1_234_567_849, 9).unwrap(),
        BigInt { mantissa: 12_345_678, exponent: 1 }
    );
    assert_eq!(
        BigInt::from_decimal(123_456_785, 2).unwrap(),
        BigInt { mantissa: 12_345_679, exponent: 7 }
    );
}

#[test]
fn integer_digits_truncate() {
    assert_eq!(
        BigInt::from_decimal(1_234_567_895, 1).unwrap(),
        BigInt { mantissa: 12_345_678, exponent: 9 }
    );
}

#[test]
fn fractions_display_exactly() {
    assert_eq!(BigInt::from_decimal(15, 1).unwrap().to_string(), "1.5");
    assert_eq!(BigInt::from_decimal(1205, 2).unwrap().to_string(), "12.05");
    assert_eq!(BigInt::from_decimal(3, 0).unwrap().to_string(), "3");
}

#[test]
fn values_below_one_display_exactly() {
    assert_eq!(BigInt::from_decimal(5, 3).unwrap().to_string(), "0.005");
    assert_eq!(BigInt { mantissa: 12345678, exponent: 0 }.to_string(), "0.12345678");
    assert_eq!(BigInt { mantissa: 12345678, exponent: -1 }.to_string(), "0.012345678");
    assert_eq!(BigInt { mantissa: -50000000, exponent: -2 }.to_string(), "-0.005");
}

#[test]
fn large_values_display_scientifically() {
    assert_eq!(BigInt::construct_new(123456789, 12).to_string(), "1.2345e11");
    assert_eq!(BigInt::construct_new(-5, 9).to_string(), "-5.0000e8");
    assert_eq!(from(1_000_000_000).to_string(), "1.0000e9");
}

#[test]
fn addition_drops_negligible_operand() {
    let big = BigInt::construct_new(1, 20);
    let small = from(5);
    assert_eq!(big.checked_add(&small), Ok(big));
    assert_eq!(small.checked_add(&big), Ok(big));
    let edge = BigInt::construct_new(1, 9);
    assert_eq!(edge.exponent - small.exponent, 8);
    assert_eq!(edge.checked_add(&small), Ok(edge));
    let near = BigInt::construct_new(1, 8);
    assert_eq!(
        near.checked_add(&small).unwrap(),
        BigInt { mantissa: 10_000_005, exponent: 8 }
    );
}

#[test]
fn addition_keeps_shifted_digits() {
    assert_eq!(from(100).checked_add(&from(5)).unwrap().to_string(), "105");
}

#[test]
fn zero_is_neutral_in_addition() {
    let tiny = BigInt::construct_new(3, -40);
    assert_eq!(BigInt::zero().checked_add(&tiny), Ok(tiny));
    assert_eq!(tiny.checked_add(&BigInt::zero()), Ok(tiny));
}

#[test]
fn negation_flips_mantissa() {
    let x = from(66);
    assert_eq!(x.neg(), BigInt { mantissa: -66_000_000, exponent: 2 });
    assert_eq!(x.neg().neg(), x);
}

#[test]
fn exponent_overflow_is_reported() {
    let top = BigInt::construct_new(9, i128::MAX);
    assert_eq!(top.checked_add(&top), Err(ArithmeticError::Overflow));
    assert_eq!(top.checked_mul(&from(10)), Err(ArithmeticError::Overflow));
    let bottom = BigInt::construct_new(1, i128::MIN);
    assert_eq!(bottom.checked_div(&from(10)), Err(ArithmeticError::Overflow));
    assert_eq!(
        BigInt::reconstruct(1_000_000_000, i128::MAX),
        Err(ArithmeticError::Overflow)
    );
}

#[test]
fn far_apart_exponents_add() {
    let top = BigInt::construct_new(1, i128::MAX);
    let bottom = BigInt::construct_new(1, i128::MIN);
    assert_eq!(top.checked_add(&bottom), Ok(top));
    assert_eq!(bottom.checked_add(&top), Ok(top));
}

#[test]
fn normal_form_is_recognised() {
    assert!(from(12).is_normal());
    assert!(BigInt::zero().is_normal());
    assert!(!BigInt { mantissa: 12, exponent: 1 }.is_normal());
    assert!(BigInt { mantissa: 12_345_678, exponent: 5 }.is_normal());
    assert!(!BigInt { mantissa: 123_456_789, exponent: 5 }.is_normal());
    assert!(!BigInt { mantissa: 0, exponent: 3 }.is_normal());
}
