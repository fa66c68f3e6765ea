use finance_analyzer::amount::{sum, Amount, Sign};
use rust_decimal::prelude::ToPrimitive;
use rust_decimal::Decimal;

fn amount(mantissa: i128, scale: u32) -> Amount {
    Amount::new(mantissa, scale).unwrap()
}

fn decimal(a: &Amount) -> Decimal {
    Decimal::from_i128_with_scale(a.mantissa(), a.scale())
}

#[test]
fn new_takes_what_a_decimal_can_hold() {
    let max: i128 = 79_228_162_514_264_337_593_543_950_335;
    assert!(Amount::new(max, 28).is_some());
    assert!(Amount::new(-max, 0).is_some());
    assert!(Amount::new(max + 1, 0).is_none());
    assert!(Amount::new(-max - 1, 0).is_none());
    assert!(Amount::new(1, 29).is_none());
    let a = amount(-1250, 2);
    assert_eq!(a.mantissa(), -1250);
    assert_eq!(a.scale(), 2);
}

#[test]
fn sum_of_two_amounts_is_exact() {
    let c = amount(1250, 2).checked_add(&amount(5, 1)).unwrap();
    assert!(c.same_value(&amount(13, 0)));
    assert_eq!(decimal(&c), Decimal::new(13, 0));
}

#[test]
fn sum_is_not_an_argument_handed_back() {
    let a = amount(100, 0);
    let b = amount(-30, 0);
    let c = a.checked_add(&b).unwrap();
    assert_eq!(c, amount(70, 0));
    assert_ne!(c, a);
    assert_ne!(c, b);
}

#[test]
fn sum_that_overflows_is_none() {
    let max = amount(79_228_162_514_264_337_593_543_950_335, 0);
    assert!(max.checked_add(&amount(1, 0)).is_none());
}

#[test]
fn sum_that_would_be_rounded_is_none() {
    // the decimal crate answers with the rounded sum here
    let max = amount(79_228_162_514_264_337_593_543_950_335, 0);
    let tenth = amount(1, 1);
    let rounded = decimal(&max).checked_add(decimal(&tenth));
    assert!(rounded.is_some());
    assert!(max.checked_add(&tenth).is_none());
}

#[test]
fn accept_sum_takes_the_exact_sum_only() {
    let a = amount(15, 1);
    let b = amount(25, 2);
    assert_eq!(Amount::accept_sum(&a, &b, Some((175, 2))), Some(amount(175, 2)));
    assert_eq!(Amount::accept_sum(&a, &b, Some((1750, 3))), Some(amount(175, 2)));
    assert_eq!(Amount::accept_sum(&a, &b, Some((176, 2))), None);
    assert_eq!(Amount::accept_sum(&a, &b, Some((175, 29))), None);
    assert_eq!(Amount::accept_sum(&a, &b, None), None);
}

#[test]
fn accept_takes_what_is_within_the_limits() {
    assert_eq!(Amount::accept(Some((5, 0))), Some(amount(5, 0)));
    assert_eq!(Amount::accept(Some((5, 29))), None);
    assert_eq!(Amount::accept(None), None);
}

#[test]
fn difference_is_exact() {
    let c = amount(-4000, 2).checked_sub(&amount(-30, 0)).unwrap();
    assert_eq!(c, amount(-10, 0));
}

#[test]
fn quotient_is_that_of_the_decimal_crate() {
    let q = amount(300, 0).checked_div(&amount(2, 0)).unwrap();
    assert_eq!(q, amount(150, 0));
    let third = amount(100, 0).checked_div(&amount(3, 0)).unwrap();
    assert_eq!(decimal(&third), Decimal::new(100, 0) / Decimal::new(3, 0));
    assert_eq!(third, amount(33_333_333_333_333_333_333_333_333_333, 27));
}

#[test]
fn quotient_by_zero_is_none() {
    assert!(amount(1, 0).checked_div(&Amount::zero()).is_none());
    assert!(amount(1, 0).checked_div(&amount(0, 5)).is_none());
}

#[test]
fn product_is_that_of_the_decimal_crate() {
    let p = Amount::hundred().checked_mul(&amount(6, 1)).unwrap();
    assert_eq!(p, amount(60, 0));
    assert_ne!(p, Amount::hundred());
    let big = amount(79_228_162_514_264_337_593_543_950_335, 0);
    assert!(big.checked_mul(&amount(2, 0)).is_none());
}

#[test]
fn equality_is_by_value() {
    assert_eq!(amount(15, 1), amount(150, 2));
    assert_ne!(amount(15, 1), amount(15, 2));
    assert_eq!(amount(0, 0), amount(0, 28));
    assert!(amount(-1, 0).less_than(&amount(1, 28)));
    assert!(!amount(1, 0).less_than(&amount(1, 0)));
    assert_eq!(amount(2, 0).compare(&amount(19, 1)), Sign::Positive);
    assert_eq!(amount(2, 0).compare(&amount(20, 1)), Sign::Zero);
    assert_eq!(amount(2, 0).compare(&amount(21, 1)), Sign::Negative);
}

#[test]
fn comparison_agrees_with_the_decimal_crate() {
    let samples = [
        amount(0, 0),
        amount(1, 28),
        amount(-1, 28),
        amount(79_228_162_514_264_337_593_543_950_335, 0),
        amount(79_228_162_514_264_337_593_543_950_335, 28),
        amount(-79_228_162_514_264_337_593_543_950_335, 14),
        amount(10_000_000_000_000_000_000_000_000_000, 28),
        amount(1, 0),
        amount(123_456, 3),
        amount(-123_456, 2),
    ];
    for a in samples.iter() {
        for b in samples.iter() {
            assert_eq!(a.same_value(b), decimal(a) == decimal(b));
            assert_eq!(a.less_than(b), decimal(a) < decimal(b));
        }
    }
}

#[test]
fn sign_zero_and_negation() {
    assert_eq!(amount(5, 3).sign(), Sign::Positive);
    assert_eq!(amount(-5, 3).sign(), Sign::Negative);
    assert_eq!(amount(0, 3).sign(), Sign::Zero);
    assert!(amount(0, 7).is_zero());
    assert!(!amount(1, 28).is_zero());
    assert!(amount(-1, 28).is_negative());
    assert!(!Amount::zero().is_negative());
    assert_eq!(amount(5, 1).neg(), amount(-5, 1));
    assert_eq!(amount(-5, 1).abs(), amount(5, 1));
    assert_eq!(amount(5, 1).abs(), amount(5, 1));
}

#[test]
fn whole_numbers() {
    assert_eq!(Amount::from_i64(-7), amount(-7, 0));
    assert_eq!(Amount::from_usize(30), amount(30, 0));
    assert_eq!(Amount::hundred(), amount(100, 0));
    assert_eq!(Amount::thousand(), amount(1000, 0));
}

#[test]
fn floor_is_the_largest_whole_number_not_above() {
    assert_eq!(amount(3641, 3).floor_i64(), Some(3));
    assert_eq!(amount(-3641, 3).floor_i64(), Some(-4));
    assert_eq!(amount(-3000, 3).floor_i64(), Some(-3));
    assert_eq!(amount(0, 5).floor_i64(), Some(0));
    assert_eq!(amount(-1, 28).floor_i64(), Some(-1));
    assert_eq!(amount(79_228_162_514_264_337_593_543_950_335, 0).floor_i64(), None);
    assert_eq!(amount(79_228_162_514_264_337_593_543_950_335, 0).floor_key(), i64::MAX);
    assert_eq!(amount(-79_228_162_514_264_337_593_543_950_335, 0).floor_key(), i64::MIN);
    assert_eq!(amount(-25, 1).floor_key(), -3);
}

#[test]
fn rounding_sends_a_half_to_the_even_neighbour() {
    assert_eq!(amount(65, 1).round_i64(), Some(6));
    assert_eq!(amount(75, 1).round_i64(), Some(8));
    assert_eq!(amount(-65, 1).round_i64(), Some(-6));
    assert_eq!(amount(-75, 1).round_i64(), Some(-8));
    assert_eq!(amount(649, 2).round_i64(), Some(6));
    assert_eq!(amount(651, 2).round_i64(), Some(7));
    assert_eq!(amount(-3, 1).round_i64(), Some(0));
    assert_eq!(amount(79_228_162_514_264_337_593_543_950_335, 0).round_i64(), None);
    assert_eq!(amount(-79_228_162_514_264_337_593_543_950_335, 0).round_key(), i64::MIN);
    assert_eq!(amount(25, 1).round_key(), 2);
}

#[test]
fn floor_and_rounding_agree_with_the_decimal_crate() {
    let mantissas: [i128; 12] = [0, 1, -1, 5, -5, 15, -15, 25, -25, 149, 9_999, -123_456_789];
    for m in mantissas.iter() {
        for scale in 0..6u32 {
            let a = amount(*m, scale);
            assert_eq!(a.floor_i64(), decimal(&a).floor().to_i64());
            assert_eq!(a.round_i64(), decimal(&a).round().to_i64());
        }
    }
}

#[test]
fn sum_of_a_list_is_exact() {
    let amounts = vec![amount(100, 0), amount(-3050, 2), amount(5, 1)];
    assert_eq!(sum(&amounts), Some(amount(70, 0)));
    assert_eq!(sum(&Vec::new()), Some(Amount::zero()));
    let max = amount(79_228_162_514_264_337_593_543_950_335, 0);
    assert_eq!(sum(&vec![max, amount(1, 0), amount(-1, 0)]), None);
}

#[test]
fn sum_does_not_depend_on_the_order() {
    let a = vec![amount(1, 2), amount(-7, 0), amount(333, 1), amount(5, 28)];
    let b = vec![amount(5, 28), amount(333, 1), amount(1, 2), amount(-7, 0)];
    assert_eq!(sum(&a), sum(&b));
}

#[test]
fn text_of_an_amount() {
    assert_eq!(amount(1250, 2).to_text(2), Some(String::from("12.50")));
    assert_eq!(amount(1250, 2).to_text(1), Some(String::from("12.5")));
    assert_eq!(amount(1259, 2).to_text(0), Some(String::from("12")));
    assert_eq!(amount(-5, 1).to_text(3), Some(String::from("-0.500")));
    assert_eq!(Amount::zero().to_text(0), Some(String::from("0")));
    // at the edge of what can be written: 32 characters
    assert_eq!(
        amount(999, 0).to_text(28),
        Some(String::from("999.0000000000000000000000000000"))
    );
    assert_eq!(amount(1000, 0).to_text(28), None);
    assert_eq!(
        amount(1000, 0).to_text(27),
        Some(String::from("1000.000000000000000000000000000"))
    );
    for precision in [0usize, 1, 2, 27, 28, 29, 40] {
        for a in [amount(1250, 2), amount(-1, 28), amount(7, 0)] {
            assert_eq!(a.to_text(precision), Some(format!("{:.precision$}", decimal(&a))));
        }
    }
}

#[test]
fn text_of_an_amount_has_room_for_32_characters() {
    // three digits, the point and 28 digits
    let fits = amount(999, 0);
    assert!(fits.text_fits(28));
    assert_eq!(fits.to_text(28), Some(format!("{:.28}", decimal(&fits))));
    assert_eq!(fits.to_text(28).unwrap().len(), 32);
    assert_eq!(fits.to_text(30).unwrap().len(), 34);
    assert_eq!(fits.neg().to_text(28).unwrap().len(), 33);
    let too_long = amount(1000, 0);
    assert!(!too_long.text_fits(28));
    assert_eq!(too_long.to_text(28), None);
    assert_eq!(too_long.to_text(40), None);
    assert_eq!(too_long.to_text(27), Some(format!("{:.27}", decimal(&too_long))));
    assert_eq!(amount(1000, 1).to_text(28).unwrap().len(), 32);
    assert_eq!(amount(9999, 1).to_text(28).unwrap().len(), 32);
    assert_eq!(amount(10000, 1).to_text(28), None);
    assert_eq!(amount(5, 28).to_text(28).unwrap().len(), 30);
    let most = amount(79_228_162_514_264_337_593_543_950_335, 0);
    assert_eq!(most.to_text(0), Some(String::from("79228162514264337593543950335")));
    assert_eq!(most.to_text(2), Some(format!("{:.2}", decimal(&most))));
    assert_eq!(most.to_text(3), None);
    let widest = amount(79_228_162_514_264_337_593_543_950_335, 28);
    assert_eq!(widest.to_text(28), Some(String::from("7.9228162514264337593543950335")));
    assert_eq!(widest.to_text(100).unwrap().len(), 102);
}

#[test]
fn quotient_by_a_count_is_the_rounded_quotient() {
    assert_eq!(amount(300, 0).divided_by(2), Some(amount(150, 0)));
    assert_eq!(amount(-20, 0).divided_by(2), Some(amount(-10, 0)));
    assert_eq!(amount(150, 0).divided_by(30), Some(amount(5, 0)));
    assert_eq!(amount(1, 0).divided_by(0), None);
    let third = amount(100, 0).divided_by(3).unwrap();
    assert_eq!(decimal(&third), Decimal::new(100, 0) / Decimal::new(3, 0));
    let two_thirds = amount(200, 0).divided_by(3).unwrap();
    assert_eq!(two_thirds, amount(66_666_666_666_666_666_666_666_666_667, 27));
    for mantissa in [1i128, -1, 7, 100, -12345, 79_228_162_514_264_337_593_543_950_335] {
        for scale in [0u32, 2, 14, 28] {
            for count in [1usize, 2, 3, 7, 30, 365, 1_000_003, 1_073_741_824, usize::MAX] {
                let a = amount(mantissa, scale);
                let q = a.divided_by(count).unwrap();
                assert_eq!(decimal(&q), decimal(&a) / Decimal::from(count));
                assert!(a.has_quotient(&Amount::from_usize(count), &q));
            }
        }
    }
}

#[test]
fn has_quotient_tells_the_quotient_from_others() {
    let ten = amount(10, 0);
    let three = amount(3, 0);
    let four = amount(40, 1);
    let third = amount(33_333_333_333_333_333_333_333_333_333, 28);
    // ten thirds, to the last digit that a decimal can hold
    assert!(ten.has_quotient(&three, &third));
    assert!(ten.has_quotient(&three.neg(), &third.neg()));
    assert!(ten.neg().has_quotient(&three.neg(), &third));
    assert!(!ten.has_quotient(&three, &third.neg()));
    assert!(!ten.has_quotient(&three, &amount(33_333_333_333_333_333_333_333_333_334, 28)));
    // zeros at the end need not be written
    assert!(amount(1, 0).has_quotient(&third, &amount(3, 1)));
    assert!(amount(1, 0).has_quotient(&third, &amount(30_000_000_000_000_000_000, 20)));
    assert!(!amount(1, 0).has_quotient(&third, &amount(31, 2)));
    // rounded well, but to fewer digits than a decimal can hold
    assert!(!ten.has_quotient(&three, &amount(333, 2)));
    assert!(!ten.has_quotient(&three, &amount(3, 0)));
    assert!(!ten.has_quotient(&three, &amount(3_333_333_333_333_333_333_333_333_333, 27)));
    // an exact quotient, with whatever digits
    assert!(ten.has_quotient(&four, &amount(25, 1)));
    assert!(ten.has_quotient(&four, &amount(2500, 3)));
    assert!(!ten.has_quotient(&four, &amount(2, 0)));
    assert!(!ten.has_quotient(&four, &amount(3, 0)));
    assert!(!ten.has_quotient(&four, &amount(26, 1)));
    assert!(amount(60, 0).has_quotient(&amount(100, 0), &amount(6, 1)));
    assert!(!amount(60, 0).has_quotient(&amount(100, 0), &amount(1, 0)));
    let most = amount(79_228_162_514_264_337_593_543_950_335, 0);
    let least = amount(1, 28);
    assert!(!most.has_quotient(&amount(1, 0), &least));
    assert!(most.has_quotient(&most, &amount(1, 0)));
    assert!(least.has_quotient(&most, &Amount::zero()));
    assert!(least.has_quotient(&most, &amount(0, 28)));
    assert!(!most.has_quotient(&least, &most));
    assert!(Amount::zero().has_quotient(&most, &amount(0, 28)));
    // no digit behind the point fits beside 29 digits before it
    assert!(most.has_quotient(&amount(3, 0), &amount(26_409_387_504_754_779_197_847_983_445, 0)));
}

#[test]
fn has_product_tells_the_product_from_others() {
    let a = amount(15, 1);
    let b = amount(-25, 2);
    assert!(a.has_product(&b, &amount(-375, 3)));
    assert!(a.has_product(&b, &amount(-3750, 4)));
    assert!(!a.has_product(&b, &amount(-38, 2)));
    assert!(!a.has_product(&b, &amount(-37, 2)));
    assert!(!a.has_product(&b, &amount(-36, 2)));
    assert!(!a.has_product(&b, &amount(375, 3)));
    assert!(!a.has_product(&b, &amount(-376, 3)));
    let most = amount(79_228_162_514_264_337_593_543_950_335, 0);
    assert!(most.has_product(&amount(1, 0), &most));
    assert!(!most.has_product(&most, &most));
    // below what a decimal can tell from zero
    assert!(amount(1, 28).has_product(&amount(1, 28), &amount(0, 28)));
    assert!(amount(1, 28).has_product(&amount(1, 28), &amount(0, 27)));
    assert!(!amount(1, 28).has_product(&amount(1, 28), &amount(1, 28)));
    // 0.25 at 28 digits is exact; a product of 29 digits is rounded to 28
    assert!(amount(5, 1).has_product(&amount(5, 1), &amount(25, 2)));
    assert!(amount(15, 28).has_product(&amount(1, 1), &amount(2, 28)));
    assert!(!amount(15, 28).has_product(&amount(1, 1), &amount(0, 27)));
}

#[test]
fn accepting_products_and_quotients() {
    let a = amount(10, 0);
    let b = amount(4, 0);
    assert_eq!(Amount::accept_quotient(&a, &b, Some((25, 1))), Some(amount(25, 1)));
    assert_eq!(Amount::accept_quotient(&a, &b, Some((26, 1))), None);
    assert_eq!(Amount::accept_quotient(&a, &b, Some((3, 0))), None);
    assert_eq!(Amount::accept_quotient(&a, &b, Some((25, 29))), None);
    assert_eq!(Amount::accept_quotient(&a, &b, None), None);
    assert_eq!(Amount::accept_product(&a, &b, Some((40, 0))), Some(amount(40, 0)));
    assert_eq!(Amount::accept_product(&a, &b, Some((41, 0))), None);
    assert_eq!(Amount::accept_product(&a, &b, None), None);
}

#[test]
fn products_and_quotients_of_the_decimal_crate_are_rounded_ones() {
    let samples = [
        amount(1, 0),
        amount(-1, 0),
        amount(3, 0),
        amount(7, 1),
        amount(-12345, 2),
        amount(100, 0),
        amount(30, 0),
        amount(1, 28),
        amount(-1, 14),
        amount(33_333_333_333_333_333_333_333_333_333, 27),
        amount(66_666_666_666_666_666_666_666_666_667, 28),
        amount(79_228_162_514_264_337_593_543_950_335, 28),
        amount(79_228_162_514_264_337_593_543_950_335, 10),
        amount(-79_228_162_514_264_337_593_543_950_335, 0),
        amount(12_345_678_901_234_567_890, 5),
        amount(60, 0),
        amount(-40, 0),
        amount(2, 0),
        amount(7, 0),
        amount(9, 28),
        amount(4_294_967_295, 0),
        amount(4_294_967_296, 3),
        amount(18_446_744_073_709_551_615, 9),
        amount(18_446_744_073_709_551_616, 20),
        amount(7_922_816_251_426_433_759_354_395_033, 0),
        amount(7_922_816_251_426_433_759_354_395_034, 1),
        amount(39_614_081_257_132_168_796_771_975_168, 0),
        amount(39_614_081_257_132_168_796_771_975_167, 27),
        amount(10_000_000_000_000_000_000_000_000_000, 28),
        amount(99_999_999_999_999_999_999_999_999, 26),
        amount(-5, 1),
        amount(25, 2),
        amount(15, 28),
        amount(123_456_789, 0),
        amount(987_654_321_987_654_321, 18),
        amount(1_000_003, 0),
        amount(365, 0),
        amount(79_228_162_514_264_337_593_543_950_334, 0),
        amount(26_409_387_504_754_779_197_847_983_445, 0),
        amount(3, 28),
        amount(11, 27),
    ];
    for a in samples.iter() {
        for b in samples.iter() {
            let quotient = decimal(a).checked_div(decimal(b));
            assert_eq!(a.checked_div(b).map(|q| decimal(&q)), quotient, "{:?} / {:?}", a, b);
            let product = decimal(a).checked_mul(decimal(b));
            assert_eq!(a.checked_mul(b).map(|p| decimal(&p)), product, "{:?} * {:?}", a, b);
        }
    }
}
