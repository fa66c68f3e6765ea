use finance_analyzer::wide::Wide;

fn wide(x: u128) -> Wide {
    Wide::new(x)
}

#[test]
fn wide_numbers_are_ordered_by_value() {
    let samples = [0u128, 1, 2, u64::MAX as u128, u64::MAX as u128 + 1, u128::MAX - 1, u128::MAX];
    for a in samples.iter() {
        for b in samples.iter() {
            assert_eq!(wide(*a).le(&wide(*b)), a <= b);
        }
    }
}

#[test]
fn wide_sums_and_products_agree_with_narrow_ones() {
    let samples = [0u128, 1, 3, 10_000_000_000, u64::MAX as u128, 1 << 64, (1 << 100) + 12345];
    for a in samples.iter() {
        for b in samples.iter() {
            if let Some(sum) = a.checked_add(*b) {
                let wide_sum = wide(*a).plus(&wide(*b)).unwrap();
                assert!(wide_sum.le(&wide(sum)) && wide(sum).le(&wide_sum));
            }
            if let Some(product) = a.checked_mul(*b) {
                let wide_product = wide(*a).times(*b).unwrap();
                assert!(wide_product.le(&wide(product)) && wide(product).le(&wide_product));
            }
        }
    }
}

#[test]
fn wide_products_go_beyond_narrow_ones() {
    // (2^128 - 1)^2 = (2^128 - 2) * 2^128 + 1
    let most = wide(u128::MAX);
    let square = most.times(u128::MAX).unwrap();
    let high = wide(u128::MAX - 1).times(u128::MAX).unwrap().plus(&wide(u128::MAX - 1)).unwrap();
    let expected = high.plus(&wide(1)).unwrap();
    assert!(square.le(&expected) && expected.le(&square));
    assert!(most.le(&square));
    assert!(!square.le(&most));
}

#[test]
fn wide_numbers_end_at_512_bits() {
    let mut power = wide(1);
    for _ in 0..3 {
        power = power.times(u128::MAX).unwrap();
    }
    // below 2^384: there is room for one more factor, but not for two
    let more = power.times(u128::MAX).unwrap();
    assert!(more.times(u128::MAX).is_none());
    assert!(more.plus(&more).is_none());
    assert!(power.plus(&power).is_some());
}
