use connect_four::value::{gcd_i64, mean_value, Value};

#[test]
fn gcd_of_common_cases() {
    assert_eq!(gcd_i64(12, 18), 6);
    assert_eq!(gcd_i64(18, 12), 6);
    assert_eq!(gcd_i64(7, 0), 7);
    assert_eq!(gcd_i64(0, 5), 5);
    assert_eq!(gcd_i64(1, 1_000_000), 1);
}

#[test]
fn mean_of_win_neutral_loss_is_zero() {
    let vals = vec![
        Value { num: 1, den: 1 },
        Value { num: 0, den: 1 },
        Value { num: -1, den: 1 },
    ];
    let mean = mean_value(&vals).unwrap();
    assert_eq!(mean, Value { num: 0, den: 1 });
}

#[test]
fn mean_reduces_to_lowest_terms() {
    // (1 + 1/2) / 2 = 3/4
    let vals = vec![Value { num: 1, den: 1 }, Value { num: 1, den: 2 }];
    assert_eq!(mean_value(&vals).unwrap(), Value { num: 3, den: 4 });
    // (1/2 + 1/3) / 2 = 5/12
    let vals = vec![Value { num: 1, den: 2 }, Value { num: 1, den: 3 }];
    assert_eq!(mean_value(&vals).unwrap(), Value { num: 5, den: 12 });
    // (1 + 1) / 2 = 1
    let vals = vec![Value { num: 1, den: 1 }, Value { num: 1, den: 1 }];
    assert_eq!(mean_value(&vals).unwrap(), Value { num: 1, den: 1 });
}

#[test]
fn mean_of_negatives() {
    // (-1 + -1/2) / 2 = -3/4
    let vals = vec![Value { num: -1, den: 1 }, Value { num: -1, den: 2 }];
    assert_eq!(mean_value(&vals).unwrap(), Value { num: -3, den: 4 });
}

#[test]
fn mean_overflow_reports_error() {
    // Two coprime denominators near the representation's limit: their
    // common denominator cannot fit, so the exact mean is refused.
    let big = i64::MAX - 1;
    let vals = vec![Value { num: 1, den: big }, Value { num: 1, den: big - 1 }];
    assert!(mean_value(&vals).is_err());
}

#[test]
fn value_order_is_rational_order() {
    let half = Value { num: 1, den: 2 };
    let two_thirds = Value { num: 2, den: 3 };
    let loss = Value { num: -1, den: 1 };
    let zero = Value { num: 0, den: 1 };
    assert!(half.lt(&two_thirds));
    assert!(!two_thirds.lt(&half));
    assert!(loss.lt(&zero));
    assert!(!half.lt(&half));
}

#[test]
fn constructors_are_the_three_leaf_values() {
    assert_eq!(Value::win(), Value { num: 1, den: 1 });
    assert_eq!(Value::loss(), Value { num: -1, den: 1 });
    assert_eq!(Value::neutral(), Value { num: 0, den: 1 });
}
