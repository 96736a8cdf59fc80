use metrics_rs::commons::{f1, precision, recall, Ratio, Score};

fn ratio(num: u128, den: u128) -> Ratio {
    Ratio { num, den }
}

#[test]
fn precision_keeps_both_counts() {
    assert_eq!(precision(10, 5), ratio(10, 15));
    assert_eq!(precision(10, 0), ratio(10, 10));
    assert_eq!(precision(0, 7), ratio(0, 7));
    assert_eq!(precision(1, 2), ratio(1, 3));
}

#[test]
fn recall_keeps_both_counts() {
    assert_eq!(recall(10, 5), ratio(10, 15));
    assert_eq!(recall(10, 0), ratio(10, 10));
    assert_eq!(recall(0, 7), ratio(0, 7));
    assert_eq!(recall(3, 1), ratio(3, 4));
}

#[test]
fn precision_and_recall_of_no_counts_are_undefined() {
    assert_eq!(precision(0, 0), ratio(0, 0));
    assert_eq!(recall(0, 0), ratio(0, 0));
}

#[test]
fn precision_and_recall_do_not_overflow() {
    let max = u32::MAX as u128;
    assert_eq!(precision(u32::MAX, u32::MAX), ratio(max, 2 * max));
    assert_eq!(recall(u32::MAX, 1), ratio(max, max + 1));
}

#[test]
fn precision_and_recall_lie_between_zero_and_one() {
    for true_pos in [0u32, 1, 2, 17, 1000, u32::MAX] {
        for other in [0u32, 1, 3, 99, u32::MAX] {
            if true_pos as u64 + other as u64 > 0 {
                let p = precision(true_pos, other);
                assert!(p.den > 0 && p.num <= p.den);
                assert_eq!(p.num, true_pos as u128);
                assert_eq!(p.den, true_pos as u128 + other as u128);
                let r = recall(true_pos, other);
                assert!(r.den > 0 && r.num <= r.den);
            }
        }
    }
}

#[test]
fn f1_is_two_products_over_the_sum_of_cross_products() {
    assert_eq!(f1(ratio(1, 2), ratio(1, 3)), ratio(2, 5));
    assert_eq!(f1(ratio(1, 1), ratio(5, 6)), ratio(10, 11));
    assert_eq!(f1(ratio(3, 4), ratio(2, 7)), ratio(12, 29));
    assert_eq!(f1(ratio(1, 1), ratio(1, 1)), ratio(2, 2));
}

#[test]
fn f1_with_one_zero_is_zero() {
    assert_eq!(f1(ratio(0, 1), ratio(1, 1)), ratio(0, 1));
    assert_eq!(f1(ratio(1, 1), ratio(0, 1)), ratio(0, 1));
    assert_eq!(f1(ratio(0, 5), ratio(2, 3)), ratio(0, 10));
}

#[test]
fn f1_of_two_zeros_is_zero_over_one() {
    assert_eq!(f1(ratio(0, 1), ratio(0, 1)), ratio(0, 1));
    assert_eq!(f1(ratio(0, 4), ratio(0, 9)), ratio(0, 1));
}

#[test]
fn f1_of_an_undefined_ratio_is_undefined() {
    assert_eq!(f1(ratio(0, 0), ratio(1, 2)), ratio(0, 0));
    assert_eq!(f1(ratio(1, 2), ratio(3, 0)), ratio(0, 0));
    assert_eq!(f1(ratio(0, 0), ratio(0, 0)), ratio(0, 0));
    assert_eq!(f1(precision(0, 0), recall(1, 1)), ratio(0, 0));
}

#[test]
fn f1_has_the_same_value_either_way_round() {
    let left = f1(ratio(3, 4), ratio(2, 7));
    let right = f1(ratio(2, 7), ratio(3, 4));
    assert_eq!(left.num * right.den, right.num * left.den);
}

#[test]
fn f1_of_precision_and_recall_lies_between_zero_and_one() {
    for (tp, fp, fneg) in [(1u32, 0u32, 0u32), (1, 1, 1), (5, 0, 1), (0, 3, 4), (7, 2, 9)] {
        let mean = f1(precision(tp, fp), recall(tp, fneg));
        assert!(mean.den > 0);
        assert!(mean.num <= mean.den);
    }
}

#[test]
fn f1_takes_the_largest_fields_that_fit() {
    let big = i64::MAX as u128;
    let mean = f1(ratio(big, big), ratio(big, big));
    assert_eq!(mean, ratio(2 * big * big, 2 * big * big));
}

#[test]
fn ratios_are_compared_by_their_fields() {
    assert_ne!(ratio(1, 2), ratio(2, 4));
    assert_eq!(ratio(1, 2), ratio(1, 2));
    let score = Score { precision: ratio(1, 2), recall: ratio(1, 3), f1: ratio(2, 5) };
    let copy = score;
    assert_eq!(score, copy);
}
