//! Tests for the reduction enumeration, its evaluation, and its labels.

use node_graph::algorithm::Algorithm;

#[test]
fn sum_of_values() {
    let a = Algorithm::Sum;
    assert_eq!(a.calculate(&vec![2, 3]), Some(5));
    assert_eq!(a.calculate(&vec![]), Some(0));
    assert_eq!(a.calculate(&vec![-4, 4, 7]), Some(7));
}

#[test]
fn sum_overflow_is_detected() {
    let a = Algorithm::Sum;
    assert_eq!(a.calculate(&vec![i64::MAX, 1]), None);
    assert_eq!(a.calculate(&vec![i64::MIN, -1]), None);
    assert_eq!(a.calculate(&vec![i64::MAX, -1, 1]), Some(i64::MAX));
}

#[test]
fn product_of_values() {
    let a = Algorithm::Product;
    assert_eq!(a.calculate(&vec![2, 3, 4]), Some(24));
    assert_eq!(a.calculate(&vec![]), Some(1));
    assert_eq!(a.calculate(&vec![i64::MAX, 2]), None);
}

#[test]
fn average_of_values() {
    let a = Algorithm::Average;
    assert_eq!(a.calculate(&vec![2, 4, 6]), Some(4));
    assert_eq!(a.calculate(&vec![]), Some(0));
    // Euclidean division: the average rounds toward negative infinity.
    assert_eq!(a.calculate(&vec![-3, 2]), Some(-1));
    assert_eq!(a.calculate(&vec![-4, -6]), Some(-5));
}

#[test]
fn max_and_min_of_values() {
    assert_eq!(Algorithm::Max.calculate(&vec![3, 9, 1]), Some(9));
    assert_eq!(Algorithm::Min.calculate(&vec![3, 9, 1]), Some(1));
    assert_eq!(Algorithm::Max.calculate(&vec![]), Some(0));
    assert_eq!(Algorithm::Min.calculate(&vec![]), Some(0));
    assert_eq!(Algorithm::Min.calculate(&vec![i64::MIN]), Some(i64::MIN));
}

#[test]
fn unset_evaluates_to_zero() {
    assert_eq!(Algorithm::Unset.calculate(&vec![5, 6]), Some(0));
}

#[test]
fn labels_round_trip() {
    let all = [
        Algorithm::Unset,
        Algorithm::Sum,
        Algorithm::Product,
        Algorithm::Average,
        Algorithm::Max,
        Algorithm::Min,
    ];
    for a in all {
        assert_eq!(Algorithm::from_label(a.to_label().as_str()), a);
    }
    assert_eq!(Algorithm::from_label("Sum"), Algorithm::Sum);
    assert_eq!(Algorithm::to_label(&Algorithm::Max), "Max".to_string());
}

#[test]
fn unknown_labels_decode_to_unset() {
    assert_eq!(Algorithm::from_label("sum"), Algorithm::Unset);
    assert_eq!(Algorithm::from_label(""), Algorithm::Unset);
    assert_eq!(Algorithm::from_label("Quux"), Algorithm::Unset);
}

#[test]
fn random_draw_maps_onto_the_five_reductions() {
    assert_eq!(Algorithm::random(0), Algorithm::Sum);
    assert_eq!(Algorithm::random(1), Algorithm::Product);
    assert_eq!(Algorithm::random(2), Algorithm::Average);
    assert_eq!(Algorithm::random(3), Algorithm::Max);
    assert_eq!(Algorithm::random(4), Algorithm::Min);
    assert_eq!(Algorithm::random(99), Algorithm::Unset);
}
