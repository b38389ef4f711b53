use std::cmp::Ordering;
use wegdort::metrics::{is_finite, is_zero_vector, total_order_position, validate_vector};
use wegdort::{Error, Metric};

fn bits(values: &[f32]) -> Vec<u32> {
    values.iter().map(|value| value.to_bits()).collect()
}

#[test]
fn compares_similarity_highest_first() {
    assert_eq!(
        Metric::Cosine.compare_scores(0.9f32.to_bits(), 0.2f32.to_bits()),
        Ordering::Less
    );
    assert_eq!(
        Metric::Dot.compare_scores(9.0f32.to_bits(), 2.0f32.to_bits()),
        Ordering::Less
    );
}

#[test]
fn compares_distance_lowest_first() {
    assert_eq!(
        Metric::SquaredL2.compare_scores(2.0f32.to_bits(), 9.0f32.to_bits()),
        Ordering::Less
    );
}

#[test]
fn metrics_rejects_non_finite_values() {
    assert!(matches!(
        validate_vector(Metric::Dot, &bits(&[1.0, f32::NAN])),
        Err(Error::NonFiniteValue)
    ));
}

#[test]
fn rejects_zero_vectors_for_cosine() {
    assert!(matches!(
        validate_vector(Metric::Cosine, &bits(&[0.0, 0.0])),
        Err(Error::ZeroVectorForCosine)
    ));
}

#[test]
fn zero_vectors_are_accepted_for_dot_and_l2() {
    assert!(validate_vector(Metric::Dot, &bits(&[0.0, -0.0])).is_ok());
    assert!(validate_vector(Metric::SquaredL2, &bits(&[0.0, 0.0])).is_ok());
}

#[test]
fn infinity_is_rejected_before_the_zero_check() {
    assert!(matches!(
        validate_vector(Metric::Cosine, &bits(&[0.0, f32::INFINITY])),
        Err(Error::NonFiniteValue)
    ));
    assert!(matches!(
        validate_vector(Metric::SquaredL2, &bits(&[f32::NEG_INFINITY])),
        Err(Error::NonFiniteValue)
    ));
}

#[test]
fn metric_bytes_round_trip() {
    for metric in [Metric::Cosine, Metric::Dot, Metric::SquaredL2] {
        assert_eq!(Metric::from_u8(metric.to_u8()), Some(metric));
    }
    assert_eq!(Metric::Cosine.to_u8(), 1);
    assert_eq!(Metric::Dot.to_u8(), 2);
    assert_eq!(Metric::SquaredL2.to_u8(), 3);
    assert_eq!(Metric::from_u8(0), None);
    assert_eq!(Metric::from_u8(4), None);
    assert_eq!(Metric::from_u8(99), None);
}

#[test]
fn compare_scores_is_equal_only_for_equal_patterns() {
    assert_eq!(
        Metric::Dot.compare_scores(1.5f32.to_bits(), 1.5f32.to_bits()),
        Ordering::Equal
    );
    // Total order tells the two zeros apart: +0.0 ranks above -0.0.
    assert_eq!(
        Metric::Dot.compare_scores(0.0f32.to_bits(), (-0.0f32).to_bits()),
        Ordering::Less
    );
    assert_eq!(
        Metric::SquaredL2.compare_scores(0.0f32.to_bits(), (-0.0f32).to_bits()),
        Ordering::Greater
    );
    assert_eq!(
        Metric::Cosine.compare_scores((-1.0f32).to_bits(), 0.5f32.to_bits()),
        Ordering::Greater
    );
}

#[test]
fn total_order_positions_follow_total_cmp() {
    let values = [
        f32::NEG_INFINITY,
        -3.5,
        -1.0,
        -0.0,
        0.0,
        1.0e-30,
        2.0,
        f32::INFINITY,
        f32::NAN,
    ];
    for a in values {
        for b in values {
            let expected = a.total_cmp(&b);
            let actual = total_order_position(a.to_bits()).cmp(&total_order_position(b.to_bits()));
            assert_eq!(actual, expected);
        }
    }
    assert_eq!(total_order_position(0.0f32.to_bits()), 0x8000_0000);
    assert_eq!(total_order_position((-0.0f32).to_bits()), 0x7fff_ffff);
}

#[test]
fn finiteness_and_zero_tests_on_patterns() {
    assert!(is_finite(1.0f32.to_bits()));
    assert!(is_finite(f32::MAX.to_bits()));
    assert!(!is_finite(f32::INFINITY.to_bits()));
    assert!(!is_finite(f32::NAN.to_bits()));
    assert!(is_zero_vector(&bits(&[0.0, -0.0])));
    assert!(!is_zero_vector(&bits(&[0.0, 1.0e-40])));
    assert!(is_zero_vector(&[]));
}
