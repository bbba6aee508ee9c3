use vector_search::metric::{
    cosine_distance, distance, isqrt, l2_distance, Metric, COSINE_SCALE,
};

#[test]
fn l2_exact_values() {
    let a: Vec<i32> = vec![0, 0, 0];
    let b: Vec<i32> = vec![1, 0, 0];
    let c: Vec<i32> = vec![0, 5, 0];
    assert_eq!(l2_distance(&a, &a), 0);
    assert_eq!(l2_distance(&a, &b), 1);
    assert_eq!(l2_distance(&a, &c), 25);
    assert_eq!(l2_distance(&b, &c), 26);
}

#[test]
fn l2_handles_extremes() {
    let a: Vec<i32> = vec![i32::MIN, i32::MAX];
    let b: Vec<i32> = vec![i32::MAX, i32::MIN];
    let d: u128 = 4294967295u128 * 4294967295u128;
    assert_eq!(l2_distance(&a, &b), 2 * d);
}

#[test]
fn isqrt_exact() {
    assert_eq!(isqrt(0), 0);
    assert_eq!(isqrt(1), 1);
    assert_eq!(isqrt(3), 1);
    assert_eq!(isqrt(4), 2);
    assert_eq!(isqrt(99), 9);
    assert_eq!(isqrt(100), 10);
    assert_eq!(isqrt(1_000_000_000_000), 1_000_000);
}

#[test]
fn cosine_self_is_zero() {
    let a: Vec<i32> = vec![3, 4, 0];
    assert_eq!(cosine_distance(&a, &a), 0);
}

#[test]
fn cosine_orthogonal_is_scale() {
    let a: Vec<i32> = vec![1, 0];
    let b: Vec<i32> = vec![0, 1];
    assert_eq!(cosine_distance(&a, &b), COSINE_SCALE);
}

#[test]
fn cosine_opposite_is_twice_scale() {
    let a: Vec<i32> = vec![2, 0];
    let b: Vec<i32> = vec![-2, 0];
    assert_eq!(cosine_distance(&a, &b), 2 * COSINE_SCALE);
}

#[test]
fn cosine_zero_norm_sentinel() {
    let a: Vec<i32> = vec![0, 0];
    let b: Vec<i32> = vec![1, 2];
    assert_eq!(cosine_distance(&a, &b), 2 * COSINE_SCALE);
    assert_eq!(cosine_distance(&b, &a), 2 * COSINE_SCALE);
}

#[test]
fn distance_dispatches_on_metric() {
    let a: Vec<i32> = vec![1, 0];
    let b: Vec<i32> = vec![0, 1];
    assert_eq!(distance(Metric::L2, &a, &b), 2);
    assert_eq!(distance(Metric::Cosine, &a, &b), COSINE_SCALE);
}
