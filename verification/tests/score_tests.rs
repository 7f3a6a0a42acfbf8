//! Tests of the fixed-point cosine similarity.

use ragstore::score::{cosine_similarity, SCORE_SCALE};

fn bits(v: &[f32]) -> Vec<u32> {
    v.iter().map(|x| x.to_bits()).collect()
}

fn as_unit(score: i64) -> f64 {
    score as f64 / SCORE_SCALE as f64
}

#[test]
fn identity_scores_exactly_one() {
    let v = bits(&[0.1, 0.2, 0.3, 0.4]);
    assert_eq!(cosine_similarity(&v, &v), SCORE_SCALE);
    let w = bits(&[1.0, 0.0]);
    assert_eq!(cosine_similarity(&w, &w), SCORE_SCALE);
}

#[test]
fn similarity_is_symmetric() {
    let a = bits(&[0.25, -0.5, 0.75]);
    let b = bits(&[1.5, 0.5, -2.0]);
    assert_eq!(cosine_similarity(&a, &b), cosine_similarity(&b, &a));
    let c = bits(&[0.0, 0.0]);
    assert_eq!(cosine_similarity(&a, &c), cosine_similarity(&c, &a));
}

#[test]
fn similarity_stays_within_unit_range() {
    let vectors = [
        bits(&[1.0, 2.0, 3.0]),
        bits(&[-1.0, -2.0, -3.0]),
        bits(&[0.001, -0.002, 0.5]),
        bits(&[10.0, 0.0, -10.0]),
    ];
    for a in &vectors {
        for b in &vectors {
            let s = cosine_similarity(a, b);
            assert!(-SCORE_SCALE <= s && s <= SCORE_SCALE);
        }
    }
}

#[test]
fn opposite_vectors_score_minus_one() {
    let a = bits(&[1.0, 2.0]);
    let b = bits(&[-1.0, -2.0]);
    assert_eq!(cosine_similarity(&a, &b), -SCORE_SCALE);
}

#[test]
fn orthogonal_vectors_score_zero() {
    let a = bits(&[1.0, 0.0]);
    let b = bits(&[0.0, 1.0]);
    assert_eq!(cosine_similarity(&a, &b), 0);
}

#[test]
fn zero_norm_vector_scores_zero() {
    let z = bits(&[0.0, 0.0]);
    let v = bits(&[0.3, 0.4]);
    assert_eq!(cosine_similarity(&z, &v), 0);
    assert_eq!(cosine_similarity(&z, &z), 0);
}

#[test]
fn similarity_approximates_the_real_cosine() {
    let a = bits(&[1.0, 0.0]);
    let b = bits(&[1.0, 1.0]);
    let got = as_unit(cosine_similarity(&a, &b));
    let expected = 1.0f64 / 2.0f64.sqrt();
    assert!((got - expected).abs() < 2e-3, "got {}, expected {}", got, expected);

    let c = bits(&[0.9, 0.1]);
    let got2 = as_unit(cosine_similarity(&a, &c));
    let expected2 = 0.9f64 / (0.81f64 + 0.01f64).sqrt();
    assert!((got2 - expected2).abs() < 2e-3, "got {}, expected {}", got2, expected2);
}
