use vector_math::error::LinalgError;
use vector_math::scalar::{floor_sqrt, Real};
use vector_math::vector::{add_vectors, mult_vectors, operate_vectors, sub_vectors, Vector, VectorOp};

fn r(x: f64) -> Real {
    Real::from_raw((x * 1_000_000.0).round() as i64)
}

fn vals(xs: &[f64]) -> Vec<Real> {
    xs.iter().map(|&x| r(x)).collect()
}

fn as_f64(x: Real) -> f64 {
    x.raw as f64 / 1_000_000.0
}

#[test]
fn it_should_sum_correctly() {
    let a = vals(&[1.0, 2.0, 3.0, 4.0]);
    let b = vals(&[1.0, 2.0, 3.0, 4.0]);
    assert_eq!(add_vectors(&a, &b), Ok(vals(&[2.0, 4.0, 6.0, 8.0])));
}

#[test]
fn it_should_sub_correctly() {
    let a = vals(&[1.0, 2.0, 3.0, 4.0]);
    let b = vals(&[1.0, 2.0, 3.0, 4.0]);
    assert_eq!(sub_vectors(&a, &b), Ok(vals(&[0.0, 0.0, 0.0, 0.0])));
}

#[test]
fn it_should_multiply_correctly() {
    let a = vals(&[1.0, 2.0, 3.0, 4.0]);
    let b = vals(&[2.0, 3.0, 4.0, 5.0]);
    assert_eq!(mult_vectors(&a, &b), Ok(vals(&[2.0, 6.0, 12.0, 20.0])));
}

#[test]
fn it_should_operate_add_correctly() {
    let a = vals(&[1.0, 2.0, 3.0, 4.0]);
    let b = vals(&[1.0, 2.0, 3.0, 4.0]);
    let result = operate_vectors(&a, &b, VectorOp::Add).unwrap();
    assert_eq!(result, Vector(vals(&[2.0, 4.0, 6.0, 8.0])));
}

#[test]
fn it_should_operate_sub_correctly() {
    let a = vals(&[5.0, 6.0, 7.0, 8.0]);
    let b = vals(&[1.0, 2.0, 3.0, 4.0]);
    let result = operate_vectors(&a, &b, VectorOp::Sub).unwrap();
    assert_eq!(result, Vector(vals(&[4.0, 4.0, 4.0, 4.0])));
}

#[test]
fn it_should_operate_mul_correctly() {
    let a = vals(&[1.0, 2.0, 3.0, 4.0]);
    let b = vals(&[2.0, 3.0, 4.0, 5.0]);
    let result = operate_vectors(&a, &b, VectorOp::Mul).unwrap();
    assert_eq!(result, Vector(vals(&[2.0, 6.0, 12.0, 20.0])));
}

#[test]
fn it_should_operate_div_correctly() {
    let a = vals(&[2.0, 4.0, 6.0, 8.0]);
    let b = vals(&[2.0, 2.0, 3.0, 4.0]);
    let result = operate_vectors(&a, &b, VectorOp::Div).unwrap();
    assert_eq!(result, Vector(vals(&[1.0, 2.0, 2.0, 2.0])));
}

#[test]
fn it_should_return_error_for_division_by_zero() {
    let a = vals(&[1.0, 2.0, 3.0]);
    let b = vals(&[1.0, 0.0, 3.0]);
    let result = operate_vectors(&a, &b, VectorOp::Div);
    assert!(result.is_err());
    assert_eq!(result.unwrap_err().message(), "Division by zero");
}

#[test]
fn it_should_return_dot_product_correctly() {
    let a = Vector(vals(&[1.0, 2.0, 3.0]));
    let b = Vector(vals(&[1.0, 2.0, 3.0]));
    let result = a.dot_product(&b).unwrap();
    assert_eq!(result, r(14.0));
}

#[test]
fn it_should_return_error_for_different_lengths() {
    let a = vals(&[1.0, 2.0]);
    let b = vals(&[1.0, 2.0, 3.0]);
    let result = operate_vectors(&a, &b, VectorOp::Add);
    assert!(result.is_err());
    assert_eq!(result.unwrap_err().message(), "Vectors must have the same length");
}

#[test]
fn it_should_display_len_correctly() {
    let v = Vector(vec![Real::from_int(1), Real::from_int(2), Real::from_int(3), Real::from_int(4)]);
    assert_eq!(v.len(), 4);
}

#[test]
fn it_should_return_norm_correctly() {
    let v = Vector(vals(&[3.0, 4.0]));
    let result = v.norm().unwrap();
    assert_eq!(result, r(5.0));
}

#[test]
fn it_should_return_unit_vector_correctly() {
    let v = Vector(vals(&[3.0, 4.0]));
    let result = v.unit_vect().unwrap();
    assert_eq!(result, Vector(vals(&[0.6, 0.8])));
}

#[test]
fn it_should_return_scalar_projection_correctly() {
    let a = Vector(vals(&[3.0, 4.0]));
    let b = Vector(vals(&[1.0, 0.0]));
    let result = a.scalar_projection(&b).unwrap();
    assert_eq!(result, r(3.0));
}

#[test]
fn it_should_return_error_for_unit_vector_of_zero_vector() {
    let v = Vector(vals(&[0.0, 0.0]));
    let result = v.unit_vect();
    assert!(result.is_err());
    assert_eq!(result.unwrap_err().message(), "Cannot normalize zero vector");
}

#[test]
fn elementwise_add_matches_each_pair() {
    let a = vals(&[1.5, -2.25, 0.0, 1000.0]);
    let b = vals(&[0.5, 2.25, -7.125, 0.001]);
    let sum = Vector(a.clone()).add(&Vector(b.clone())).unwrap();
    for i in 0..a.len() {
        assert_eq!(sum.0[i].raw, a[i].raw + b[i].raw);
    }
}

#[test]
fn vector_methods_match_operate_vectors() {
    let a = Vector(vals(&[6.0, -3.0]));
    let b = Vector(vals(&[1.5, 2.0]));
    assert_eq!(a.sub(&b).unwrap(), Vector(vals(&[4.5, -5.0])));
    assert_eq!(a.mul(&b).unwrap(), Vector(vals(&[9.0, -6.0])));
    assert_eq!(a.div(&b).unwrap(), Vector(vals(&[4.0, -1.5])));
}

#[test]
fn division_rounds_toward_zero() {
    let a = vals(&[1.0, -1.0]);
    let b = vals(&[3.0, 3.0]);
    let q = operate_vectors(&a, &b, VectorOp::Div).unwrap();
    assert_eq!(q.0[0].raw, 333_333);
    assert_eq!(q.0[1].raw, -333_333);
}

#[test]
fn dot_of_self_is_squared_norm() {
    let a = Vector(vals(&[1.0, 2.0, 2.0]));
    let d = a.dot_product(&a).unwrap();
    let n = a.norm().unwrap();
    assert_eq!(d, r(9.0));
    assert_eq!(n, r(3.0));
    let b = Vector(vals(&[1.0, 1.0]));
    let d = as_f64(b.dot_product(&b).unwrap());
    let n = as_f64(b.norm().unwrap());
    assert!((n * n - d).abs() < 1e-5);
}

#[test]
fn unit_vector_has_norm_one() {
    let a = Vector(vals(&[1.0, 2.0, 3.0]));
    let u = a.unit_vect().unwrap();
    let n = as_f64(u.norm().unwrap());
    assert!((n - 1.0).abs() < 1e-5);
}

#[test]
fn cosine_of_vector_with_itself_is_one() {
    let a = Vector(vals(&[2.0, -1.0, 4.0]));
    let c = as_f64(a.cosine_similarity(&a).unwrap());
    assert!((c - 1.0).abs() < 1e-5);
}

#[test]
fn cosine_of_orthogonal_vectors_is_zero() {
    let a = Vector(vals(&[1.0, 0.0]));
    let b = Vector(vals(&[0.0, 2.0]));
    assert_eq!(a.cosine_similarity(&b).unwrap(), r(0.0));
    let c = Vector(vals(&[3.0, 4.0]));
    assert_eq!(a.cosine_similarity(&c).unwrap(), r(0.6));
}

#[test]
fn mismatched_lengths_always_fail() {
    let a = Vector(vals(&[1.0, 2.0]));
    let b = Vector(vals(&[1.0, 2.0, 3.0]));
    assert_eq!(a.add(&b), Err(LinalgError::LengthMismatch));
    assert_eq!(a.sub(&b), Err(LinalgError::LengthMismatch));
    assert_eq!(a.mul(&b), Err(LinalgError::LengthMismatch));
    assert_eq!(a.div(&b), Err(LinalgError::LengthMismatch));
    assert_eq!(a.dot_product(&b), Err(LinalgError::LengthMismatch));
    assert_eq!(a.scalar_projection(&b), Err(LinalgError::LengthMismatch));
    assert_eq!(a.cosine_similarity(&b), Err(LinalgError::LengthMismatch));
}

#[test]
fn empty_vector_errors() {
    let e = Vector(vec![]);
    assert_eq!(e.norm(), Err(LinalgError::EmptyVector));
    assert_eq!(e.unit_vect(), Err(LinalgError::EmptyVector));
    assert_eq!(e.scalar_projection(&e), Err(LinalgError::EmptyVector));
    assert_eq!(e.cosine_similarity(&e), Err(LinalgError::EmptyVector));
}

#[test]
fn zero_vector_errors() {
    let z = Vector(vals(&[0.0, 0.0]));
    let a = Vector(vals(&[1.0, 2.0]));
    assert_eq!(z.norm(), Ok(r(0.0)));
    assert_eq!(a.scalar_projection(&z), Err(LinalgError::ZeroVectorNormalization));
    assert_eq!(a.cosine_similarity(&z), Err(LinalgError::ZeroVectorSimilarity));
    assert_eq!(z.cosine_similarity(&a), Err(LinalgError::ZeroVectorSimilarity));
}

#[test]
fn tiny_vector_is_not_zero() {
    let a = Vector(vec![Real::from_raw(1), Real::from_raw(0)]);
    assert_eq!(a.norm(), Ok(Real::from_raw(1)));
    assert_eq!(a.unit_vect(), Ok(Vector(vals(&[1.0, 0.0]))));
}

#[test]
fn arithmetic_saturates_at_the_bounds() {
    let big = Real::from_raw(i64::MAX);
    assert_eq!(big.plus(Real::from_raw(1)), Real::from_raw(i64::MAX));
    assert_eq!(Real::from_raw(i64::MIN).minus(Real::from_raw(1)), Real::from_raw(i64::MIN));
    assert_eq!(big.times(r(2.0)), Real::from_raw(i64::MAX));
    assert_eq!(Real::from_int(i64::MAX), Real::from_raw(i64::MAX));
}

#[test]
fn real_constructors_and_roots() {
    assert_eq!(Real::from_ratio(3, 4), r(0.75));
    assert_eq!(Real::from_ratio(-1, 3).raw, -333_333);
    assert_eq!(r(2.25).sqrt(), r(1.5));
    assert_eq!(r(2.0).sqrt().raw, 1_414_213);
    assert_eq!(r(-4.0).sqrt(), r(0.0));
    assert_eq!(r(-2.5).magnitude(), r(2.5));
    assert_eq!(Real::one(), r(1.0));
    assert!(Real::zero().is_zero());
}

#[test]
fn floor_sqrt_rounds_down() {
    assert_eq!(floor_sqrt(0), 0);
    assert_eq!(floor_sqrt(24), 4);
    assert_eq!(floor_sqrt(25), 5);
    assert_eq!(floor_sqrt(u128::MAX), u64::MAX);
}

#[test]
fn error_messages() {
    assert_eq!(LinalgError::ZeroVectorSimilarity.message(), "Cannot compute cosine similarity with zero vector");
    assert_eq!(LinalgError::EmptyVector.message(), "Vector must have at least one element");
}

#[test]
fn it_should_display_vector_correctly() {
    let v = Vector(vec![Real::from_int(1), Real::from_int(2), Real::from_int(3), Real::from_int(4)]);
    assert_eq!(v.to_text(), "[1, 2, 3, 4]");
}

#[test]
fn reals_render_in_decimal() {
    assert_eq!(r(0.6).to_text(), "0.6");
    assert_eq!(r(-12.25).to_text(), "-12.25");
    assert_eq!(Real::from_raw(5).to_text(), "0.000005");
    assert_eq!(r(0.0).to_text(), "0");
    assert_eq!(Real::from_raw(i64::MIN).to_text(), "-9223372036854.775808");
    assert_eq!(Vector(vec![]).to_text(), "[]");
    assert_eq!(Vector(vals(&[0.5, -2.0])).to_text(), "[0.5, -2]");
}

#[test]
fn cosine_is_symmetric() {
    let a = Vector(vals(&[1.0, 1.0]));
    let b = Vector(vals(&[1.0, 2.0]));
    let ab = a.cosine_similarity(&b).unwrap();
    assert_eq!(ab, b.cosine_similarity(&a).unwrap());
    assert_eq!(ab.raw, 948_683);
}

#[test]
fn cosine_of_small_vector_with_itself_is_one() {
    for xs in [&[0.0015][..], &[0.000001, 0.000003], &[1e6, -2e6, 3.5]] {
        let a = Vector(vals(xs));
        assert_eq!(a.cosine_similarity(&a).unwrap(), r(1.0));
    }
}

#[test]
fn unit_vector_of_small_vector_has_norm_one() {
    let a = Vector(vals(&[0.001, 0.001]));
    let u = a.unit_vect().unwrap();
    assert_eq!(u.0[0].raw, 707_106);
    let n = u.norm().unwrap().raw;
    assert!((999_995..=1_000_000).contains(&n), "{}", n);
    let tiny = Vector(vals(&[0.000001, 0.000001]));
    assert_eq!(tiny.unit_vect().unwrap(), Vector(vals(&[0.707107, 0.707107])));
}
