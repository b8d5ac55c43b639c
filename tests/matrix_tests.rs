use vector_math::enums::{IpAddrKint, VectorOp};
use vector_math::error::LinalgError;
use vector_math::matrix::Matrix;
use vector_math::point::Point;
use vector_math::scalar::Real;

fn r(x: f64) -> Real {
    Real::from_raw((x * 1_000_000.0).round() as i64)
}

fn f(x: Real) -> f64 {
    x.raw as f64 / 1_000_000.0
}

fn m(rows: &[&[f64]]) -> Matrix {
    Matrix::new(rows.iter().map(|row| row.iter().map(|&x| r(x)).collect()).collect()).unwrap()
}

fn values(a: &Matrix) -> Vec<Vec<f64>> {
    a.data.iter().map(|row| row.iter().map(|&x| f(x)).collect()).collect()
}

fn sample() -> Matrix {
    m(&[&[1.0, 2.0], &[3.0, 4.0], &[5.0, 6.0]])
}

/// U · diag(S) · Vᵗ, computed in f64.
fn reconstruct(u: &Matrix, s: &[Real], vt: &Matrix) -> Vec<Vec<f64>> {
    let mut out = vec![vec![0.0; vt.cols]; u.rows];
    for i in 0..u.rows {
        for j in 0..vt.cols {
            for k in 0..s.len() {
                out[i][j] += f(u.data[i][k]) * f(s[k]) * f(vt.data[k][j]);
            }
        }
    }
    out
}

#[test]
fn construct_valid_matrix() {
    let a = sample();
    assert_eq!(a.rows, 3);
    assert_eq!(a.cols, 2);
}

#[test]
fn construct_rejects_ragged_and_empty() {
    let ragged = Matrix::new(vec![vec![r(1.0), r(2.0)], vec![r(3.0)]]);
    assert_eq!(ragged.unwrap_err(), LinalgError::RaggedRows);
    assert_eq!(Matrix::new(vec![]).unwrap_err(), LinalgError::EmptyMatrix);
    assert_eq!(Matrix::new(vec![vec![]]).unwrap_err(), LinalgError::EmptyMatrix);
}

#[test]
fn zeros_has_shape_and_zero_entries() {
    let z = Matrix::zeros(2, 3);
    assert_eq!((z.rows, z.cols), (2, 3));
    assert_eq!(values(&z), vec![vec![0.0; 3]; 2]);
}

#[test]
fn transpose_of_sample() {
    let t = sample().transpose();
    assert_eq!((t.rows, t.cols), (2, 3));
    assert_eq!(values(&t), vec![vec![1.0, 3.0, 5.0], vec![2.0, 4.0, 6.0]]);
}

#[test]
fn transpose_twice_is_identity() {
    let a = m(&[&[1.5, -2.0, 0.25], &[7.0, 0.0, -3.5]]);
    let tt = a.transpose().transpose();
    assert_eq!((tt.rows, tt.cols), (a.rows, a.cols));
    assert_eq!(tt.data, a.data);
}

#[test]
fn product_with_own_transpose() {
    let a = sample();
    let c = a.mul(&a.transpose()).unwrap();
    assert_eq!((c.rows, c.cols), (3, 3));
    assert_eq!(f(c.data[0][0]), 5.0);
    for i in 0..3 {
        for j in 0..3 {
            assert_eq!(c.data[i][j], c.data[j][i]);
        }
    }
    assert_eq!(values(&c), vec![vec![5.0, 11.0, 17.0], vec![11.0, 25.0, 39.0], vec![17.0, 39.0, 61.0]]);
}

#[test]
fn product_shape_law() {
    let a = sample();
    assert_eq!(a.mul(&a).unwrap_err(), LinalgError::ShapeMismatch);
    let b = m(&[&[1.0, 0.0, 2.0, 1.0], &[0.0, 1.0, 1.0, 3.0]]);
    let c = a.mul(&b).unwrap();
    assert_eq!((c.rows, c.cols), (3, 4));
    assert_eq!(values(&c)[2], vec![5.0, 6.0, 16.0, 23.0]);
}

#[test]
fn matrix_vector_product() {
    let a = sample();
    let y = a.mul_vec(&[r(1.0), r(-1.0)]).unwrap();
    assert_eq!(y, vec![r(-1.0), r(-1.0), r(-1.0)]);
    assert_eq!(a.mul_vec(&[r(1.0)]).unwrap_err(), LinalgError::ShapeMismatch);
}

#[test]
fn column_access_and_replacement() {
    let mut a = sample();
    assert_eq!(a.col(1), vec![r(2.0), r(4.0), r(6.0)]);
    assert_eq!(a.set_col(0, &[r(9.0), r(8.0), r(7.0)]), Ok(()));
    assert_eq!(values(&a), vec![vec![9.0, 2.0], vec![8.0, 4.0], vec![7.0, 6.0]]);
    assert_eq!(a.set_col(0, &[r(1.0)]), Err(LinalgError::ColumnLengthMismatch));
    assert_eq!(a.set_col(5, &[r(1.0), r(1.0), r(1.0)]), Err(LinalgError::IndexOutOfRange));
    assert_eq!(values(&a), vec![vec![9.0, 2.0], vec![8.0, 4.0], vec![7.0, 6.0]]);
}

#[test]
fn svd_of_sample() {
    let (u, s, vt) = sample().svd(r(1e-6), 1000).unwrap();
    assert_eq!(s.len(), 2);
    assert!(s[0].raw >= s[1].raw && s[1].raw >= 0);
    let sum_sq = f(s[0]) * f(s[0]) + f(s[1]) * f(s[1]);
    assert!((sum_sq - 91.0).abs() < 1e-3, "{}", sum_sq);
    assert_eq!((u.rows, u.cols), (3, 2));
    assert_eq!((vt.rows, vt.cols), (2, 2));
}

#[test]
fn svd_reconstructs_full_rank_matrix() {
    let a = sample();
    let (u, s, vt) = a.svd(r(1e-6), 1000).unwrap();
    let back = reconstruct(&u, &s, &vt);
    let want = values(&a);
    for i in 0..3 {
        for j in 0..2 {
            assert!((back[i][j] - want[i][j]).abs() < 1e-3, "{} vs {}", back[i][j], want[i][j]);
        }
    }
}

#[test]
fn svd_of_zero_matrix() {
    let z = m(&[&[0.0, 0.0, 0.0], &[0.0, 0.0, 0.0]]);
    let (u, s, vt) = z.svd(r(1e-6), 100).unwrap();
    assert!(s.is_empty());
    assert_eq!((u.rows, u.cols), (2, 2));
    assert_eq!(values(&u), vec![vec![0.0; 2]; 2]);
    assert_eq!((vt.rows, vt.cols), (0, 0));
}

#[test]
fn svd_of_rank_one_matrix() {
    let a = m(&[&[1.0, 2.0], &[2.0, 4.0]]);
    let (u, s, vt) = a.svd(r(1e-6), 1000).unwrap();
    assert!(!s.is_empty() && s.len() <= 2);
    assert!((f(s[0]) - 5.0).abs() < 1e-3);
    for x in &s[1..] {
        assert!(f(*x) < 1e-2);
    }
    assert_eq!((u.rows, u.cols), (2, s.len()));
    assert_eq!((vt.rows, vt.cols), (s.len(), 2));
}

#[test]
fn other_public_types() {
    assert_eq!(IpAddrKint::V4.label(), "IpV4");
    assert_eq!(IpAddrKint::V6.label(), "IpV6");
    assert_eq!(vector_math::enum_example::IpAddrKint::V6, IpAddrKint::V6);
    assert_ne!(VectorOp::Add, VectorOp::Div);
    let p = Point { x: 1, y: -2 };
    assert_eq!((p.x, p.y), (1, -2));
    assert_eq!(p.to_text(), "(1,-2)\n");
    assert_eq!(Point { x: i32::MIN, y: 0 }.to_text(), "(-2147483648,0)\n");
}

#[test]
fn fixed_width_text_matches_float_formatting() {
    for &x in &[0.0, 1.0, -2.5, 3.14159, 0.00004, 0.00005, -0.00006, 12345.678901, 91.0, -1000000.0] {
        assert_eq!(r(x).to_fixed_text(), format!("{:8.4}", x), "{}", x);
    }
}

#[test]
fn matrix_text_layout() {
    let a = m(&[&[1.0, -2.5], &[3.25, 4.0]]);
    assert_eq!(a.to_text(), "[  1.0000  -2.5000]\n[  3.2500   4.0000]\n");
}
