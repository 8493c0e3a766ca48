use nn::matrix::BinOp;
use nn::matrix::DimensionError;
use nn::matrix::MalformedPersistedData;
use nn::matrix::Matrix;
use nn::prng::Xorrng;

fn b(x: f64) -> u64 {
    x.to_bits()
}

#[test]
fn identity() {
    let mut gen = Xorrng::seed(23432);
    let j = Matrix::random(2, 2, b(0.0), b(1.0), &mut gen);
    let id = Matrix {
        data: vec![vec![b(1.0), b(0.0)], vec![b(0.0), b(1.0)]],
    };
    assert_eq!(j.mult(&id).unwrap(), j);
}

#[test]
fn addition() {
    let mut k = Matrix {
        data: vec![vec![b(1.0), b(2.0), b(3.0)], vec![b(2.0), b(3.0), b(4.0)]],
    };
    let l = Matrix {
        data: vec![vec![b(2.0), b(3.0), b(4.0)], vec![b(3.0), b(4.0), b(5.0)]],
    };
    let r = Matrix {
        data: vec![vec![b(3.0), b(5.0), b(7.0)], vec![b(5.0), b(7.0), b(9.0)]],
    };
    k.combine_mut(&l, BinOp::Add).unwrap();
    assert_eq!(k, r);
}

#[test]
fn outer() {
    let k = Matrix {
        data: vec![vec![b(1.0)], vec![b(2.0)], vec![b(3.0)]],
    };
    let l = Matrix {
        data: vec![vec![b(1.0), b(2.0), b(3.0)]],
    };
    let r = Matrix {
        data: vec![
            vec![b(1.0), b(2.0), b(3.0)],
            vec![b(2.0), b(4.0), b(6.0)],
            vec![b(3.0), b(6.0), b(9.0)],
        ],
    };
    assert_eq!(r, Matrix::from_outer_product(&k, &l));
}

#[test]
fn bytes() {
    let mut gen = Xorrng::seed(2343);
    let n = Matrix::random(5, 5, b(0.0), b(1.0), &mut gen);
    let bytes = n.as_bytes();
    let m = Matrix::from_bytes(bytes).unwrap();
    assert_eq!(m, n);
}

#[test]
fn bytes_non_square() {
    let mut gen = Xorrng::seed(7);
    let n = Matrix::random(1, 4, b(-2.0), b(2.0), &mut gen);
    assert_eq!(Matrix::from_bytes(n.as_bytes()).unwrap(), n);
    let m = Matrix::random(3, 1, b(-2.0), b(2.0), &mut gen);
    assert_eq!(Matrix::from_bytes(m.as_bytes()).unwrap(), m);
}

#[test]
fn bytes_layout() {
    let m = Matrix {
        data: vec![vec![b(1.5), b(-2.0)]],
    };
    let bytes = m.as_bytes();
    assert_eq!(bytes.len(), 16 + 8 * 2);
    assert_eq!(&bytes[0..8], &1u64.to_le_bytes());
    assert_eq!(&bytes[8..16], &2u64.to_le_bytes());
    assert_eq!(&bytes[16..24], &b(1.5).to_le_bytes());
    assert_eq!(&bytes[24..32], &b(-2.0).to_le_bytes());
}

#[test]
fn bytes_truncated() {
    let m = Matrix {
        data: vec![vec![b(1.0), b(2.0)], vec![b(3.0), b(4.0)]],
    };
    let mut bytes = m.as_bytes();
    bytes.pop();
    assert_eq!(Matrix::from_bytes(bytes), Err(MalformedPersistedData));
    assert_eq!(Matrix::from_bytes(vec![0u8; 15]), Err(MalformedPersistedData));
}

#[test]
fn bytes_zero_dimension() {
    // a header announcing 0 rows and 3 columns, with no cells
    let mut bytes = 0u64.to_le_bytes().to_vec();
    bytes.extend_from_slice(&3u64.to_le_bytes());
    assert_eq!(Matrix::from_bytes(bytes), Err(MalformedPersistedData));
}

#[test]
fn mult_dimension_mismatch() {
    let a = Matrix {
        data: vec![vec![b(1.0), b(2.0), b(3.0)], vec![b(4.0), b(5.0), b(6.0)]],
    };
    let c = Matrix {
        data: vec![vec![b(1.0), b(2.0)], vec![b(3.0), b(4.0)]],
    };
    let err = a.mult(&c).unwrap_err();
    assert_eq!(
        err,
        DimensionError {
            rows_a: 2,
            columns_a: 3,
            rows_b: 2,
            columns_b: 2,
        }
    );
}

#[test]
fn combine_dimension_mismatch() {
    let a = Matrix {
        data: vec![vec![b(1.0), b(2.0)]],
    };
    let c = Matrix {
        data: vec![vec![b(1.0)], vec![b(2.0)]],
    };
    let err = a.combine(&c, BinOp::Sub).unwrap_err();
    assert_eq!(
        err,
        DimensionError {
            rows_a: 1,
            columns_a: 2,
            rows_b: 2,
            columns_b: 1,
        }
    );
}

#[test]
fn zeroes_and_transpose() {
    let z = Matrix::zeroes(2, 3);
    assert_eq!(z.rows(), 2);
    assert_eq!(z.columns(), 3);
    for row in &z.data {
        for &cell in row {
            assert_eq!(cell, b(0.0));
        }
    }
    let m = Matrix {
        data: vec![vec![b(1.0), b(2.0)], vec![b(3.0), b(4.0)]],
    };
    let t = m.transpose();
    let expected = Matrix {
        data: vec![vec![b(1.0), b(3.0)], vec![b(2.0), b(4.0)]],
    };
    assert_eq!(t, expected);
}

#[test]
fn bra_and_ket() {
    let bra = Matrix::as_bra(vec![b(1.0), b(2.0), b(3.0)]);
    assert_eq!(bra.rows(), 1);
    assert_eq!(bra.columns(), 3);
    let ket = Matrix::as_ket(vec![b(1.0), b(2.0), b(3.0)]);
    assert_eq!(ket.rows(), 3);
    assert_eq!(ket.columns(), 1);
    assert_eq!(ket, bra.transpose());
}

#[test]
fn fold_to_scalar() {
    let m = Matrix {
        data: vec![vec![b(1.0), b(2.5)], vec![b(-0.5), b(4.0)]],
    };
    let s = m.to_scalar(BinOp::Add);
    let expected: f64 = ((0.0 + 1.0) + 2.5 + -0.5) + 4.0;
    assert_eq!(s, expected.to_bits());
}

#[test]
fn apply_logistic_exact() {
    let m = Matrix {
        data: vec![vec![b(0.0)]],
    };
    let a = m.apply(nn::matrix::UnOp::Logistic);
    assert_eq!(a.data[0][0], b(0.5));
    let d = m.apply(nn::matrix::UnOp::LogisticDeriv);
    assert_eq!(d.data[0][0], b(0.25));
}
