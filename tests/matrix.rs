use vision3d::algebra::{Group, Ring};
use vision3d::matrix::{Matrix, Vector};

#[test]
fn add() {
    let x1: Vector<i64, 2> = Vector { values: [5, 7] };
    let x2: Vector<i64, 2> = Vector { values: [3, 9] };
    let x3: Vector<i64, 2> = x1.add(&x2);
    assert_eq!(8, x3.values[0]);
    assert_eq!(16, x3.values[1]);
}

#[test]
fn vector_inner_product() {
    let a: Vector<i64, 3> = Vector { values: [1, 2, 3] };
    let b: Vector<i64, 3> = Vector { values: [4, 5, 6] };
    assert_eq!(32, a.mul(&b));
}

#[test]
fn vector_constants_and_negation() {
    let z: Vector<i64, 3> = Vector::zero();
    assert_eq!([0, 0, 0], z.values);
    let n: Vector<i64, 3> = Vector::neutral();
    assert_eq!([1, 1, 1], n.values);
    let a: Vector<i64, 3> = Vector { values: [1, -1, 5] };
    assert_eq!([-1, 1, -5], a.minus().values);
    assert!(a.inverse().is_none());
    let u: Vector<i64, 3> = Vector { values: [1, -1, 1] };
    assert_eq!(Some([1, -1, 1]), u.inverse().map(|v| v.values));
}

fn sample() -> Matrix<i64, i64, 2> {
    Matrix::new([Vector { values: [1, 2] }, Vector { values: [3, 4] }])
}

#[test]
fn matrix_identity_and_zero() {
    let m = sample();
    let id: Matrix<i64, i64, 2> = Matrix::neutral();
    assert_eq!([1, 0], id.elements[0].values);
    assert_eq!([0, 1], id.elements[1].values);
    let p = m.mul(&id);
    assert_eq!([1, 2], p.elements[0].values);
    assert_eq!([3, 4], p.elements[1].values);
    let s = m.add(&Matrix::zero());
    assert_eq!([1, 2], s.elements[0].values);
    assert_eq!([3, 4], s.elements[1].values);
}

// Deliberate: entry (i, j) of the product is row i times column j, not its
// transpose.
#[test]
fn matrix_product_is_row_by_column() {
    let m = sample();
    let p = m.mul(&m);
    assert_eq!([7, 10], p.elements[0].values);
    assert_eq!([15, 22], p.elements[1].values);
    let n: Matrix<i64, i64, 2> = Matrix::new([Vector { values: [0, 1] }, Vector { values: [0, 0] }]);
    let q = m.mul(&n);
    assert_eq!([0, 1], q.elements[0].values);
    assert_eq!([0, 3], q.elements[1].values);
}

// Deliberate: negation negates each entry rather than returning the matrix.
#[test]
fn matrix_negation() {
    let m = sample().minus();
    assert_eq!([-1, -2], m.elements[0].values);
    assert_eq!([-3, -4], m.elements[1].values);
}

#[test]
fn integer_ring() {
    assert_eq!(0, <i64 as Group>::zero());
    assert_eq!(i64::MIN, i64::MAX.plus(&1));
    assert_eq!(-5, 5i64.minus());
    assert_eq!(1, <i64 as Ring>::neutral());
    assert_eq!(12, 3i64.times(&4));
    assert_eq!(Some(-1), (-1i64).inverse());
    assert_eq!(None, 3i64.inverse());
}

#[test]
fn vectors_form_a_group() {
    let a: Vector<i64, 2> = Vector { values: [4, -9] };
    let b: Vector<i64, 2> = Vector { values: [1, 2] };
    assert_eq!([5, -7], Group::plus(&a, &b).values);
    assert_eq!([-4, 9], Group::minus(&a).values);
    assert_eq!([0, 0], <Vector<i64, 2> as Group>::zero().values);
    assert_eq!([0, 0], Group::plus(&a, &Group::minus(&a)).values);
}

#[test]
fn matrices_form_a_group() {
    let m = sample();
    let z = <Matrix<i64, i64, 2> as Group>::zero();
    assert_eq!([0, 0], z.elements[1].values);
    let s = Group::plus(&m, &m);
    assert_eq!([2, 4], s.elements[0].values);
    assert_eq!([6, 8], s.elements[1].values);
    let n = Group::minus(&m);
    assert_eq!([-3, -4], n.elements[1].values);
    let c = Group::plus(&m, &n);
    assert_eq!([0, 0], c.elements[0].values);
    assert_eq!([0, 0], c.elements[1].values);
}

#[test]
fn matrices_form_a_ring() {
    let m = sample();
    let id = <Matrix<i64, i64, 2> as Ring>::neutral();
    assert_eq!([1, 0], id.elements[0].values);
    let p = Ring::times(&id, &m);
    assert_eq!([1, 2], p.elements[0].values);
    assert_eq!([3, 4], p.elements[1].values);
    let q = Ring::times(&m, &m);
    assert_eq!([15, 22], q.elements[1].values);
    assert!(Ring::inverse(&m).is_none());
}
