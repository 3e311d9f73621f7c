use galois_codes::error::CodeError;
use galois_codes::gf2tm::GF2TM;
use galois_codes::matrix::Matrix;
use galois_codes::poly_field::PolyField;
use galois_codes::poly_gf2::PolyGF2;

fn elems(values: &[u32]) -> Vec<GF2TM<4>> {
    values.iter().map(|v| GF2TM::<4>::from(*v)).collect()
}

fn values(v: &[GF2TM<4>]) -> Vec<u32> {
    v.iter().map(|c| c.value().poly).collect()
}

#[test]
fn matrix_holds_its_entries_row_by_row() {
    let mut m = Matrix::<4>::new(elems(&[1, 2, 3, 4, 5, 6]), 2, 3);
    assert_eq!(m.rows(), 2);
    assert_eq!(m.cols(), 3);
    assert_eq!(m.get(0, 2).value(), PolyGF2::new(3));
    assert_eq!(m.get(1, 0).value(), PolyGF2::new(4));
    m.set(1, 0, GF2TM::from(9u32));
    assert_eq!(m.get(1, 0).value(), PolyGF2::new(9));
    assert_eq!(m.get(1, 1).value(), PolyGF2::new(5));
    assert_eq!(m.get(0, 0).value(), PolyGF2::new(1));
    let z = Matrix::<4>::zero(2, 2);
    assert_eq!(z, Matrix::<4>::new(elems(&[0, 0, 0, 0]), 2, 2));
}

#[test]
fn determinant_exact_values() {
    assert_eq!(Matrix::<4>::new(elems(&[]), 0, 0).determinant().value(), PolyGF2::new(1));
    assert_eq!(Matrix::<4>::new(elems(&[7]), 1, 1).determinant().value(), PolyGF2::new(7));
    // 1*4 + 2*3 = 4 + 6 = 2 in GF(16)
    assert_eq!(Matrix::<4>::new(elems(&[1, 2, 3, 4]), 2, 2).determinant().value(), PolyGF2::new(2));
    // a row exchange does not change the determinant in characteristic 2
    assert_eq!(Matrix::<4>::new(elems(&[0, 1, 1, 0]), 2, 2).determinant().value(), PolyGF2::new(1));
    assert_eq!(Matrix::<4>::new(elems(&[3, 4, 1, 2]), 2, 2).determinant().value(), PolyGF2::new(2));
    // two equal rows
    assert_eq!(Matrix::<4>::new(elems(&[5, 6, 5, 6]), 2, 2).determinant().value(), PolyGF2::new(0));
    assert_eq!(
        Matrix::<4>::new(elems(&[1, 1, 1, 1, 2, 4, 1, 3, 5]), 3, 3).determinant().value(),
        PolyGF2::new(6)
    );
}

#[test]
fn solve_exact_values() {
    let m = Matrix::<4>::new(elems(&[1, 2, 3, 4]), 2, 2);
    let x = m.solve(elems(&[5, 6])).unwrap();
    assert_eq!(values(&x), vec![12, 13]);
    // the solution satisfies the system
    let (a, b) = (x[0], x[1]);
    assert_eq!(GF2TM::<4>::from(1u32) * a + GF2TM::<4>::from(2u32) * b, GF2TM::from(5u32));
    assert_eq!(GF2TM::<4>::from(3u32) * a + GF2TM::<4>::from(4u32) * b, GF2TM::from(6u32));
    // a zero on the diagonal asks for an exchange of rows
    let m = Matrix::<4>::new(elems(&[0, 1, 1, 0]), 2, 2);
    assert_eq!(values(&m.solve(elems(&[7, 9])).unwrap()), vec![9, 7]);
    let empty = Matrix::<4>::new(elems(&[]), 0, 0);
    assert_eq!(values(&empty.solve(elems(&[])).unwrap()), Vec::<u32>::new());
}

#[test]
fn solve_tells_a_singular_system_from_a_zero_solution() {
    let singular = Matrix::<4>::new(elems(&[5, 6, 5, 6]), 2, 2);
    assert_eq!(singular.solve(elems(&[0, 0])), Err(CodeError::Singular));
    let regular = Matrix::<4>::new(elems(&[1, 0, 0, 1]), 2, 2);
    assert_eq!(values(&regular.solve(elems(&[0, 0])).unwrap()), vec![0, 0]);
    let zero = Matrix::<4>::zero(3, 3);
    assert_eq!(zero.solve(elems(&[1, 2, 3])), Err(CodeError::Singular));
}

#[test]
fn polynomial_product_quotient_and_value() {
    let a = PolyField::new(elems(&[2, 1]));
    let b = PolyField::new(elems(&[3, 1]));
    // (x + 2)(x + 3) = x^2 + x + 6
    let product = a.mul(&b);
    assert_eq!(values(product.coeffs()), vec![6, 1, 1]);
    assert_eq!(product.eval(GF2TM::from(2u32)).value(), PolyGF2::new(0));
    assert_eq!(product.eval(GF2TM::from(3u32)).value(), PolyGF2::new(0));
    assert_eq!(product.eval(GF2TM::from(4u32)).value(), PolyGF2::new(1));
    let (q, r) = product.div_rem(&a);
    assert_eq!(q, b);
    assert_eq!(values(r.coeffs()), Vec::<u32>::new());
    let (q, r) = PolyField::new(elems(&[7, 1, 1])).div_rem(&a);
    assert_eq!(q, b);
    assert_eq!(values(r.coeffs()), vec![1]);
    let (q, r) = a.div_rem(&product);
    assert_eq!(values(q.coeffs()), Vec::<u32>::new());
    assert_eq!(r, a);
}

#[test]
fn polynomial_drops_zeros_at_the_top() {
    let p = PolyField::new(elems(&[1, 0, 2, 0, 0]));
    assert_eq!(values(p.coeffs()), vec![1, 0, 2]);
    assert_eq!(PolyField::new(elems(&[0, 0])), PolyField::new(elems(&[])));
    assert_eq!(p, PolyField::new(elems(&[1, 0, 2])));
    assert_eq!(PolyField::new(elems(&[])).eval(GF2TM::<4>::from(5u32)).value(), PolyGF2::new(0));
    assert_eq!(p.mul(&PolyField::new(elems(&[]))), PolyField::new(elems(&[])));
    assert_eq!(p.fold_to_gf2(), PolyGF2::new(0b001));
    assert_eq!(PolyField::new(elems(&[1, 3, 2, 7])).fold_to_gf2(), PolyGF2::new(0b1011));
}

#[test]
fn polynomial_sum() {
    let a = PolyField::new(elems(&[1, 2, 3]));
    let b = PolyField::new(elems(&[4, 2, 3, 7]));
    assert_eq!(values(a.add(&b).coeffs()), vec![5, 0, 0, 7]);
    assert_eq!(values(b.add(&a).coeffs()), vec![5, 0, 0, 7]);
    // the top coefficients cancel
    let c = PolyField::new(elems(&[9, 2, 3]));
    assert_eq!(values(a.add(&c).coeffs()), vec![8]);
    assert_eq!(a.add(&a), PolyField::new(elems(&[])));
    assert_eq!(a.add(&PolyField::new(elems(&[]))), a);
}
