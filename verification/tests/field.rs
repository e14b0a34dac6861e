use pcgroup::util::FiniteField;

#[test]
fn test_finite_field_basic() {
    let f4 = FiniteField::new(2, 2);
    assert_eq!(f4.q, 4);
    assert_eq!(f4.poly, vec![1, 1, 1]);

    let a = f4.basis_element(1);
    let a_sq = f4.mul(&a, &a);
    assert_eq!(a_sq, vec![1, 1]);
    assert_eq!(f4.inv(&a), a_sq);
}

#[test]
fn field_prime_fields_and_roots() {
    let f7 = FiniteField::new(7, 1);
    assert_eq!(f7.q, 7);
    assert_eq!(f7.poly, vec![0, 1]);
    assert_eq!(f7.prim, vec![3]);
    let f2 = FiniteField::new(2, 1);
    assert_eq!(f2.prim, vec![1]);
    assert_eq!(f2.inv(&[1]), vec![1]);
    assert_eq!(f7.mul(&[3], &[5]), vec![1]);
    assert_eq!(f7.pow(&[3], 6), vec![1]);
    assert_eq!(f7.inv(&[3]), vec![5]);
}

#[test]
fn field_extension_arithmetic() {
    let f8 = FiniteField::new(2, 3);
    assert_eq!(f8.q, 8);
    assert_eq!(f8.poly, vec![1, 1, 0, 1]);
    assert_eq!(f8.prim, vec![0, 1]);
    let f9 = FiniteField::new(3, 2);
    assert_eq!(f9.poly, vec![1, 0, 1]);
    assert_eq!(f9.sub(&[1, 2], &[2, 2]), vec![2]);
    assert_eq!(f9.sub(&[1], &[1]), vec![0]);
    assert_eq!(f9.basis_element(0), vec![1]);
    assert_eq!(f9.basis_element(2), vec![0, 0, 1]);
    assert_eq!(f9.basis_product(1, 1), vec![2]);
    let x = f9.basis_element(1);
    let x_inv = f9.inv(&x);
    assert_eq!(f9.mul(&x, &x_inv), vec![1]);
}
