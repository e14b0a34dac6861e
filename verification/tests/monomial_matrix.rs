use pcgroup::util::MonomialMatrix;

#[test]
fn test_identity_and_diagonal() {
    let id = MonomialMatrix::identity(4, 6);
    assert_eq!(id.dim(), 4);
    assert_eq!(id.exponent(), 6);
    assert_eq!(id.perm, vec![0, 1, 2, 3]);
    assert_eq!(id.vals, vec![0, 0, 0, 0]);

    let diag = MonomialMatrix::diagonal(3, 2, 6);
    assert_eq!(diag.dim(), 3);
    assert_eq!(diag.vals, vec![2, 2, 2]);
    assert_eq!(diag.pow(3), MonomialMatrix::identity(3, 6));
}

#[test]
fn test_invert_and_compose() {
    let m = MonomialMatrix::new(vec![2, 0, 1], vec![1, 2, 3], 5);
    let inv = m.invert();
    assert_eq!(m.compose(&inv), MonomialMatrix::identity(3, 5));
    assert_eq!(inv.compose(&m), MonomialMatrix::identity(3, 5));
}

#[test]
fn test_compose_into_and_inv_perm() {
    let m1 = MonomialMatrix::new(vec![2, 0, 1], vec![1, 2, 3], 5);
    let m2 = MonomialMatrix::new(vec![1, 2, 0], vec![4, 3, 2], 5);
    let mut out = MonomialMatrix::identity(3, 5);
    m1.compose_into(&m2, &mut out);
    assert_eq!(out, m1.compose(&m2));
    assert_eq!(m1.inv_perm(), vec![1, 2, 0]);
}

#[test]
fn test_powers() {
    let m = MonomialMatrix::new(vec![1, 2, 0], vec![0, 0, 1], 4);
    assert_eq!(m.pow(0), MonomialMatrix::identity(3, 4));
    assert_eq!(m.pow(1), m);
    assert_eq!(m.pow(3), m.compose(&m).compose(&m));
    assert_eq!(m.pow(-1), m.invert());
    assert_eq!(m.pow(-2), m.invert().compose(&m.invert()));
}

#[test]
fn test_direct_sum_and_scalar_mul() {
    let m1 = MonomialMatrix::new(vec![1, 0], vec![1, 2], 4);
    let m2 = MonomialMatrix::new(vec![0], vec![3], 4);
    let sum = m1.direct_sum(&m2);
    assert_eq!(sum.dim(), 3);
    assert_eq!(sum.perm, vec![1, 0, 2]);
    assert_eq!(sum.vals, vec![1, 2, 3]);

    let scaled = m1.scalar_mul(2);
    assert_eq!(scaled.vals, vec![3, 0]);
}

#[test]
fn test_from_perm() {
    let perm = [2, 0, 1];
    let m = MonomialMatrix::from_perm(&perm, 7);
    assert_eq!(m.dim(), 3);
    assert_eq!(m.vals, vec![0, 0, 0]);
    assert_eq!(m.perm, vec![2, 0, 1]);
}

#[test]
fn monomial_new_reduces_phases_and_powers_add() {
    let m = MonomialMatrix::new(vec![1, 0], vec![7, 9], 4);
    assert_eq!(m.vals, vec![3, 1]);
    assert_eq!(m.pow(5), m.pow(2).compose(&m.pow(3)));
    assert_eq!(m.pow(-3).compose(&m.pow(3)), MonomialMatrix::identity(2, 4));
}
