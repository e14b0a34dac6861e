use pcgroup::util::{composition_series, ModularMatrix, ModularSubspace};

#[test]
fn test_matrix_rref_nullspace() {
    let mut m = ModularMatrix::from_data(vec![vec![1, 2], vec![2, 1]], 3);
    let (pivots, rank) = m.rref();
    assert_eq!(pivots, vec![0]);
    assert_eq!(rank, 1);

    let ns = ModularMatrix::from_data(vec![vec![1, 2], vec![2, 1]], 3).nullspace();
    assert_eq!(ns.len(), 1);
    assert_eq!(ns[0], vec![1, 1]);
}

#[test]
fn test_subspace_add() {
    let mut sub = ModularSubspace::zero(3, 2);
    assert!(sub.add_vector(vec![0, 1, 1]));
    assert!(sub.add_vector(vec![1, 1, 0]));
    assert!(!sub.add_vector(vec![1, 0, 1]));
    assert_eq!(sub.dim(), 2);
    assert_eq!(sub.basis, vec![vec![1, 0, 1], vec![0, 1, 1]]);
}

#[test]
fn modular_matrix_arithmetic() {
    let a = ModularMatrix::from_data(vec![vec![1, 2], vec![3, 4]], 5);
    let b = ModularMatrix::from_data(vec![vec![4, 4], vec![1, 0]], 5);
    assert_eq!(a.add(&b).data, vec![vec![0, 1], vec![4, 4]]);
    assert_eq!(a.sub(&b).data, vec![vec![2, 3], vec![2, 4]]);
    assert_eq!(a.mul(&b).data, vec![vec![1, 4], vec![1, 2]]);
    assert_eq!(a.scalar_mul(7).data, vec![vec![2, 4], vec![1, 3]]);
    assert_eq!(a.mul_vec(&[1, 6]), vec![3, 2]);
    assert_eq!(ModularMatrix::identity(2, 5).data, vec![vec![1, 0], vec![0, 1]]);
    assert_eq!(ModularMatrix::zeros(1, 3, 5).data, vec![vec![0, 0, 0]]);
    let c = ModularMatrix::from_columns(&[vec![6, 7], vec![1]], 5);
    assert_eq!(c.data, vec![vec![1, 1], vec![2, 0]]);
    assert_eq!(ModularMatrix::from_data(vec![vec![7, 9]], 5).data, vec![vec![2, 4]]);
    assert_eq!(ModularMatrix::standard_basis(2), vec![vec![1, 0], vec![0, 1]]);
}

#[test]
fn modular_matrix_rref_full_rank_and_zero() {
    let mut m = ModularMatrix::from_data(vec![vec![0, 2, 1], vec![1, 1, 0], vec![1, 0, 0]], 3);
    let (pivots, rank) = m.rref();
    assert_eq!(pivots, vec![0, 1, 2]);
    assert_eq!(rank, 3);
    assert_eq!(m.data, vec![vec![1, 0, 0], vec![0, 1, 0], vec![0, 0, 1]]);
    assert!(m.nullspace().is_empty());
    let z = ModularMatrix::zeros(2, 2, 3);
    assert_eq!(z.nullspace(), vec![vec![1, 0], vec![0, 1]]);
}

#[test]
fn modular_composition_series_examples() {
    // identity action on F_2^2: the chain is refined to dimensions 0, 1, 2
    let id = ModularMatrix::identity(2, 2);
    let chain = composition_series(&[id], 2, 2);
    let dims: Vec<usize> = chain.iter().map(|s| s.dim()).collect();
    assert_eq!(dims, vec![0, 1, 2]);
    // rotation of order 3 on F_2^2 is irreducible
    let rot = ModularMatrix::from_data(vec![vec![0, 1], vec![1, 1]], 2);
    let chain = composition_series(&[rot], 2, 2);
    let dims: Vec<usize> = chain.iter().map(|s| s.dim()).collect();
    assert_eq!(dims, vec![0, 2]);
    assert_eq!(composition_series(&[], 3, 0).len(), 1);
}

#[test]
fn modular_nullspace_vectors_solve_the_system() {
    let m = ModularMatrix::from_data(vec![vec![1, 2, 3, 4], vec![2, 4, 1, 0], vec![3, 6, 4, 4]], 5);
    let ns = m.nullspace();
    assert_eq!(ns.len(), 2);
    for v in &ns {
        assert_eq!(m.mul_vec(v), vec![0, 0, 0]);
    }
    let mut r = m.clone();
    let (pivots, rank) = r.rref();
    assert_eq!(pivots, vec![0, 3]);
    assert_eq!(rank, 2);
    for v in &ns {
        assert_eq!(r.mul_vec(v), vec![0, 0, 0]);
    }
}
