use pcgroup::zoo::{a4, abelian, affine1d, cyclic, dihedral, quaternion, s3, s4, sl2_3, unipotent, upper_triangular};
use pcgroup::{
    chief_series, commutator_subgroup, is_abelian, is_abelian_subgroup, is_nilpotent,
    is_nilpotent_subgroup, is_supersolvable, nilpotency_class, nilpotency_class_subgroup,
    irreducible_representations, verify_consistency, Element, GeneratingSequence,
};

#[test]
fn test_cyclic_groups() {
    let orders = [1, 2, 3, 4, 5, 6, 8, 12, 16, 24, 60, 97, 360];
    for &n in &orders {
        let pres = cyclic(n);
        assert_eq!(pres.order(), n as u128, "Order mismatch for cyclic group C_{n}");
        assert_eq!(verify_consistency(&pres), Ok(()));
        assert!(is_abelian(&pres), "Cyclic group C_{n} must be abelian");
        let expected_class = if n == 1 { 0 } else { 1 };
        assert_eq!(nilpotency_class(&pres), Some(expected_class));
        assert!(is_nilpotent(&pres), "Cyclic group C_{n} must be nilpotent");
        assert!(is_supersolvable(&pres), "Cyclic group C_{n} must be supersolvable");
        let irreps = irreducible_representations(&pres).expect("supersolvable");
        assert_eq!(irreps.len(), n as usize, "Irrep count mismatch for C_{n}");
        let sum_sq: usize = irreps.iter().map(|r| r.dim * r.dim).sum();
        assert_eq!(sum_sq, n as usize, "Sum of squared dimensions mismatch for C_{n}");
        for rep in &irreps {
            assert_eq!(rep.dim, 1, "All irreps of cyclic group C_{n} must be 1-dimensional");
        }
    }
}

#[test]
fn test_abelian_groups() {
    let cases: &[(&[u32], u128)] = &[
        (&[], 1),
        (&[1, 1], 1),
        (&[2, 2], 4),
        (&[2, 3], 6),
        (&[4, 6], 24),
        (&[2, 2, 2], 8),
        (&[3, 3, 3], 27),
        (&[12, 18, 30], 6480),
    ];
    for &(factors, expected_order) in cases {
        let pres = abelian(factors);
        assert_eq!(pres.order(), expected_order, "Order mismatch for {factors:?}");
        assert_eq!(verify_consistency(&pres), Ok(()));
        assert!(is_abelian(&pres));
        let expected_class = if expected_order == 1 { 0 } else { 1 };
        assert_eq!(nilpotency_class(&pres), Some(expected_class));
        assert!(is_nilpotent(&pres));
        assert!(is_supersolvable(&pres));
    }
}

#[test]
fn test_dihedral_groups() {
    let orders = [1u32, 2, 3, 4, 5, 6, 7, 8, 9, 10, 12, 16, 20, 24, 30, 60];
    for &n in &orders {
        let pres = dihedral(n);
        assert_eq!(pres.order(), (2 * n) as u128);
        assert_eq!(verify_consistency(&pres), Ok(()));

        let full = GeneratingSequence::full_group(&pres);
        let gens: Vec<_> = (0..pres.num_gens())
            .map(|i| Element::from_generator(i, 1, &pres))
            .collect();

        let is_ab = is_abelian_subgroup(&full, &gens);
        assert_eq!(is_ab, n <= 2);

        let is_pwr2 = n.is_power_of_two();
        assert_eq!(is_nilpotent_subgroup(&full, &gens), is_pwr2);

        if is_pwr2 {
            let expected_class = if n <= 2 { 1 } else { n.trailing_zeros() as usize };
            assert_eq!(nilpotency_class_subgroup(&full, &gens), Some(expected_class));
        } else {
            assert_eq!(nilpotency_class_subgroup(&full, &gens), None);
        }
    }
}

#[test]
fn test_quaternion_groups() {
    let orders = [2u32, 3, 4, 5, 6, 7, 8, 9, 10, 12, 16, 20, 24, 30];
    for &n in &orders {
        let pres = quaternion(n);
        assert_eq!(pres.order(), (4 * n) as u128);
        assert_eq!(verify_consistency(&pres), Ok(()));
        assert!(!is_abelian(&pres));
        let is_pwr2 = n.is_power_of_two();
        assert_eq!(is_nilpotent(&pres), is_pwr2);
        if is_pwr2 {
            let expected_class = (n.trailing_zeros() + 1) as usize;
            assert_eq!(nilpotency_class(&pres), Some(expected_class));
        } else {
            assert_eq!(nilpotency_class(&pres), None);
        }
        assert!(is_supersolvable(&pres));
    }
}

#[test]
fn test_affine1d_groups() {
    let cases: &[(u32, u32)] = &[
        (2, 1),
        (2, 2),
        (2, 3),
        (2, 4),
        (3, 1),
        (3, 2),
        (3, 3),
        (5, 1),
        (5, 2),
        (7, 1),
        (11, 1),
        (17, 1),
    ];
    for &(p, r) in cases {
        let q = (p as u128).pow(r);
        let expected_order = q * (q - 1);
        let pres = affine1d(p, r);
        assert_eq!(pres.order(), expected_order, "Order mismatch for AGL(1, {p}^{r})");
        assert_eq!(verify_consistency(&pres), Ok(()));
        assert_eq!(is_abelian(&pres), q == 2);
        assert_eq!(is_nilpotent(&pres), q == 2);
        let expected_class = if q == 2 { Some(1) } else { None };
        assert_eq!(nilpotency_class(&pres), expected_class);
        assert_eq!(is_supersolvable(&pres), r == 1);
        if r == 1 {
            let irreps = irreducible_representations(&pres).expect("supersolvable");
            let count_1d = irreps.iter().filter(|rep| rep.dim == 1).count();
            let expected_1d = if p == 2 { 2 } else { (p - 1) as usize };
            assert_eq!(count_1d, expected_1d, "1D irrep count mismatch for AGL(1, {p})");
            if p > 2 {
                let count_high_d = irreps.iter().filter(|rep| rep.dim == (p - 1) as usize).count();
                assert_eq!(count_high_d, 1, "High-dimensional irrep count mismatch for AGL(1, {p})");
            }
            assert_eq!(irreps.len(), if p == 2 { 2 } else { p as usize }, "Total irrep count mismatch for AGL(1, {p})");
            let sum_sq: usize = irreps.iter().map(|rep| rep.dim * rep.dim).sum();
            assert_eq!(sum_sq, (p * (p - 1)) as usize, "Sum of squared dimensions mismatch for AGL(1, {p})");
        }
    }
}

#[test]
fn zoo_affine1d_presentations() {
    assert_eq!(affine1d(2, 1).order(), 2);
    let s3 = affine1d(3, 1);
    assert_eq!(s3.to_string(), "< g0, g1 | g0^2 = 1, g1^3 = 1, [g1, g0] = g1 >");
    let a = affine1d(2, 2);
    assert_eq!(a.order(), 12);
    assert_eq!(a.to_string(), a4().to_string());
}

#[test]
fn test_outliers_consistency_and_orders() {
    for (pres, expected_order, expected_gens) in
        [(s3(), 6, 2), (a4(), 12, 3), (s4(), 24, 4), (sl2_3(), 24, 4)]
    {
        assert_eq!(pres.order(), expected_order);
        assert_eq!(pres.num_gens(), expected_gens);
        assert_eq!(verify_consistency(&pres), Ok(()));
        assert!(!is_abelian(&pres));
        assert!(!is_nilpotent(&pres));
    }
}

#[test]
fn test_supersolvability_and_chief_series() {
    assert!(is_supersolvable(&s3()));
    let cs_s3: Vec<u128> = chief_series(&s3()).iter().map(|h| h.order()).collect();
    assert_eq!(cs_s3, vec![6, 3, 1]);

    assert!(!is_supersolvable(&a4()));
    let cs_a4: Vec<u128> = chief_series(&a4()).iter().map(|h| h.order()).collect();
    assert_eq!(cs_a4, vec![12, 4, 1]);

    assert!(!is_supersolvable(&s4()));
    let cs_s4: Vec<u128> = chief_series(&s4()).iter().map(|h| h.order()).collect();
    assert_eq!(cs_s4, vec![24, 12, 4, 1]);

    assert!(!is_supersolvable(&sl2_3()));
    let cs_sl2_3: Vec<u128> = chief_series(&sl2_3()).iter().map(|h| h.order()).collect();
    assert_eq!(cs_sl2_3, vec![24, 8, 2, 1]);
}

#[test]
fn test_derived_subgroups() {
    let s3_pres = s3();
    let full_s3 = GeneratingSequence::full_group(&s3_pres);
    let s3_gens = full_s3.elements();
    assert_eq!(commutator_subgroup(&full_s3, &full_s3, s3_gens).order(), 3);

    let a4_pres = a4();
    let full_a4 = GeneratingSequence::full_group(&a4_pres);
    let a4_gens = full_a4.elements();
    assert_eq!(commutator_subgroup(&full_a4, &full_a4, a4_gens).order(), 4);

    let s4_pres = s4();
    let full_s4 = GeneratingSequence::full_group(&s4_pres);
    let s4_gens = full_s4.elements();
    assert_eq!(commutator_subgroup(&full_s4, &full_s4, s4_gens).order(), 12);

    let sl_pres = sl2_3();
    let full_sl = GeneratingSequence::full_group(&sl_pres);
    let sl_gens = full_sl.elements();
    assert_eq!(commutator_subgroup(&full_sl, &full_sl, sl_gens).order(), 8);
}

#[test]
fn test_unipotent_groups() {
    let cases: &[(usize, u32, u32)] = &[
        (1, 2, 1),
        (1, 3, 1),
        (1, 2, 2),
        (1, 5, 1),
        (2, 2, 1),
        (2, 2, 2),
        (2, 2, 3),
        (2, 3, 1),
        (2, 3, 2),
        (2, 5, 1),
        (2, 7, 1),
        (3, 2, 1),
        (3, 2, 2),
        (3, 3, 1),
        (3, 3, 2),
        (3, 5, 1),
        (3, 7, 1),
        (4, 2, 1),
        (4, 2, 2),
        (4, 3, 1),
        (5, 2, 1),
    ];
    for &(n, p, r) in cases {
        let q = (p as u128).pow(r);
        let num_pairs = (n * (n - 1) / 2) as u32;
        let expected_order = q.pow(num_pairs);
        let pres = unipotent(n, p, r);
        assert_eq!(pres.order(), expected_order, "Order mismatch for U({n}, {p}^{r}) = U({n}, {q})");
        assert_eq!(verify_consistency(&pres), Ok(()), "Consistency check failed for U({n}, {p}^{r})");
        assert_eq!(is_abelian(&pres), n <= 2, "Abelian check mismatch for U({n}, {p}^{r})");
        assert!(is_nilpotent(&pres), "Unipotent group U({n}, {p}^{r}) must be nilpotent");
        let expected_class = if n == 1 {
            0
        } else if n == 2 {
            1
        } else {
            n - 1
        };
        assert_eq!(nilpotency_class(&pres), Some(expected_class), "Nilpotency class mismatch for U({n}, {p}^{r})");
        assert!(is_supersolvable(&pres), "Unipotent group U({n}, {p}^{r}) must be supersolvable");
        if expected_order <= 300 {
            let irreps = irreducible_representations(&pres).expect("supersolvable");
            let sum_sq: usize = irreps.iter().map(|rep| rep.dim * rep.dim).sum();
            assert_eq!(sum_sq, expected_order as usize, "Sum of squared dimensions mismatch for U({n}, {p}^{r})");
        }
    }
}

#[test]
fn zoo_unipotent_presentations() {
    assert_eq!(unipotent(1, 3, 1).order(), 1);
    assert_eq!(unipotent(2, 2, 2).order(), 4);
    let u3_2 = unipotent(3, 2, 1);
    assert_eq!(u3_2.order(), 8);
    assert_eq!(
        u3_2.to_string(),
        "< g0, g1, g2 | g0^2 = 1, g1^2 = 1, g2^2 = 1, [g1, g0] = g2, [g2, g0] = 1, [g2, g1] = 1 >"
    );
    let u3_3 = unipotent(3, 3, 1);
    assert_eq!(
        u3_3.to_string(),
        "< g0, g1, g2 | g0^3 = 1, g1^3 = 1, g2^3 = 1, [g1, g0] = g2^2, [g2, g0] = 1, [g2, g1] = 1 >"
    );
}

#[test]
fn test_upper_triangular_groups() {
    let cases: &[(usize, u32, u32)] = &[
        (1, 2, 1),
        (1, 3, 1),
        (1, 2, 2),
        (1, 5, 1),
        (1, 7, 1),
        (1, 3, 2),
        (2, 2, 1),
        (2, 2, 2),
        (2, 2, 3),
        (2, 3, 1),
        (2, 3, 2),
        (2, 5, 1),
        (2, 7, 1),
        (3, 2, 1),
        (3, 2, 2),
        (3, 3, 1),
        (3, 5, 1),
        (4, 2, 1),
        (4, 3, 1),
    ];
    for &(n, p, r) in cases {
        let q = (p as u128).pow(r);
        let num_pairs = (n * (n - 1) / 2) as u32;
        let expected_order = (q - 1).pow(n as u32) * q.pow(num_pairs);
        let pres = upper_triangular(n, p, r);
        assert_eq!(pres.order(), expected_order, "Order mismatch for B({n}, {p}^{r}) = B({n}, {q})");
        assert_eq!(verify_consistency(&pres), Ok(()), "Consistency check failed for B({n}, {p}^{r})");
        let is_ab = is_abelian(&pres);
        let expected_ab = n == 1 || (n == 2 && q == 2);
        assert_eq!(is_ab, expected_ab, "Abelian check mismatch for B({n}, {p}^{r})");
        let is_nil = is_nilpotent(&pres);
        let expected_nil = n == 1 || q == 2;
        assert_eq!(is_nil, expected_nil, "Nilpotency check mismatch for B({n}, {p}^{r})");
        if expected_nil {
            let expected_class = if expected_order == 1 {
                0
            } else if is_ab {
                1
            } else {
                n - 1
            };
            assert_eq!(nilpotency_class(&pres), Some(expected_class), "Nilpotency class mismatch for B({n}, {p}^{r})");
        } else {
            assert_eq!(nilpotency_class(&pres), None, "Non-nilpotent B({n}, {p}^{r}) must return None for nilpotency_class");
        }
        let expected_ss = n == 1 || r == 1;
        assert_eq!(is_supersolvable(&pres), expected_ss, "Supersolvability check mismatch for B({n}, {p}^{r}): n={n}, r={r}");
        if expected_ss && expected_order <= 300 {
            let irreps = irreducible_representations(&pres).expect("supersolvable");
            let sum_sq: usize = irreps.iter().map(|rep| rep.dim * rep.dim).sum();
            assert_eq!(sum_sq, expected_order as usize, "Sum of squared dimensions mismatch for B({n}, {p}^{r})");
        }
    }
}

#[test]
fn zoo_upper_triangular_presentations() {
    assert_eq!(upper_triangular(1, 3, 1).order(), 2);
    assert_eq!(upper_triangular(2, 2, 1).order(), 2);
    let b2_3 = upper_triangular(2, 3, 1);
    assert_eq!(b2_3.order(), 12);
    assert_eq!(
        b2_3.to_string(),
        "< g0, g1, g2 | g0^2 = 1, g1^2 = 1, g2^3 = 1, [g1, g0] = 1, [g2, g0] = g2, [g2, g1] = g2 >"
    );
}

#[test]
fn test_s3_irreps() {
    let irreps = irreducible_representations(&s3()).expect("s3 is supersolvable");
    let sum_sq: usize = irreps.iter().map(|r| r.dim * r.dim).sum();
    assert_eq!(sum_sq, 6);
    assert_eq!(irreps.iter().filter(|r| r.dim == 1).count(), 2);
    assert_eq!(irreps.iter().filter(|r| r.dim == 2).count(), 1);
}
