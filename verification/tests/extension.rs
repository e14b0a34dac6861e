use pcgroup::word::Term;
use pcgroup::zoo::{abelian, cyclic, dihedral};
use pcgroup::{
    central_extension, chief_series, is_abelian, is_nilpotent, is_supersolvable, nilpotency_class,
    split_extension, verify_consistency, Builder, ExtensionError, Word,
};

#[test]
fn test_split_extension_s3() {
    let c3 = cyclic(3);
    let c2 = cyclic(2);

    // Action: q0 inverts n0 (n0 |-> n0^2)
    let action = vec![vec![Word::from_term(0, 2)]];
    let s3 = split_extension(&c3, &c2, &action).unwrap();

    assert_eq!(s3.order(), 6);
    assert_eq!(s3.num_gens(), 2);
    assert_eq!(verify_consistency(&s3), Ok(()));
    assert!(!is_abelian(&s3));
    assert!(is_supersolvable(&s3));
    assert!(!is_nilpotent(&s3));
}

#[test]
fn test_split_extension_d8() {
    let c4 = cyclic(4);
    let c2 = cyclic(2);

    // Action: q0 inverts rotation generator n0 (n0 |-> n0^3 = n0 * n1)
    // c4 has generators n0 (order 2) and n1 (order 2) where n0^2 = n1.
    // Inverting n0 gives n0^3 = n0 n1.
    // Inverting n1 = n0^2 gives (n0^3)^2 = n0^6 = n0^2 = n1.
    let action = vec![vec![
        Word::from(vec![Term::new(0, 1), Term::new(1, 1)]),
        Word::from_term(1, 1),
    ]];
    let d8 = split_extension(&c4, &c2, &action).unwrap();

    assert_eq!(d8.order(), 8);
    assert_eq!(d8.num_gens(), 3);
    assert_eq!(verify_consistency(&d8), Ok(()));
    assert!(!is_abelian(&d8));
    assert!(is_nilpotent(&d8));
    assert_eq!(nilpotency_class(&d8), Some(2));
}

#[test]
fn test_split_extension_a4() {
    let v4 = abelian(&[2, 2]);
    let c3 = cyclic(3);

    // Action of c3 (q0 of order 3) on V_4 = <n0, n1>:
    // q0 * n0 * q0^-1 = n1
    // q0 * n1 * q0^-1 = n0 * n1
    let action = vec![vec![
        Word::from_term(1, 1),
        Word::from(vec![Term::new(0, 1), Term::new(1, 1)]),
    ]];
    let a4 = split_extension(&v4, &c3, &action).unwrap();

    assert_eq!(a4.order(), 12);
    assert_eq!(a4.num_gens(), 3);
    assert_eq!(verify_consistency(&a4), Ok(()));
    assert!(!is_abelian(&a4));
    assert!(!is_nilpotent(&a4));
    assert!(!is_supersolvable(&a4));

    let chief = chief_series(&a4);
    let chief_orders: Vec<u128> = chief.iter().map(|h| h.order()).collect();
    assert_eq!(chief_orders, vec![12, 4, 1]);
}

#[test]
fn test_split_extension_frobenius_f20() {
    let c5 = cyclic(5);
    let c4 = cyclic(4);

    // In F_20 ≅ C_5 ⋊ C_4, generator q0 (order 4, represented by [q0, q1] where q0^2 = q1)
    // acts on C_5 (n0) by multiplication by 2 (automorphism of order 4):
    // q0 * n0 * q0^-1 = n0^2
    // q1 * n0 * q1^-1 = (n0^2)^2 = n0^4
    let action = vec![vec![Word::from_term(0, 2)], vec![Word::from_term(0, 4)]];
    let f20 = split_extension(&c5, &c4, &action).unwrap();

    assert_eq!(f20.order(), 20);
    assert_eq!(f20.num_gens(), 3);
    assert_eq!(verify_consistency(&f20), Ok(()));
    assert!(!is_abelian(&f20));
    assert!(!is_nilpotent(&f20));
    assert!(is_supersolvable(&f20));
}

#[test]
fn test_split_extension_invalid_action_fails_consistency() {
    let c5 = cyclic(5);
    let c2 = cyclic(2);

    // n0 |-> n0^2 has order 4 in Aut(C_5), which does not divide |C_2| = 2.
    // Therefore this action is not a valid homomorphism and fails confluence.
    let bad_action = vec![vec![Word::from_term(0, 2)]];
    let res = split_extension(&c5, &c2, &bad_action);
    assert!(matches!(res, Err(ExtensionError::Inconsistent(_))));
}

#[test]
fn test_split_extension_direct_product() {
    let c2 = cyclic(2);
    let c3 = cyclic(3);

    // Trivial action yields direct product C_2 x C_3 ≅ C_6
    let c6 = split_extension(&c2, &c3, &[]).unwrap();
    assert_eq!(c6.order(), 6);
    assert_eq!(verify_consistency(&c6), Ok(()));
    assert!(is_abelian(&c6));
    assert!(is_nilpotent(&c6));
    assert_eq!(nilpotency_class(&c6), Some(1));
}

#[test]
fn test_split_extension_non_abelian_kernel() {
    let d8 = dihedral(4);
    let c2 = cyclic(2);

    // Direct product D_8 x C_2
    let g = split_extension(&d8, &c2, &[]).unwrap();
    assert_eq!(g.order(), 16);
    assert_eq!(verify_consistency(&g), Ok(()));
    assert!(!is_abelian(&g));
    assert!(is_nilpotent(&g));
    assert_eq!(nilpotency_class(&g), Some(2));
}

#[test]
fn test_split_extension_trivial_groups() {
    let c2 = cyclic(2);
    let trivial = Builder::new(vec![]).unwrap().build();

    // 1 ⋊ C_2 ≅ C_2
    let g1 = split_extension(&trivial, &c2, &[]).unwrap();
    assert_eq!(g1.order(), 2);
    assert_eq!(verify_consistency(&g1), Ok(()));

    // C_2 ⋊ 1 ≅ C_2
    let g2 = split_extension(&c2, &trivial, &[]).unwrap();
    assert_eq!(g2.order(), 2);
    assert_eq!(verify_consistency(&g2), Ok(()));

    // 1 ⋊ 1 ≅ 1
    let g3 = split_extension(&trivial, &trivial, &[]).unwrap();
    assert_eq!(g3.order(), 1);
    assert_eq!(verify_consistency(&g3), Ok(()));
}

#[test]
fn test_central_extension_q8() {
    let c2 = cyclic(2);
    let v4 = abelian(&[2, 2]);

    let pow_tails = vec![Word::from_term(0, 1), Word::from_term(0, 1)];
    let comm_tails = vec![Word::from_term(0, 1)];

    let q8 = central_extension(&c2, &v4, &pow_tails, &comm_tails).unwrap();
    assert_eq!(q8.order(), 8);
    assert_eq!(verify_consistency(&q8), Ok(()));
    assert!(!is_abelian(&q8));
    assert!(is_nilpotent(&q8));
    assert_eq!(nilpotency_class(&q8), Some(2));
}

#[test]
fn test_repeated_central_extensions_are_nilpotent() {
    // Repeated central extensions of cyclic groups of prime order always produce nilpotent groups.
    let c2 = cyclic(2);

    // Step 1: C_2 (order 2, class 1)
    let mut current_group = c2.clone();
    assert!(is_nilpotent(&current_group));
    assert_eq!(nilpotency_class(&current_group), Some(1));

    // Step 2: Central extension of C_2 by C_2 -> C_4 (order 4, class 1)
    let pow_tails_1 = vec![Word::from_term(0, 1)];
    let g2 = central_extension(&c2, &current_group, &pow_tails_1, &[]).unwrap();
    assert_eq!(g2.order(), 4);
    assert_eq!(verify_consistency(&g2), Ok(()));
    assert!(is_nilpotent(&g2));
    current_group = g2;

    // Step 3: Central extension of C_2 by C_4 -> order 8
    let pow_tails_2 = vec![Word::from_term(0, 1), Word::identity()];
    let g3 = central_extension(&c2, &current_group, &pow_tails_2, &[]).unwrap();
    assert_eq!(g3.order(), 8);
    assert_eq!(verify_consistency(&g3), Ok(()));
    assert!(is_nilpotent(&g3));
    current_group = g3;

    // Step 4: Central extension of C_2 by G_3 -> order 16
    let pow_tails_3 = vec![Word::identity(); current_group.num_gens()];
    let g4 = central_extension(&c2, &current_group, &pow_tails_3, &[]).unwrap();
    assert_eq!(g4.order(), 16);
    assert_eq!(verify_consistency(&g4), Ok(()));
    assert!(is_nilpotent(&g4));

    // Step 5: Test with p = 3 (Heisenberg / extraspecial group of order 27)
    let c3 = cyclic(3);
    let v9 = abelian(&[3, 3]);
    let comm_tails_p3 = vec![Word::from_term(0, 1)]; // [g1, g0] = g2 (central)
    let heisenberg = central_extension(&c3, &v9, &[], &comm_tails_p3).unwrap();
    assert_eq!(heisenberg.order(), 27);
    assert_eq!(verify_consistency(&heisenberg), Ok(()));
    assert!(!is_abelian(&heisenberg));
    assert!(is_nilpotent(&heisenberg));
    assert_eq!(nilpotency_class(&heisenberg), Some(2));
}

#[test]
fn test_central_extension_non_abelian_kernel_rejected() {
    let d8 = dihedral(4);
    let c2 = cyclic(2);

    let res = central_extension(&d8, &c2, &[], &[]);
    assert_eq!(res, Err(ExtensionError::NonAbelianKernel));
}

#[test]
fn test_extension_dimension_mismatch() {
    let c2 = cyclic(2);
    let c3 = cyclic(3);

    // Split extension dimension mismatch on Q
    let action_bad_q = vec![vec![Word::identity()], vec![Word::identity()]];
    assert_eq!(
        split_extension(&c2, &c3, &action_bad_q),
        Err(ExtensionError::DimensionMismatch {
            expected: 1,
            actual: 2,
        })
    );

    // Split extension dimension mismatch on N
    let action_bad_n = vec![vec![Word::identity(), Word::identity()]];
    assert_eq!(
        split_extension(&c2, &c3, &action_bad_n),
        Err(ExtensionError::DimensionMismatch {
            expected: 1,
            actual: 2,
        })
    );

    // Central extension dimension mismatch on powers
    assert_eq!(
        central_extension(&c2, &c3, &[Word::identity(), Word::identity()], &[]),
        Err(ExtensionError::DimensionMismatch {
            expected: 1,
            actual: 2,
        })
    );

    // Central extension dimension mismatch on commutators
    assert_eq!(
        central_extension(&c2, &c3, &[], &[Word::identity()]),
        Err(ExtensionError::DimensionMismatch {
            expected: 0,
            actual: 1,
        })
    );
}

#[test]
fn test_extension_generator_out_of_bounds() {
    let c2 = cyclic(2);
    let c3 = cyclic(3);

    let bad_action = vec![vec![Word::from_term(5, 1)]];
    assert_eq!(
        split_extension(&c2, &c3, &bad_action),
        Err(ExtensionError::GeneratorOutOfBounds { index: 5, max: 0 })
    );

    let bad_tail = vec![Word::from_term(3, 1)];
    assert_eq!(
        central_extension(&c2, &c3, &bad_tail, &[]),
        Err(ExtensionError::GeneratorOutOfBounds { index: 3, max: 0 })
    );
}

#[test]
fn extension_test_error_display() {
    assert_eq!(
        ExtensionError::NonAbelianKernel.to_string(),
        "Central extension requires an abelian kernel group N"
    );
    assert_eq!(
        ExtensionError::DimensionMismatch {
            expected: 2,
            actual: 3
        }
        .to_string(),
        "Dimension mismatch: expected 2 elements, got 3"
    );
    assert_eq!(
        ExtensionError::GeneratorOutOfBounds { index: 4, max: 2 }.to_string(),
        "Generator index 4 is out of bounds (maximum valid index is 2)"
    );
}

#[test]
fn extension_words_outside_normal_form() {
    let c3 = cyclic(3);
    let c2 = cyclic(2);
    // n0 |-> n0 n0, which is n0^2 in normal form
    let action = vec![vec![Word::new(vec![Term::new(0, 1), Term::new(0, 1)])]];
    let s3 = split_extension(&c3, &c2, &action).unwrap();
    let expected = split_extension(&c3, &c2, &vec![vec![Word::from_term(0, 2)]]).unwrap();
    assert_eq!(s3.to_string(), expected.to_string());
    assert_eq!(s3.order(), 6);

    let c2n = cyclic(2);
    let v4 = abelian(&[2, 2]);
    // g0^3 is g0 in C_2
    let pow_tails = vec![Word::from_term(0, 3), Word::from_term(0, 1)];
    let comm_tails = vec![Word::new(vec![Term::new(0, 1), Term::new(0, 2)])];
    let q8 = central_extension(&c2n, &v4, &pow_tails, &comm_tails).unwrap();
    assert_eq!(q8.order(), 8);
    assert_eq!(verify_consistency(&q8), Ok(()));
    assert!(!is_abelian(&q8));
}
