use pcgroup::zoo::{cyclic, dihedral, quaternion};
use pcgroup::{
    chief_series, group_exponent, irreducible_representations, BaumClausenError, BaumClausenStage, Element,
    Presentation, Representation,
};

#[test]
fn baum_clausen_test_error_display() {
    let err = BaumClausenError::MissingMatrix { generator: 1, representation_id: 3 };
    assert_eq!(err.to_string(), "Missing matrix for generator g1 in representation 3.");
}

#[test]
fn test_trivial_stage() {
    let pres = cyclic(6);
    let stage = BaumClausenStage::trivial(&pres, 6);
    assert_eq!(stage.level, 0);
    assert_eq!(stage.representations.len(), 1);
    assert_eq!(stage.representations[0].dim, 1);
    assert_eq!(stage.higher_generators, vec![0, 1]);
}

fn verify_representation_homomorphism(pres: &Presentation, rep: &Representation) {
    for i in 0..pres.num_gens() {
        let p_i = pres.relative_order(i);
        let d_gi_p = rep.matrices[i].pow(p_i as i64);
        let d_power_word = rep.evaluate(pres.power(i));
        assert_eq!(d_gi_p, d_power_word, "Power relation failed for generator g{i} in representation ID {}", rep.id);
    }
    for i in 1..pres.num_gens() {
        for j in 0..i {
            let gi = &rep.matrices[i];
            let gj = &rep.matrices[j];
            let comm_matrix = gi.invert().compose(&gj.invert()).compose(gi).compose(gj);
            let d_comm_word = rep.evaluate(pres.commutator(i, j));
            assert_eq!(comm_matrix, d_comm_word, "Commutator relation failed for [g{i}, g{j}] in representation ID {}", rep.id);
        }
    }
}

#[test]
fn test_s3_irreps_homomorphisms() {
    let pres = dihedral(3);
    let irreps = irreducible_representations(&pres).expect("succeeds for S_3");
    assert_eq!(irreps.len(), 3);
    let dims: Vec<usize> = irreps.iter().map(|r| r.dim).collect();
    assert_eq!(dims, vec![1, 1, 2]);
    for rep in &irreps {
        verify_representation_homomorphism(&pres, rep);
    }
}

#[test]
fn test_q8_irreps_homomorphisms() {
    let pres = quaternion(2);
    let irreps = irreducible_representations(&pres).expect("succeeds for Q_8");
    assert_eq!(irreps.len(), 5);
    let dims: Vec<usize> = irreps.iter().map(|r| r.dim).collect();
    assert_eq!(dims, vec![1, 1, 1, 1, 2]);
    for rep in &irreps {
        verify_representation_homomorphism(&pres, rep);
    }
}

#[test]
fn test_d8_irreps_homomorphisms() {
    let pres = dihedral(4);
    let irreps = irreducible_representations(&pres).expect("succeeds for D_8");
    assert_eq!(irreps.len(), 5);
    let dims: Vec<usize> = irreps.iter().map(|r| r.dim).collect();
    assert_eq!(dims, vec![1, 1, 1, 1, 2]);
    for rep in &irreps {
        verify_representation_homomorphism(&pres, rep);
    }
}

#[test]
fn baum_clausen_stage_walk_s3() {
    let s3 = dihedral(3);
    let chief = chief_series(&s3);
    let mut stage = BaumClausenStage::trivial(&s3, 6);
    assert_eq!(stage.level, 0);
    assert_eq!(stage.representations.len(), 1);
    for next_subgroup in chief.iter().rev().skip(1) {
        stage = stage.next(next_subgroup).unwrap();
    }
    assert_eq!(stage.level, 2);
    assert_eq!(stage.representations.len(), 3);
    assert!(stage.higher_generators.is_empty());
}

#[test]
fn baum_clausen_evaluate_element() {
    let s3 = dihedral(3);
    let irreps = irreducible_representations(&s3).unwrap();
    let rep2d = &irreps[2];
    assert_eq!(rep2d.dim, 2);
    let g0 = Element::from_generator(0, 1, &s3);
    let m_g0 = rep2d.evaluate_element(&g0);
    assert_eq!(m_g0.pow(2), rep2d.evaluate_element(&Element::identity(&s3)));
}

#[test]
fn baum_clausen_group_exponents() {
    assert_eq!(group_exponent(&cyclic(1)), 1);
    assert_eq!(group_exponent(&cyclic(6)), 6);
    assert_eq!(group_exponent(&dihedral(3)), 6);
    assert_eq!(group_exponent(&dihedral(4)), 4);
    assert_eq!(group_exponent(&quaternion(2)), 4);
    assert_eq!(group_exponent(&pcgroup::zoo::unipotent(3, 2, 1)), 4);
    assert_eq!(group_exponent(&pcgroup::zoo::abelian(&[2, 3, 4])), 12);
}

#[test]
fn baum_clausen_trivial_stage_tables() {
    let pres = cyclic(6);
    let stage = BaumClausenStage::trivial(&pres, 6);
    assert_eq!(stage.exponent, 6);
    assert_eq!(stage.representations[0].matrices, vec![pcgroup::util::MonomialMatrix::identity(1, 6); 2]);
    for g in 0..2 {
        assert_eq!(stage.tau_dict[g], vec![Some(0)]);
        assert_eq!(stage.x_dict[g], vec![Some(pcgroup::util::MonomialMatrix::identity(1, 6))]);
    }
}

#[test]
fn baum_clausen_step_s3() {
    let pres = dihedral(3);
    let chief = chief_series(&pres);
    let st0 = BaumClausenStage::trivial(&pres, 6);
    let st = st0.next(&chief[chief.len() - 2]).unwrap();
    assert_eq!(st.level, 1);
    assert_eq!(st.higher_generators, vec![0]);
    assert_eq!(st.representations.len(), 3);
    for k in 0..3 {
        let rep = &st.representations[k];
        assert_eq!(rep.id, k);
        assert_eq!(rep.dim, 1);
        assert_eq!(rep.matrices[0], pcgroup::util::MonomialMatrix::identity(1, 6));
        assert_eq!(rep.matrices[1], pcgroup::util::MonomialMatrix::new(vec![0], vec![2 * k as u32], 6));
    }
    assert_eq!(st.tau_dict[0], vec![Some(0), Some(2), Some(1)]);
}

#[test]
fn baum_clausen_not_supersolvable() {
    let s4 = pcgroup::zoo::s4();
    assert_eq!(irreducible_representations(&s4).unwrap_err(), BaumClausenError::NotSupersolvable);
    let e = BaumClausenError::NotSupersolvable;
    assert_eq!(e.to_string(), "Group is not supersolvable.");
    assert_eq!(BaumClausenError::InvalidStageTransition.to_string(), "Invalid stage transition encountered.");
    assert_eq!(
        BaumClausenError::RootExtractionFailed { shift: 1, order: 2, exponent: 4 }.to_string(),
        "Failed to extract 2-th root for shift 1 modulo 4."
    );
}
