use pcgroup::zoo::{abelian, cyclic, dihedral, quaternion};
use pcgroup::{
    chief_series, is_supersolvable,
    commutator_subgroup, is_abelian, is_abelian_subgroup, is_nilpotent, is_nilpotent_subgroup,
    lower_central_series, nilpotency_class, nilpotency_class_subgroup, Element, GeneratingSequence,
    Presentation,
};

fn generators(pres: &Presentation) -> Vec<Element<'_>> {
    (0..pres.num_gens())
        .map(|i| Element::from_generator(i, 1, pres))
        .collect()
}

#[test]
fn test_trivial_group_properties() {
    let pres = cyclic(1);
    let triv = GeneratingSequence::trivial(&pres);
    let gens = vec![];

    assert!(is_abelian_subgroup(&triv, &gens));
    assert!(is_nilpotent_subgroup(&triv, &gens));
    assert_eq!(nilpotency_class_subgroup(&triv, &gens), Some(0));

    let lcs = lower_central_series(&triv, &gens);
    assert_eq!(lcs.len(), 1);
    assert!(lcs[0].is_trivial());
}

#[test]
fn test_cyclic_and_abelian_series() {
    let pres = cyclic(12);
    let full = GeneratingSequence::full_group(&pres);
    let gens = generators(&pres);

    assert!(is_abelian_subgroup(&full, &gens));
    assert_eq!(nilpotency_class_subgroup(&full, &gens), Some(1));

    let lcs = lower_central_series(&full, &gens);
    assert_eq!(lcs.len(), 2);
    assert_eq!(lcs[0].order(), 12);
    assert_eq!(lcs[1].order(), 1);

    let v4 = abelian(&[2, 2]);
    let full_v4 = GeneratingSequence::full_group(&v4);
    let v4_gens = generators(&v4);
    assert!(is_abelian_subgroup(&full_v4, &v4_gens));
    assert_eq!(nilpotency_class_subgroup(&full_v4, &v4_gens), Some(1));
}

#[test]
fn test_dihedral_series_and_nilpotency() {
    let d8 = dihedral(4);
    let full_d8 = GeneratingSequence::full_group(&d8);
    let d8_gens = generators(&d8);

    assert!(!is_abelian_subgroup(&full_d8, &d8_gens));
    assert!(is_nilpotent_subgroup(&full_d8, &d8_gens));
    assert_eq!(nilpotency_class_subgroup(&full_d8, &d8_gens), Some(2));

    let lcs_d8 = lower_central_series(&full_d8, &d8_gens);
    assert_eq!(lcs_d8.len(), 3);
    assert_eq!(lcs_d8[0].order(), 8);
    assert_eq!(lcs_d8[1].order(), 2);
    assert_eq!(lcs_d8[2].order(), 1);

    let s3 = dihedral(3);
    let full_s3 = GeneratingSequence::full_group(&s3);
    let s3_gens = generators(&s3);

    assert!(!is_abelian_subgroup(&full_s3, &s3_gens));
    assert!(!is_nilpotent_subgroup(&full_s3, &s3_gens));
    assert_eq!(nilpotency_class_subgroup(&full_s3, &s3_gens), None);

    let lcs_s3 = lower_central_series(&full_s3, &s3_gens);
    assert_eq!(lcs_s3.len(), 2);
    assert_eq!(lcs_s3[0].order(), 6);
    assert_eq!(lcs_s3[1].order(), 3);
}

#[test]
fn test_quaternion_series_and_nilpotency() {
    let q8 = quaternion(2);
    let full_q8 = GeneratingSequence::full_group(&q8);
    let q8_gens = generators(&q8);

    assert!(!is_abelian_subgroup(&full_q8, &q8_gens));
    assert!(is_nilpotent_subgroup(&full_q8, &q8_gens));
    assert_eq!(nilpotency_class_subgroup(&full_q8, &q8_gens), Some(2));

    let lcs_q8 = lower_central_series(&full_q8, &q8_gens);
    assert_eq!(lcs_q8.len(), 3);
    assert_eq!(lcs_q8[0].order(), 8);
    assert_eq!(lcs_q8[1].order(), 2);
    assert_eq!(lcs_q8[2].order(), 1);

    let q12 = quaternion(3);
    let full_q12 = GeneratingSequence::full_group(&q12);
    let q12_gens = generators(&q12);

    assert!(!is_abelian_subgroup(&full_q12, &q12_gens));
    assert!(!is_nilpotent_subgroup(&full_q12, &q12_gens));
    assert_eq!(nilpotency_class_subgroup(&full_q12, &q12_gens), None);
}

#[test]
fn series_whole_group_predicates() {
    assert!(is_abelian(&cyclic(12)));
    assert!(!is_abelian(&dihedral(3)));
    assert_eq!(nilpotency_class(&cyclic(1)), Some(0));
    assert_eq!(nilpotency_class(&cyclic(6)), Some(1));
    assert_eq!(nilpotency_class(&dihedral(4)), Some(2));
    assert_eq!(nilpotency_class(&dihedral(8)), Some(3));
    assert_eq!(nilpotency_class(&dihedral(3)), None);
    assert!(is_nilpotent(&quaternion(2)));
    assert!(!is_nilpotent(&quaternion(3)));
}

#[test]
fn series_commutator_subgroup_d8() {
    let d8 = dihedral(4);
    let full = GeneratingSequence::full_group(&d8);
    let gens = generators(&d8);
    let derived = commutator_subgroup(&full, &full, &gens);
    assert_eq!(derived.order(), 2);
    assert!(derived.is_normal());
    let c6 = cyclic(6);
    let full_c6 = GeneratingSequence::full_group(&c6);
    let gens_c6 = generators(&c6);
    assert!(commutator_subgroup(&full_c6, &full_c6, &gens_c6).is_trivial());
}

#[test]
fn test_chief_series_d8() {
    let pres = dihedral(4);
    let chief = chief_series(&pres);

    assert_eq!(chief.len(), 4);
    assert_eq!(chief[0].order(), 8);
    assert_eq!(chief[1].order(), 4);
    assert_eq!(chief[2].order(), 2);
    assert_eq!(chief[3].order(), 1);

    for n in &chief {
        assert!(n.is_normal(), "chief series subgroup is not normal");
    }
}

#[test]
fn test_chief_series_q8() {
    let pres = quaternion(2);
    let chief = chief_series(&pres);

    assert_eq!(chief.len(), 4);
    assert_eq!(chief[0].order(), 8);
    assert_eq!(chief[1].order(), 4);
    assert_eq!(chief[2].order(), 2);
    assert_eq!(chief[3].order(), 1);

    for n in &chief {
        assert!(n.is_normal(), "chief series subgroup is not normal");
    }
}

#[test]
fn series_supersolvable_examples() {
    assert!(is_supersolvable(&cyclic(12)));
    assert!(is_supersolvable(&dihedral(4)));
    assert!(is_supersolvable(&quaternion(3)));
    assert!(is_supersolvable(&abelian(&[4, 6])));
    let orders: Vec<u128> = chief_series(&dihedral(3)).iter().map(|h| h.order()).collect();
    assert_eq!(orders, vec![6, 3, 1]);
}
