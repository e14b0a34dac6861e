use pcgroup::zoo::{cyclic, dihedral, quaternion};
use pcgroup::{Element, GeneratingSequence};

#[test]
fn test_trivial_and_full_group() {
    let pres = cyclic(6);
    let trivial = GeneratingSequence::trivial(&pres);
    assert!(trivial.is_trivial());
    assert_eq!(trivial.len(), 0);
    assert_eq!(trivial.order(), 1);
    assert_eq!(trivial.index(), 6);
    assert_eq!(trivial.to_string(), "< 1 >");

    let full = GeneratingSequence::full_group(&pres);
    assert!(!full.is_trivial());
    assert_eq!(full.len(), 2);
    assert_eq!(full.order(), 6);
    assert_eq!(full.index(), 1);
}

#[test]
fn test_sift_and_normalization() {
    let pres = cyclic(5);
    let mut seq = GeneratingSequence::trivial(&pres);

    // Insert g0^2 in C_5: normalizes to g0 since 2^-1 = 3 mod 5 and (g0^2)^3 = g0
    let elem2 = Element::from_generator(0, 2, &pres);
    assert!(seq.insert(elem2));
    assert_eq!(seq.len(), 1);
    assert_eq!(seq.elements()[0].to_string(), "g0");
    assert_eq!(seq.order(), 5);

    let elem4 = Element::from_generator(0, 4, &pres);
    assert!(seq.sift(elem4).is_identity());
    assert!(seq.contains(&Element::from_generator(0, 3, &pres)));
}

#[test]
fn test_subgroup_closure_dihedral() {
    let pres = dihedral(4);
    let s = Element::from_generator(0, 1, &pres);
    let r = Element::from_generator(1, 1, &pres);

    let sub_s = GeneratingSequence::from_generators(&pres, &[s.clone()]);
    assert_eq!(sub_s.order(), 2);
    assert_eq!(sub_s.index(), 4);
    assert!(sub_s.contains(&s));
    assert!(!sub_s.contains(&r));

    let sub_r = GeneratingSequence::from_generators(&pres, &[r.clone()]);
    assert_eq!(sub_r.order(), 4);
    assert_eq!(sub_r.index(), 2);
    assert!(sub_r.contains(&r));
    assert!(!sub_r.contains(&s));

    let sub_full = GeneratingSequence::from_generators(&pres, &[r.clone(), s.clone()]);
    assert_eq!(sub_full.order(), 8);
    assert_eq!(sub_full.index(), 1);
}

#[test]
fn test_subgroup_closure_quaternion() {
    let pres = quaternion(2);
    let y_elem = Element::from_generator(0, 1, &pres);
    let x_elem = Element::from_generator(1, 1, &pres);

    let sub_x = GeneratingSequence::from_generators(&pres, &[x_elem.clone()]);
    assert_eq!(sub_x.order(), 4);
    assert_eq!(sub_x.index(), 2);
    assert!(sub_x.contains(&x_elem));
    assert!(sub_x.contains(&x_elem.pow(2)));
    assert!(!sub_x.contains(&y_elem));

    let sub_q8 = GeneratingSequence::from_generators(&pres, &[x_elem, y_elem]);
    assert_eq!(sub_q8.order(), 8);
    assert_eq!(sub_q8.index(), 1);
}

#[test]
fn test_canonicalize_and_equality() {
    let pres = cyclic(6);
    let g0 = Element::from_generator(0, 1, &pres);
    let g1 = Element::from_generator(1, 1, &pres);

    let seq1 = GeneratingSequence::from_generators(&pres, &[&g0 * &g1, g1.clone()]);
    let seq2 = GeneratingSequence::full_group(&pres);
    assert_eq!(seq1, seq2);
}

#[test]
fn test_express_in_basis() {
    let pres = dihedral(4);
    let s = Element::from_generator(0, 1, &pres);
    let r = Element::from_generator(1, 1, &pres);
    let full = GeneratingSequence::full_group(&pres);

    let elem = &s * &r;
    let word = full.express_in_basis(elem.clone()).unwrap();
    assert_eq!(word, elem.word);

    let sub_s = GeneratingSequence::from_generators(&pres, &[s.clone()]);
    assert_eq!(sub_s.express_in_basis(s).unwrap().to_string(), "g0");
    assert!(sub_s.express_in_basis(r).is_none());
}

#[test]
fn generating_sequence_canonical_form_is_reduced() {
    // In C_4 = < g0, g1 | g0^2 = g1 >, inserting g0 g1 then g1 reduces g0 g1 to g0.
    let pres = cyclic(4);
    let g0 = Element::from_generator(0, 1, &pres);
    let g1 = Element::from_generator(1, 1, &pres);
    let mut seq = GeneratingSequence::trivial(&pres);
    assert!(seq.insert(&g0 * &g1));
    assert!(seq.insert(g1.clone()));
    assert!(!seq.insert(g1.clone()));
    assert_eq!(seq.to_string(), "< g0 g1, g1 >");
    seq.canonicalize();
    assert_eq!(seq.to_string(), "< g0, g1 >");
    assert_eq!(seq.order(), 4);
    assert_eq!(seq.presentation().order(), 4);
}
