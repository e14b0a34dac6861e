use pcgroup::{Builder, Collector, Element, Term, Word};

#[test]
fn test_element_identity() {
    let pres = Builder::new(vec![2, 3]).unwrap().build();
    let id = Element::identity(&pres);

    assert!(id.is_identity());
    assert!(id.is_empty());
    assert_eq!(id.len(), 0);
    assert_eq!(id.to_string(), "1");
    assert_eq!(id.leading_term(), None);
    assert_eq!(id.leading_generator(), None);
    assert_eq!(id.leading_exponent(), None);
}

#[test]
fn test_element_multiplication_and_powers() {
    let pres = Builder::new(vec![2, 3])
        .unwrap()
        .add_commutator(1, 0, Word::from_term(1, 1))
        .unwrap()
        .build();

    let g0 = Element::from_generator(0, 1, &pres);
    let g1 = Element::from_generator(1, 1, &pres);

    // In S_3: g1 * g0 = g0 * g1^2
    let prod = &g1 * &g0;
    assert_eq!(prod.to_string(), "g0 g1^2");

    // g0^2 = 1
    assert_eq!(g0.pow(2), Element::identity(&pres));
    assert_eq!(&g0 * &g0, Element::identity(&pres));

    // g1^3 = 1
    assert_eq!(g1.pow(3), Element::identity(&pres));

    // Associativity: (g1 * g0) * g1 == g1 * (g0 * g1)
    let left = (&g1 * &g0) * &g1;
    let right = &g1 * (&g0 * &g1);
    assert_eq!(left, right);
}

#[test]
fn test_element_inverses_s3() {
    let pres = Builder::new(vec![2, 3])
        .unwrap()
        .add_commutator(1, 0, Word::from_term(1, 1))
        .unwrap()
        .build();

    let id = Element::identity(&pres);
    assert_eq!(id.inverse(), id);

    let g0 = Element::from_generator(0, 1, &pres);
    let g1 = Element::from_generator(1, 1, &pres);

    // g0^-1 = g0 (order 2)
    assert_eq!(g0.inverse(), g0);

    // g1^-1 = g1^2 (order 3)
    let g1_inv = g1.inverse();
    assert_eq!(g1_inv.to_string(), "g1^2");
    assert_eq!(&g1 * &g1_inv, id);
    assert_eq!(&g1_inv * &g1, id);

    // (g0 * g1)^-1
    let elem = &g0 * &g1;
    let elem_inv = elem.inverse();
    assert_eq!(&elem * &elem_inv, id);
    assert_eq!(&elem_inv * &elem, id);
}

#[test]
fn test_element_inverses_c4() {
    // C_4: < g0, g1 | g0^2 = g1, g1^2 = 1, [g1, g0] = 1 >
    let pres = Builder::new(vec![2, 2])
        .unwrap()
        .add_power(0, Word::from_term(1, 1))
        .unwrap()
        .build();

    let id = Element::identity(&pres);
    let g0 = Element::from_generator(0, 1, &pres);

    // In C_4, generator g0 has order 4; g0^-1 = g0^3 = g0 * g1
    let g0_inv = g0.inverse();
    assert_eq!(g0_inv.to_string(), "g0 g1");
    assert_eq!(&g0 * &g0_inv, id);
    assert_eq!(&g0_inv * &g0, id);
}

#[test]
fn element_identity_is_a_unit_and_small_powers() {
    let pres = Builder::new(vec![2, 3])
        .unwrap()
        .add_commutator(1, 0, Word::from_term(1, 1))
        .unwrap()
        .build();
    let id = Element::identity(&pres);
    let x = &Element::from_generator(0, 1, &pres) * &Element::from_generator(1, 2, &pres);
    assert_eq!(x.to_string(), "g0 g1^2");
    assert_eq!(&id * &x, x);
    assert_eq!(&x * &id, x);
    assert_eq!(x.pow(0), id);
    assert_eq!(x.pow(1), x);
    assert_eq!(x.pow(2), &x * &x);
    assert_eq!(x * id, Element::from_generator(0, 1, &pres) * &Element::from_generator(1, 2, &pres));
}

#[test]
fn element_from_generator_reduces_exponent() {
    let pres = Builder::new(vec![5]).unwrap().build();
    let g = Element::from_generator(0, 7, &pres);
    assert_eq!(g.to_string(), "g0^2");
    assert_eq!(g.leading_exponent(), Some(2));
    assert_eq!(g.pow(5), Element::identity(&pres));
    assert_eq!(g.inverse().to_string(), "g0^3");
}

#[test]
fn product_in_turn_collects_the_whole_word() {
    // dihedral group of order 8: g0^2 = g2, g1^2 = 1, g2^2 = 1, [g1, g0] = g2
    let pres = Builder::new(vec![2, 2, 2])
        .unwrap()
        .add_power(0, Word::from_term(2, 1))
        .unwrap()
        .add_commutator(1, 0, Word::from_term(2, 1))
        .unwrap()
        .build();
    let x = Element::from_generator(1, 1, &pres);
    let y = Element::from_generator(0, 1, &pres);
    let z = Element::new(Word::from(vec![Term::new(0, 1), Term::new(1, 1)]), &pres);
    let left = x.product(&y).product(&z);

    let mut collector = Collector::new(&pres);
    for w in [x.word(), y.word(), z.word()] {
        for t in w.terms.iter() {
            collector.collect_term(*t);
        }
    }
    assert_eq!(left.word(), &collector.into_word());
    assert_eq!(left.word(), &Word::from_term(2, 1));
}
