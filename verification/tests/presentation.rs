use pcgroup::{Presentation, Word};

#[test]
fn test_presentation_display() {
    let empty_pres = Presentation::new(Vec::new(), Vec::new(), Vec::new());
    assert_eq!(empty_pres.to_string(), "< >");

    let rel_orders = vec![2, 3];
    let powers = vec![Word::identity(), Word::from_term(0, 1)];
    let commutators = vec![Word::from_term(1, 2)]; // [g1, g0]

    let pres = Presentation::new(rel_orders, powers, commutators);
    assert_eq!(
        pres.to_string(),
        "< g0, g1 | g0^2 = 1, g1^3 = g0, [g1, g0] = g1^2 >"
    );
}

#[test]
fn test_num_commutators() {
    assert_eq!(Presentation::num_commutators(0), 0);
    assert_eq!(Presentation::num_commutators(1), 0);
    assert_eq!(Presentation::num_commutators(2), 1);
    assert_eq!(Presentation::num_commutators(3), 3);
    assert_eq!(Presentation::num_commutators(4), 6);
    assert_eq!(Presentation::num_commutators(5), 10);
}

#[test]
fn test_commutator_indexing() {
    assert_eq!(Presentation::commutator_index(1, 0), 0);
    assert_eq!(Presentation::commutator_index(2, 0), 1);
    assert_eq!(Presentation::commutator_index(2, 1), 2);
    assert_eq!(Presentation::commutator_index(3, 0), 3);
    assert_eq!(Presentation::commutator_index(3, 1), 4);
    assert_eq!(Presentation::commutator_index(3, 2), 5);
}

#[test]
fn test_empty_presentation() {
    let pres = Presentation::new(Vec::new(), Vec::new(), Vec::new());
    assert_eq!(pres.num_gens(), 0);
    assert_eq!(pres.order(), 1);
    assert!(pres.relative_orders().is_empty());
    assert!(pres.powers().is_empty());
    assert!(pres.commutators().is_empty());
}

#[test]
fn test_presentation_construction_and_getters() {
    let rel_orders = vec![2, 3, 2];
    let powers = vec![Word::identity(), Word::from_term(2, 1), Word::identity()];
    let commutators = vec![
        Word::from_term(2, 1), // [g1, g0] -> index 0
        Word::identity(),      // [g2, g0] -> index 1
        Word::identity(),      // [g2, g1] -> index 2
    ];

    let pres = Presentation::new(rel_orders.clone(), powers.clone(), commutators.clone());

    assert_eq!(pres.num_gens(), 3);
    assert_eq!(pres.order(), 2 * 3 * 2);
    assert_eq!(pres.relative_orders(), &[2, 3, 2]);
    assert_eq!(pres.relative_order(0), 2);
    assert_eq!(pres.relative_order(1), 3);
    assert_eq!(pres.relative_order(2), 2);

    assert_eq!(pres.powers(), &powers[..]);
    assert_eq!(pres.power(1), &Word::from_term(2, 1));

    assert_eq!(pres.commutators(), &commutators[..]);
    assert_eq!(pres.commutator(1, 0), &Word::from_term(2, 1));
    assert_eq!(pres.commutator(2, 0), &Word::identity());
    assert_eq!(pres.commutator(2, 1), &Word::identity());

    let pres_clone = pres.clone();
    assert_eq!(pres, pres_clone);
}

#[test]
fn presentation_order_is_product_of_relative_orders() {
    let pres = Presentation::new(
        vec![5, 7],
        vec![Word::identity(), Word::identity()],
        vec![Word::identity()],
    );
    assert_eq!(pres.order(), 35);
    assert_eq!(pres.to_string(), "< g0, g1 | g0^5 = 1, g1^7 = 1, [g1, g0] = 1 >");
}
