use pcgroup::{Builder, BuilderError, Word};

#[test]
fn test_builder_s3() {
    let pres = Builder::new(vec![2, 3])
        .unwrap()
        .add_commutator(1, 0, Word::from_term(1, 1))
        .unwrap()
        .build();

    assert_eq!(pres.num_gens(), 2);
    assert_eq!(pres.order(), 6);
    assert_eq!(
        pres.to_string(),
        "< g0, g1 | g0^2 = 1, g1^3 = 1, [g1, g0] = g1 >"
    );
}

#[test]
fn test_builder_klein4() {
    let pres = Builder::new(vec![2, 2]).unwrap().build();
    assert_eq!(pres.num_gens(), 2);
    assert_eq!(pres.order(), 4);
    assert_eq!(
        pres.to_string(),
        "< g0, g1 | g0^2 = 1, g1^2 = 1, [g1, g0] = 1 >"
    );
}

#[test]
fn test_builder_c4() {
    let pres = Builder::new(vec![2, 2])
        .unwrap()
        .add_power(0, Word::from_term(1, 1))
        .unwrap()
        .build();

    assert_eq!(pres.num_gens(), 2);
    assert_eq!(pres.order(), 4);
    assert_eq!(
        pres.to_string(),
        "< g0, g1 | g0^2 = g1, g1^2 = 1, [g1, g0] = 1 >"
    );
}

#[test]
fn test_invalid_relative_orders() {
    assert_eq!(
        Builder::new(vec![0]),
        Err(BuilderError::InvalidRelativeOrder { order: 0 })
    );
    assert_eq!(
        Builder::new(vec![1]),
        Err(BuilderError::InvalidRelativeOrder { order: 1 })
    );
    assert_eq!(
        Builder::new(vec![4]),
        Err(BuilderError::InvalidRelativeOrder { order: 4 })
    );
    assert_eq!(
        Builder::new(vec![2, 9]),
        Err(BuilderError::InvalidRelativeOrder { order: 9 })
    );
}

#[test]
fn test_generator_out_of_bounds() {
    let builder = Builder::new(vec![2, 3]).unwrap();

    assert_eq!(
        builder.clone().add_power(2, Word::identity()),
        Err(BuilderError::GeneratorOutOfBounds { index: 2, max: 1 })
    );

    assert_eq!(
        builder.clone().add_power(0, Word::from_term(3, 1)),
        Err(BuilderError::GeneratorOutOfBounds { index: 3, max: 1 })
    );

    assert_eq!(
        builder.clone().add_commutator(2, 0, Word::identity()),
        Err(BuilderError::GeneratorOutOfBounds { index: 2, max: 1 })
    );
}

#[test]
fn test_invalid_pc_condition() {
    let builder = Builder::new(vec![2, 3, 2]).unwrap();

    assert_eq!(
        builder.clone().add_power(0, Word::from_term(0, 1)),
        Err(BuilderError::InvalidPcCondition {
            relation_for: 0,
            invalid_generator: 0,
        })
    );

    assert_eq!(
        builder.clone().add_commutator(2, 1, Word::from_term(1, 1)),
        Err(BuilderError::InvalidPcCondition {
            relation_for: 1,
            invalid_generator: 1,
        })
    );
}

#[test]
fn test_invalid_commutator_pair() {
    let builder = Builder::new(vec![2, 3]).unwrap();

    assert_eq!(
        builder.clone().add_commutator(0, 1, Word::identity()),
        Err(BuilderError::InvalidCommutatorPair { i: 0, j: 1 })
    );
    assert_eq!(
        builder.add_commutator(1, 1, Word::identity()),
        Err(BuilderError::InvalidCommutatorPair { i: 1, j: 1 })
    );
}

#[test]
fn builder_test_error_display() {
    let err1 = BuilderError::InvalidRelativeOrder { order: 6 };
    assert_eq!(
        err1.to_string(),
        "Invalid relative order 6: must be a prime number >= 2"
    );

    let err2 = BuilderError::GeneratorOutOfBounds { index: 3, max: 2 };
    assert_eq!(
        err2.to_string(),
        "Generator index 3 is out of bounds (maximum valid index is 2)"
    );

    let err3 = BuilderError::InvalidPcCondition {
        relation_for: 1,
        invalid_generator: 1,
    };
    assert_eq!(
        err3.to_string(),
        "PC condition violated: relation for g1 contains generator g1 (must be strictly greater)"
    );

    let err4 = BuilderError::InvalidCommutatorPair { i: 0, j: 1 };
    assert_eq!(
        err4.to_string(),
        "Invalid commutator pair [g0, g1]: requires i > j"
    );
}

#[test]
fn builder_out_of_bounds_second_index_and_overwrite() {
    let builder = Builder::new(vec![2, 3]).unwrap();
    assert_eq!(
        builder.clone().add_commutator(1, 5, Word::identity()),
        Err(BuilderError::GeneratorOutOfBounds { index: 5, max: 1 })
    );
    // A later relation replaces an earlier one.
    let pres = builder
        .add_commutator(1, 0, Word::from_term(1, 1))
        .unwrap()
        .add_commutator(1, 0, Word::from_term(1, 2))
        .unwrap()
        .build();
    assert_eq!(pres.commutator(1, 0), &Word::from_term(1, 2));
    assert_eq!(Builder::new(vec![]).unwrap().num_gens(), 0);
}
