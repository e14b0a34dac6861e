use pcgroup::{verify_consistency, Builder, ConsistencyError, Word};

#[test]
fn test_error_three_generators() {
    let pres = Builder::new(vec![2, 2, 2, 2])
        .unwrap()
        .add_commutator(2, 1, Word::from_term(3, 1))
        .unwrap()
        .add_commutator(3, 0, Word::from_term(3, 1))
        .unwrap()
        .build();

    assert_eq!(
        verify_consistency(&pres),
        Err(ConsistencyError::ThreeGenerators { k: 2, j: 1, i: 0 })
    );
}

#[test]
fn test_error_power_and_smaller_generator() {
    let pres = Builder::new(vec![2, 2, 2])
        .unwrap()
        .add_power(1, Word::from_term(2, 1))
        .unwrap()
        .add_commutator(2, 0, Word::from_term(2, 1))
        .unwrap()
        .build();

    assert_eq!(
        verify_consistency(&pres),
        Err(ConsistencyError::PowerAndSmallerGenerator { j: 1, i: 0 })
    );
}

#[test]
fn test_error_larger_generator_and_power() {
    let pres = Builder::new(vec![2, 2])
        .unwrap()
        .add_power(0, Word::from_term(1, 1))
        .unwrap()
        .add_commutator(1, 0, Word::from_term(1, 1))
        .unwrap()
        .build();

    assert_eq!(
        verify_consistency(&pres),
        Err(ConsistencyError::LargerGeneratorAndPower { k: 1, j: 0 })
    );
}

#[test]
fn test_error_power_and_itself() {
    let pres = Builder::new(vec![2, 3])
        .unwrap()
        .add_power(0, Word::from_term(1, 1))
        .unwrap()
        .add_commutator(1, 0, Word::from_term(1, 1))
        .unwrap()
        .build();

    assert_eq!(
        verify_consistency(&pres),
        Err(ConsistencyError::PowerAndItself { i: 0 })
    );
}

#[test]
fn test_consistent_trivial_group() {
    let pres = Builder::new(vec![]).unwrap().build();
    assert_eq!(verify_consistency(&pres), Ok(()));
}

#[test]
fn test_consistent_cyclic_group_c3() {
    let pres = Builder::new(vec![3]).unwrap().build();
    assert_eq!(verify_consistency(&pres), Ok(()));
}

#[test]
fn test_consistent_quaternion_group_q8() {
    let pres = Builder::new(vec![2, 2, 2])
        .unwrap()
        .add_power(0, Word::from_term(2, 1))
        .unwrap()
        .add_power(1, Word::from_term(2, 1))
        .unwrap()
        .add_commutator(1, 0, Word::from_term(2, 1))
        .unwrap()
        .build();

    assert_eq!(verify_consistency(&pres), Ok(()));
}

#[test]
fn consistency_of_s3_and_error_messages() {
    let s3 = Builder::new(vec![2, 3])
        .unwrap()
        .add_commutator(1, 0, Word::from_term(1, 1))
        .unwrap()
        .build();
    assert_eq!(verify_consistency(&s3), Ok(()));

    assert_eq!(
        ConsistencyError::ThreeGenerators { k: 2, j: 1, i: 0 }.to_string(),
        "Consistency check failed for three generators overlap: (g2 * g1) * g0 != g2 * (g1 * g0)"
    );
    assert_eq!(
        ConsistencyError::PowerAndSmallerGenerator { j: 1, i: 0 }.to_string(),
        "Consistency check failed for power and smaller generator overlap: (g1^p1) * g0 != g1^(p1-1) * (g1 * g0)"
    );
    assert_eq!(
        ConsistencyError::LargerGeneratorAndPower { k: 1, j: 0 }.to_string(),
        "Consistency check failed for larger generator and power overlap: (g1 * g0) * g0^(p0-1) != g1 * (g0^p0)"
    );
    assert_eq!(
        ConsistencyError::PowerAndItself { i: 3 }.to_string(),
        "Consistency check failed for power and itself overlap: (g3^p3) * g3 != g3 * (g3^p3)"
    );
}
