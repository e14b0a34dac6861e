use pcgroup::{Builder, Collector, Term, Word};

#[test]
fn test_collector_identity() {
    let pres = Builder::new(vec![2, 3]).unwrap().build();
    let mut collector = Collector::new(&pres);

    assert!(collector.is_empty());
    collector.collect(&Word::identity());
    assert!(collector.is_empty());

    let word = collector.into_word();
    assert!(word.is_identity());
}

#[test]
fn test_collector_fast_path() {
    let pres = Builder::new(vec![2, 3, 5]).unwrap().build();
    let mut collector = Collector::new(&pres);

    let input = Word::from(vec![Term::new(0, 1), Term::new(2, 4)]);
    collector.collect(&input);
    assert_eq!(collector.exponents(), &[1, 0, 4]);

    let result = collector.into_word();
    assert_eq!(result, input);
}

#[test]
fn test_collector_power_reductions() {
    let pres = Builder::new(vec![2, 3]).unwrap().build();
    let mut collector = Collector::new(&pres);

    // g0^4 in C_2 -> 1
    collector.collect_generator(0, 4);
    assert_eq!(collector.into_word(), Word::identity());

    // g1^5 in C_3 -> g1^2
    let mut collector2 = Collector::new(&pres);
    collector2.collect_generator(1, 5);
    assert_eq!(collector2.into_word(), Word::from_term(1, 2));
}

#[test]
fn test_collector_power_cascade_c4() {
    // C_4: < g0, g1 | g0^2 = g1, g1^2 = 1, [g1, g0] = 1 >
    let pres = Builder::new(vec![2, 2])
        .unwrap()
        .add_power(0, Word::from_term(1, 1))
        .unwrap()
        .build();

    let mut col1 = Collector::new(&pres);
    col1.collect_generator(0, 1);
    col1.collect_generator(0, 1);
    assert_eq!(col1.into_word(), Word::from_term(1, 1));

    let mut col2 = Collector::new(&pres);
    col2.collect_generator(0, 4);
    assert_eq!(col2.into_word(), Word::identity());

    let mut col3 = Collector::new(&pres);
    col3.collect_generator(0, 3);
    assert_eq!(
        col3.into_word(),
        Word::from(vec![Term::new(0, 1), Term::new(1, 1)])
    );
}

#[test]
fn test_collector_s3_commutator() {
    // S_3: < g0, g1 | g0^2 = 1, g1^3 = 1, [g1, g0] = g1 >
    let pres = Builder::new(vec![2, 3])
        .unwrap()
        .add_commutator(1, 0, Word::from_term(1, 1))
        .unwrap()
        .build();

    let mut col1 = Collector::new(&pres);
    col1.collect(&Word::from_term(1, 1));
    col1.collect(&Word::from_term(0, 1));
    assert_eq!(
        col1.into_word(),
        Word::from(vec![Term::new(0, 1), Term::new(1, 2)])
    );

    let mut col2 = Collector::new(&pres);
    col2.collect(&Word::from_term(0, 1));
    col2.collect(&Word::from_term(1, 1));
    col2.collect(&Word::from_term(0, 1));
    assert_eq!(col2.into_word(), Word::from_term(1, 2));

    let mut col3 = Collector::new(&pres);
    col3.collect(&Word::from(vec![Term::new(0, 1), Term::new(1, 1)]));
    col3.collect(&Word::from(vec![Term::new(0, 1), Term::new(1, 1)]));
    assert_eq!(col3.into_word(), Word::identity());
}

#[test]
fn test_collector_reset() {
    let pres = Builder::new(vec![2, 3]).unwrap().build();
    let mut collector = Collector::new(&pres);

    collector.collect_generator(0, 1);
    assert!(!collector.is_empty());

    collector.reset();
    assert!(collector.is_empty());
    assert_eq!(collector.exponents(), &[0, 0]);

    collector.collect_generator(1, 2);
    assert_eq!(collector.into_word(), Word::from_term(1, 2));
}

#[test]
fn collector_term_with_zero_exponent_is_ignored() {
    let pres = Builder::new(vec![3]).unwrap().build();
    let mut collector = Collector::new(&pres);
    collector.collect_term(Term::new(0, 0));
    assert!(collector.is_empty());
    collector.collect_term(Term::new(0, 2));
    assert_eq!(collector.exponents(), &[2]);
}

#[test]
fn collector_commutes_past_larger_generators() {
    // S_3 again: g1^2 * g0 = g0 * g1
    let pres = Builder::new(vec![2, 3])
        .unwrap()
        .add_commutator(1, 0, Word::from_term(1, 1))
        .unwrap()
        .build();
    let mut collector = Collector::new(&pres);
    collector.collect(&Word::from_term(1, 2));
    collector.collect(&Word::from_term(0, 1));
    assert_eq!(collector.exponents(), &[1, 1]);
}
