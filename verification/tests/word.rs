use pcgroup::{Term, Word};

#[test]
fn test_term_creation_and_display() {
    let t1 = Term::new(0, 1);
    assert_eq!(t1.gen_index, 0);
    assert_eq!(t1.exponent, 1);
    assert_eq!(t1.to_string(), "g0");

    let t2 = Term::new(3, 4);
    assert_eq!(t2.gen_index, 3);
    assert_eq!(t2.exponent, 4);
    assert_eq!(t2.to_string(), "g3^4");
}

#[test]
fn test_term_conversions() {
    let t = Term::from((2, 5));
    assert_eq!(t, Term::new(2, 5));
    let tuple: (usize, u32) = t.into();
    assert_eq!(tuple, (2, 5));
}

#[test]
fn test_word_identity_and_default() {
    let w_id = Word::identity();
    let w_def = Word::default();
    assert_eq!(w_id, w_def);
    assert!(w_id.is_identity());
    assert!(w_id.is_empty());
    assert_eq!(w_id.len(), 0);
    assert_eq!(w_id.leading_term(), None);
    assert_eq!(w_id.leading_generator(), None);
    assert_eq!(w_id.leading_exponent(), None);
    assert_eq!(w_id.to_string(), "1");
}

#[test]
fn test_word_from_term() {
    let w1 = Word::from_term(1, 3);
    assert!(!w1.is_identity());
    assert_eq!(w1.len(), 1);
    assert_eq!(w1.leading_term(), Some(Term::new(1, 3)));
    assert_eq!(w1.leading_generator(), Some(1));
    assert_eq!(w1.leading_exponent(), Some(3));
    assert_eq!(w1.to_string(), "g1^3");

    let w_zero = Word::from_term(1, 0);
    assert!(w_zero.is_identity());
}

#[test]
fn test_word_iterations_and_collections() {
    let terms = vec![Term::new(0, 1), Term::new(2, 3)];
    let w = Word::from_iter(terms.clone());
    assert_eq!(w.terms(), &terms[..]);

    let collected_refs: Vec<&Term> = w.iter().collect();
    assert_eq!(collected_refs, vec![&terms[0], &terms[1]]);

    let collected_owned: Vec<Term> = w.into_iter().collect();
    assert_eq!(collected_owned, terms);
}

#[test]
fn word_text_of_several_terms() {
    let w = Word::new(vec![Term::new(0, 1), Term::new(2, 3), Term::new(11, 1)]);
    assert_eq!(w.to_string(), "g0 g2^3 g11");
    assert!(w.same_as(&w.duplicate()));
    assert!(!w.same_as(&Word::from_term(0, 1)));
}

#[test]
fn word_from_vec() {
    let w = Word::from(vec![Term::new(4, 2)]);
    assert_eq!(w, Word::from_term(4, 2));
    assert_eq!(w.terms().len(), 1);
}
