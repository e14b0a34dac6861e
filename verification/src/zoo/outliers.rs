//! Small solvable groups that are not in the infinite families: `S_3`, `S_4` and `SL(2, 3)`.
use vstd::prelude::*;

use crate::builder::{lemma_primes_accepted, lemma_valid_word, Builder};
use crate::presentation::Presentation;
use crate::word::{Term, Word};
use crate::zoo::cyclic::is_factorization;
use crate::zoo::dihedral::{dihedral, is_dihedral_shape};

verus! {

/// The symmetric group `S_3`, as the dihedral group of order 6.
pub fn s3() -> (pres: Presentation)
    ensures
        pres.wf(),
        pres.is_pc(),
        pres.n() >= 1,
        pres.ro()[0] == 2,
        is_factorization(pres.ro().skip(1), 3),
        is_dihedral_shape(pres),
{
    dihedral(3)
}

/// The commutator relations of `S_4`: `[g1, g0] = g1`, `[g2, g1] = g2 g3`, `[g3, g0] = g2`,
/// `[g3, g1] = g2`, all others trivial.
pub open spec fn s4_commutator(a: int, b: int) -> Seq<Term> {
    if a == 1 && b == 0 {
        seq![Term { gen_index: 1, exponent: 1 }]
    } else if a == 2 && b == 1 {
        seq![Term { gen_index: 2, exponent: 1 }, Term { gen_index: 3, exponent: 1 }]
    } else if a == 3 && b == 0 {
        seq![Term { gen_index: 2, exponent: 1 }]
    } else if a == 3 && b == 1 {
        seq![Term { gen_index: 2, exponent: 1 }]
    } else {
        Seq::empty()
    }
}

/// The symmetric group `S_4` of order 24, as `(V_4 x| C_3) x| C_2` with relative orders
/// `2, 3, 2, 2` and trivial power relations.
pub fn s4() -> (pres: Presentation)
    ensures
        pres.wf(),
        pres.is_pc(),
        pres.ro() == seq![2u32, 3u32, 2u32, 2u32],
        forall|g: int| 0 <= g < 4 ==> (#[trigger] pres.pw(g)).len() == 0,
        forall|a: int, b: int| 0 <= b < a < 4 ==> #[trigger] pres.cm(a, b) == s4_commutator(a, b),
{
    let ro: Vec<u32> = vec![2, 3, 2, 2];
    proof {
        assert(crate::util::ntheory::spec_is_prime(2));
        assert(crate::util::ntheory::spec_is_prime(3));
        lemma_primes_accepted(ro@);
    }
    let b0 = Builder::new(ro).expect("valid relative orders");
    let w1 = Word::from_term(1, 1);
    proof {
        lemma_valid_word(w1.terms@, 4, 0);
    }
    let b1 = b0.add_commutator(1, 0, w1).expect("valid relation");
    let w2 = Word::from_term(2, 1);
    proof {
        lemma_valid_word(w2.terms@, 4, 0);
    }
    let b2 = b1.add_commutator(3, 0, w2).expect("valid relation");
    let w3 = Word::new(vec![Term::new(2, 1), Term::new(3, 1)]);
    proof {
        lemma_valid_word(w3.terms@, 4, 1);
    }
    let b3 = b2.add_commutator(2, 1, w3).expect("valid relation");
    let w4 = Word::from_term(2, 1);
    proof {
        lemma_valid_word(w4.terms@, 4, 1);
    }
    let b4 = b3.add_commutator(3, 1, w4).expect("valid relation");
    let pres = b4.build();
    proof {
        assert forall|a: int, b: int| 0 <= b < a < 4 implies #[trigger] pres.cm(a, b) == s4_commutator(a, b) by {
            assert(pres.cm(a, b) == b4.cm(a, b));
        }
        assert forall|g: int| 0 <= g < 4 implies (#[trigger] pres.pw(g)).len() == 0 by {
            assert(pres.pw(g) == b4.pw(g));
        }
    }
    pres
}

/// The power relations of `SL(2, 3)`: `g1^2 = g3` and `g2^2 = g3`, all others trivial.
pub open spec fn sl2_3_power(g: int) -> Seq<Term> {
    if g == 1 || g == 2 {
        seq![Term { gen_index: 3, exponent: 1 }]
    } else {
        Seq::empty()
    }
}

/// The commutator relations of `SL(2, 3)`: `[g1, g0] = g1 g2 g3`, `[g2, g0] = g1`,
/// `[g2, g1] = g3`, all others trivial.
pub open spec fn sl2_3_commutator(a: int, b: int) -> Seq<Term> {
    if a == 1 && b == 0 {
        seq![
            Term { gen_index: 1, exponent: 1 },
            Term { gen_index: 2, exponent: 1 },
            Term { gen_index: 3, exponent: 1 },
        ]
    } else if a == 2 && b == 0 {
        seq![Term { gen_index: 1, exponent: 1 }]
    } else if a == 2 && b == 1 {
        seq![Term { gen_index: 3, exponent: 1 }]
    } else {
        Seq::empty()
    }
}

/// The special linear group `SL(2, 3)` of order 24, as `Q_8 x| C_3` with relative orders
/// `3, 2, 2, 2`.
pub fn sl2_3() -> (pres: Presentation)
    ensures
        pres.wf(),
        pres.is_pc(),
        pres.ro() == seq![3u32, 2u32, 2u32, 2u32],
        forall|g: int| 0 <= g < 4 ==> #[trigger] pres.pw(g) == sl2_3_power(g),
        forall|a: int, b: int| 0 <= b < a < 4 ==> #[trigger] pres.cm(a, b) == sl2_3_commutator(a, b),
{
    let ro: Vec<u32> = vec![3, 2, 2, 2];
    proof {
        assert(crate::util::ntheory::spec_is_prime(2));
        assert(crate::util::ntheory::spec_is_prime(3));
        lemma_primes_accepted(ro@);
    }
    let b0 = Builder::new(ro).expect("valid relative orders");
    let w1 = Word::from_term(3, 1);
    proof {
        lemma_valid_word(w1.terms@, 4, 1);
    }
    let b1 = b0.add_power(1, w1).expect("valid relation");
    let w2 = Word::from_term(3, 1);
    proof {
        lemma_valid_word(w2.terms@, 4, 2);
    }
    let b2 = b1.add_power(2, w2).expect("valid relation");
    let w3 = Word::new(vec![Term::new(1, 1), Term::new(2, 1), Term::new(3, 1)]);
    proof {
        lemma_valid_word(w3.terms@, 4, 0);
    }
    let b3 = b2.add_commutator(1, 0, w3).expect("valid relation");
    let w4 = Word::from_term(1, 1);
    proof {
        lemma_valid_word(w4.terms@, 4, 0);
    }
    let b4 = b3.add_commutator(2, 0, w4).expect("valid relation");
    let w5 = Word::from_term(3, 1);
    proof {
        lemma_valid_word(w5.terms@, 4, 1);
    }
    let b5 = b4.add_commutator(2, 1, w5).expect("valid relation");
    let pres = b5.build();
    proof {
        assert forall|a: int, b: int| 0 <= b < a < 4 implies #[trigger] pres.cm(a, b) == sl2_3_commutator(a, b) by {
            assert(pres.cm(a, b) == b5.cm(a, b));
        }
        assert forall|g: int| 0 <= g < 4 implies #[trigger] pres.pw(g) == sl2_3_power(g) by {
            assert(pres.pw(g) == b5.pw(g));
        }
    }
    pres
}


/// The commutator relations of `A_4 = AGL(1, 4)` over `F_4 = F_2[x] / (x^2 + x + 1)` with the
/// primitive element `x`: `[g1, g0] = g1 g2` and `[g2, g0] = g1`, the others trivial.
pub open spec fn a4_commutator(a: int, b: int) -> Seq<Term> {
    if a == 1 && b == 0 {
        seq![Term { gen_index: 1, exponent: 1 }, Term { gen_index: 2, exponent: 1 }]
    } else if a == 2 && b == 0 {
        seq![Term { gen_index: 1, exponent: 1 }]
    } else {
        Seq::empty()
    }
}

/// The alternating group `A_4` of order 12, the affine group `AGL(1, 4) = (C_2)^2 x| C_3`: the
/// generator `g0` of order 3 multiplies `F_4` by the primitive element `x`, and `g1, g2` are the
/// translations by `1` and `x`.
pub fn a4() -> (pres: Presentation)
    ensures
        pres.wf(),
        pres.is_pc(),
        pres.ro() == seq![3u32, 2u32, 2u32],
        forall|g: int| 0 <= g < 3 ==> (#[trigger] pres.pw(g)).len() == 0,
        forall|a: int, b: int| 0 <= b < a < 3 ==> #[trigger] pres.cm(a, b) == a4_commutator(a, b),
{
    let ro: Vec<u32> = vec![3, 2, 2];
    proof {
        assert(crate::util::ntheory::spec_is_prime(2));
        assert(crate::util::ntheory::spec_is_prime(3));
        lemma_primes_accepted(ro@);
    }
    let b0 = Builder::new(ro).expect("valid relative orders");
    let w1 = Word::new(vec![Term::new(1, 1), Term::new(2, 1)]);
    proof {
        lemma_valid_word(w1.terms@, 3, 0);
    }
    let b1 = b0.add_commutator(1, 0, w1).expect("valid relation");
    let w2 = Word::from_term(1, 1);
    proof {
        lemma_valid_word(w2.terms@, 3, 0);
    }
    let b2 = b1.add_commutator(2, 0, w2).expect("valid relation");
    let pres = b2.build();
    proof {
        assert forall|a: int, b: int| 0 <= b < a < 3 implies #[trigger] pres.cm(a, b) == a4_commutator(a, b) by {
            assert(pres.cm(a, b) == b2.cm(a, b));
        }
        assert forall|g: int| 0 <= g < 3 implies (#[trigger] pres.pw(g)).len() == 0 by {
            assert(pres.pw(g) == b2.pw(g));
        }
    }
    pres
}

} // verus!
