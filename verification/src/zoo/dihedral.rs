//! Dihedral groups.
use vstd::prelude::*;

use crate::builder::{lemma_primes_accepted, lemma_valid_word, Builder};
use crate::presentation::Presentation;
use crate::util::ntheory::{factorize, lemma_few_factors, spec_is_prime};
use crate::word::{Term, Word};
use crate::zoo::cyclic::is_factorization;

verus! {

/// The terms of the normal form word of `g_i^-2` in the cyclic subgroup `< g_i, ..., g_{k} >` whose
/// power relations chain consecutive generators: `g_i^{p_i - 2}` (if `p_i > 2`) followed by
/// `g_m^{p_m - 1}` for every `m > i`.
pub open spec fn inv_sq_terms(i: nat, ro: Seq<u32>) -> Seq<Term> {
    (if ro[i as int] > 2 {
        seq![Term { gen_index: i as usize, exponent: (ro[i as int] - 2) as u32 }]
    } else {
        Seq::<Term>::empty()
    }) + Seq::new(
        (ro.len() - i - 1) as nat,
        |t: int| Term { gen_index: (i + 1 + t) as usize, exponent: (ro[i + 1 + t] - 1) as u32 },
    )
}

/// Builds the normal form word for `gi^-2` in the cyclic subgroup `< g{i}, ..., g{k} >`.
pub(crate) fn inv_sq_word(i: usize, rel_orders: &Vec<u32>) -> (w: Word)
    requires
        i < rel_orders@.len(),
        forall|m: int| 0 <= m < rel_orders@.len() ==> #[trigger] rel_orders@[m] >= 1,
    ensures
        w.terms@ == inv_sq_terms(i as nat, rel_orders@),
{
    let ghost ro = rel_orders@;
    let len = rel_orders.len();
    let p_i = rel_orders[i];
    let mut terms: Vec<Term> = Vec::new();
    if p_i > 2 {
        terms.push(Term::new(i, p_i - 2));
    }
    let ghost head = terms@;
    let mut m: usize = i + 1;
    while m < rel_orders.len()
        invariant
            i < m <= ro.len(),
            ro == rel_orders@,
            forall|a: int| 0 <= a < ro.len() ==> #[trigger] ro[a] >= 1,
            terms@ == head + Seq::new(
                (m - i - 1) as nat,
                |t: int| Term { gen_index: (i + 1 + t) as usize, exponent: (ro[i + 1 + t] - 1) as u32 },
            ),
        decreases ro.len() - m,
    {
        let p_m = rel_orders[m];
        terms.push(Term::new(m, p_m - 1));
        proof {
            let f = |t: int| Term { gen_index: (i + 1 + t) as usize, exponent: (ro[i + 1 + t] - 1) as u32 };
            assert(Seq::new((m + 1 - i - 1) as nat, f) =~= Seq::new((m - i - 1) as nat, f).push(
                Term { gen_index: m, exponent: (p_m - 1) as u32 },
            ));
        }
        m = m + 1;
    }
    Word::new(terms)
}

/// The presentation has the dihedral shape for its relative orders `2, p_1, ..., p_k`: `g0^2 = 1`,
/// `gi^pi = g{i+1}` for `1 <= i < k`, `gk^pk = 1`, `[gi, gj] = 1` for `1 <= j < i`, and
/// `[gi, g0] = gi^-2` in normal form.
pub open spec fn is_dihedral_shape(pres: Presentation) -> bool {
    let n = pres.n();
    &&& forall|i: int|
        0 <= i < n ==> #[trigger] pres.pw(i) == if 1 <= i && i + 1 < n {
            seq![Term { gen_index: (i + 1) as usize, exponent: 1 }]
        } else {
            Seq::<Term>::empty()
        }
    &&& forall|i: int| 1 <= i < n ==> #[trigger] pres.cm(i, 0) == inv_sq_terms(i as nat, pres.ro())
    &&& forall|i: int, j: int| 1 <= j < i < n ==> #[trigger] pres.cm(i, j).len() == 0
}

/// Constructs a PC presentation for the dihedral group `D_{2n}` of order `2n` (`n >= 1`),
/// `< s, r | s^2 = 1, r^n = 1, s r s = r^-1 >`.
///
/// Generator `g0` is the reflection `s` (relative order 2) and `g1, ..., gk` the rotation
/// subgroup `< r > = C_n` with the prime factors of `n` as relative orders.
pub fn dihedral(n: u32) -> (pres: Presentation)
    requires
        n > 0,
    ensures
        pres.wf(),
        pres.is_pc(),
        pres.n() >= 1,
        pres.ro()[0] == 2,
        is_factorization(pres.ro().skip(1), n as nat),
        is_dihedral_shape(pres),
{
    if n == 1 {
        let v: Vec<u32> = vec![2];
        proof {
            assert(spec_is_prime(2));
            lemma_primes_accepted(v@);
        }
        let b = Builder::new(v).expect("2 is prime");
        let pres = b.build();
        proof {
            assert(pres.ro().skip(1) =~= Seq::<u32>::empty());
            assert(pres.pw(0) == b.pw(0));
            assert(pres.pw(0) =~= Seq::<Term>::empty());
        }
        return pres;
    }
    let factors = factorize(n);
    let mut rel_orders: Vec<u32> = vec![2];
    let mut factors_mut = factors;
    rel_orders.append(&mut factors_mut);
    let ghost ro = rel_orders@;
    proof {
        assert forall|i: int| 0 <= i < factors@.len() implies #[trigger] factors@[i] >= 2 by {
            assert(spec_is_prime(factors@[i] as int));
        }
        lemma_few_factors(factors@);
        assert(ro.skip(1) =~= factors@);
        assert(spec_is_prime(2));
        assert forall|i: int| 0 <= i < ro.len() implies spec_is_prime(#[trigger] ro[i] as int) by {
            if i > 0 {
                assert(ro[i] == factors@[i - 1]);
            }
        }
        lemma_primes_accepted(ro);
        let len = ro.len();
        assert(len * (len - 1) <= 1024) by (nonlinear_arith)
            requires
                len <= 32,
        ;
    }
    let mut builder = Builder::new(rel_orders.clone()).expect("valid prime relative orders");
    assert(builder.ro() == ro);
    let k = builder.num_gens() - 1;

    // Power relations in the rotation subgroup
    let mut i: usize = 1;
    while i < k
        invariant
            1 <= i <= k,
            k + 1 == builder.n(),
            k <= 31,
            builder.wf(),
            builder.ro() == ro,
            forall|m: int| 0 <= m < k + 1 ==> #[trigger] builder.pw(m) == if 1 <= m < i {
                seq![Term { gen_index: (m + 1) as usize, exponent: 1 }]
            } else {
                Seq::<Term>::empty()
            },
            forall|a: int, b: int| 0 <= b < a < k + 1 ==> #[trigger] builder.cm(a, b).len() == 0,
        decreases k - i,
    {
        let w = Word::from_term(i + 1, 1);
        let ghost old_b = builder;
        proof {
            lemma_valid_word(w.terms@, (k + 1) as nat, i as nat);
        }
        builder = builder.add_power(i, w).expect("valid rotation power relation");
        proof {
            assert forall|m: int| 0 <= m < k + 1 implies #[trigger] builder.pw(m) == if 1 <= m < i + 1 {
                seq![Term { gen_index: (m + 1) as usize, exponent: 1 }]
            } else {
                Seq::<Term>::empty()
            } by {
                if m != i {
                    assert(builder.pw(m) == old_b.pw(m));
                }
            }
            assert forall|a: int, b: int| 0 <= b < a < k + 1 implies #[trigger] builder.cm(a, b).len()
                == 0 by {
                assert(builder.cm(a, b) == old_b.cm(a, b));
            }
        }
        i = i + 1;
    }

    // Commutator relations [gi, g0] = gi^-2
    let mut i: usize = 1;
    while i <= k
        invariant
            1 <= i <= k + 1,
            k + 1 == builder.n(),
            k <= 31,
            builder.wf(),
            builder.ro() == ro,
            ro == rel_orders@,
            forall|m: int| 0 <= m < ro.len() ==> spec_is_prime(#[trigger] ro[m] as int),
            forall|m: int| 0 <= m < k + 1 ==> #[trigger] builder.pw(m) == if 1 <= m < k {
                seq![Term { gen_index: (m + 1) as usize, exponent: 1 }]
            } else {
                Seq::<Term>::empty()
            },
            forall|a: int| 1 <= a < k + 1 ==> #[trigger] builder.cm(a, 0) == if a < i {
                inv_sq_terms(a as nat, ro)
            } else {
                Seq::<Term>::empty()
            },
            forall|a: int, b: int| 1 <= b < a < k + 1 ==> #[trigger] builder.cm(a, b).len() == 0,
        decreases k + 1 - i,
    {
        proof {
            assert forall|m: int| 0 <= m < rel_orders@.len() implies #[trigger] rel_orders@[m] >= 1 by {
                assert(spec_is_prime(ro[m] as int));
            }
        }
        let comm_word = inv_sq_word(i, &rel_orders);
        let ghost old_b = builder;
        proof {
            assert forall|t: int| 0 <= t < comm_word.terms@.len() implies 0 < (
            #[trigger] comm_word.terms@[t]).gen_index < k + 1 by {
                let h = if ro[i as int] > 2 { 1int } else { 0int };
                if t >= h {
                    assert(comm_word.terms@[t].gen_index == i + 1 + (t - h));
                }
            }
            lemma_valid_word(comm_word.terms@, (k + 1) as nat, 0);
        }
        builder = builder.add_commutator(i, 0, comm_word).expect("valid commutator relation");
        proof {
            assert forall|m: int| 0 <= m < k + 1 implies #[trigger] builder.pw(m) == old_b.pw(m) by {}
            assert forall|a: int| 1 <= a < k + 1 implies #[trigger] builder.cm(a, 0) == if a < i + 1 {
                inv_sq_terms(a as nat, ro)
            } else {
                Seq::<Term>::empty()
            } by {
                if a != i {
                    assert(builder.cm(a, 0) == old_b.cm(a, 0));
                }
            }
            assert forall|a: int, b: int| 1 <= b < a < k + 1 implies #[trigger] builder.cm(a, b).len()
                == 0 by {
                assert(builder.cm(a, b) == old_b.cm(a, b));
            }
        }
        i = i + 1;
    }
    let pres = builder.build();
    proof {
        assert forall|m: int| 0 <= m < pres.n() implies #[trigger] pres.pw(m) == if 1 <= m && m + 1
            < pres.n() {
            seq![Term { gen_index: (m + 1) as usize, exponent: 1 }]
        } else {
            Seq::<Term>::empty()
        } by {
            assert(pres.pw(m) == builder.pw(m));
        }
        assert forall|a: int| 1 <= a < pres.n() implies #[trigger] pres.cm(a, 0) == inv_sq_terms(
            a as nat,
            pres.ro(),
        ) by {
            assert(pres.cm(a, 0) == builder.cm(a, 0));
        }
        assert forall|a: int, b: int| 1 <= b < a < pres.n() implies #[trigger] pres.cm(a, b).len()
            == 0 by {
            assert(pres.cm(a, b) == builder.cm(a, b));
        }
    }
    pres
}

} // verus!
