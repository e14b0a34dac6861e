//! Cyclic groups.
use vstd::prelude::*;

use crate::builder::{lemma_primes_accepted, lemma_valid_word, Builder};
use crate::presentation::Presentation;
use crate::util::ntheory::{factorize, is_sorted, lemma_few_factors, seq_product, spec_is_prime};
use crate::word::{Term, Word};

verus! {

/// The relative orders are the prime factorization of `n`: sorted primes whose product is `n`
/// (none for `n = 1`).
pub open spec fn is_factorization(ro: Seq<u32>, n: nat) -> bool {
    &&& is_sorted(ro)
    &&& forall|i: int| 0 <= i < ro.len() ==> spec_is_prime(#[trigger] ro[i] as int)
    &&& seq_product(ro) == n
}

/// Every power relation chains consecutive generators, `g_i^{p_i} = g_{i+1}` for `i + 1 < n`, the
/// last power relation is trivial, and all commutators are trivial.
pub open spec fn is_cyclic_chain(pres: Presentation) -> bool {
    &&& forall|i: int|
        0 <= i < pres.n() ==> #[trigger] pres.pw(i) == if i + 1 < pres.n() {
            seq![Term { gen_index: (i + 1) as usize, exponent: 1 }]
        } else {
            Seq::<Term>::empty()
        }
    &&& forall|i: int, j: int| 0 <= j < i < pres.n() ==> #[trigger] pres.cm(i, j).len() == 0
}

/// Constructs a PC presentation for the cyclic group `C_n` of order `n`.
///
/// If `n = p_0 * p_1 * ... * p_{k-1}` with sorted primes, the presentation is
/// `< g0, ..., g{k-1} | gi^pi = g{i+1} (0 <= i < k-1), g{k-1}^p{k-1} = 1, [gi, gj] = 1 (i > j) >`;
/// for `n = 1` it has no generators. The order must be positive.
pub fn cyclic(n: u32) -> (pres: Presentation)
    requires
        n > 0,
    ensures
        pres.wf(),
        pres.is_pc(),
        is_factorization(pres.ro(), n as nat),
        is_cyclic_chain(pres),
{
    let factors = factorize(n);
    proof {
        if n >= 2 {
            assert forall|i: int| 0 <= i < factors@.len() implies #[trigger] factors@[i] >= 2 by {
                assert(spec_is_prime(factors@[i] as int));
            }
            lemma_few_factors(factors@);
        }
        lemma_primes_accepted(factors@);
        let len = factors@.len();
        assert(len <= 31);
        assert(len * (len - 1) <= 930) by (nonlinear_arith)
            requires
                len <= 31,
        ;
    }
    let ghost ro = factors@;
    let mut builder = Builder::new(factors).expect("factorize produces valid prime relative orders");
    let k = builder.num_gens();
    let mut i: usize = 0;
    while i + 1 < k
        invariant
            k == builder.n(),
            k <= 31,
            builder.wf(),
            builder.ro() == ro,
            k == 0 ==> i == 0,
            k > 0 ==> i < k,
            forall|m: int| 0 <= m < k ==> #[trigger] builder.pw(m) == if m < i {
                seq![Term { gen_index: (m + 1) as usize, exponent: 1 }]
            } else {
                Seq::<Term>::empty()
            },
            forall|a: int, b: int| 0 <= b < a < k ==> #[trigger] builder.cm(a, b).len() == 0,
        decreases k - i,
    {
        let w = Word::from_term(i + 1, 1);
        let ghost old_b = builder;
        proof {
            lemma_valid_word(w.terms@, k as nat, i as nat);
        }
        builder = builder.add_power(i, w).expect("valid generator chain");
        proof {
            assert forall|m: int| 0 <= m < k implies #[trigger] builder.pw(m) == if m < i + 1 {
                seq![Term { gen_index: (m + 1) as usize, exponent: 1 }]
            } else {
                Seq::<Term>::empty()
            } by {
                if m != i {
                    assert(builder.pw(m) == old_b.pw(m));
                }
            }
            assert forall|a: int, b: int| 0 <= b < a < k implies #[trigger] builder.cm(a, b).len()
                == 0 by {
                assert(builder.cm(a, b) == old_b.cm(a, b));
            }
        }
        i = i + 1;
    }
    let pres = builder.build();
    proof {
        if n == 1 {
            assert(ro.len() == 0);
        }
        assert forall|m: int| 0 <= m < pres.n() implies #[trigger] pres.pw(m) == if m + 1 < pres.n() {
            seq![Term { gen_index: (m + 1) as usize, exponent: 1 }]
        } else {
            Seq::<Term>::empty()
        } by {
            assert(pres.pw(m) == builder.pw(m));
        }
        assert forall|a: int, b: int| 0 <= b < a < pres.n() implies #[trigger] pres.cm(a, b).len()
            == 0 by {
            assert(pres.cm(a, b) == builder.cm(a, b));
        }
    }
    pres
}

} // verus!
