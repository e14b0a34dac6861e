//! Finite abelian groups given as direct products of cyclic groups.
use vstd::prelude::*;

use crate::builder::{lemma_primes_accepted, lemma_valid_word, Builder};
use crate::presentation::Presentation;
use crate::util::ntheory::{factorize, lemma_few_factors, seq_product, spec_is_prime};
use crate::word::{Term, Word};
use crate::zoo::cyclic::is_factorization;

verus! {

/// `fs` holds a prime factorization of each of the given orders, in order.
pub open spec fn factorizations(fs: Seq<Seq<u32>>, orders: Seq<u32>) -> bool {
    &&& fs.len() == orders.len()
    &&& forall|r: int| 0 <= r < fs.len() ==> is_factorization(#[trigger] fs[r], orders[r] as nat)
}

/// For each generator of the concatenated factorizations, whether the next generator belongs
/// to the same cyclic factor.
pub open spec fn chain_flags(fs: Seq<Seq<u32>>) -> Seq<bool> {
    fs.map_values(|f: Seq<u32>| Seq::new(f.len(), |k: int| k + 1 < f.len())).flatten_alt()
}

/// The power relation of generator `i` is `g_i^p = g_{i+1}` where `flags[i]` holds and trivial
/// otherwise, and all commutators are trivial.
pub open spec fn is_abelian_chain(pres: Presentation, flags: Seq<bool>) -> bool {
    &&& flags.len() == pres.n()
    &&& forall|i: int|
        0 <= i < pres.n() ==> #[trigger] pres.pw(i) == if flags[i] {
            seq![Term { gen_index: (i + 1) as usize, exponent: 1 }]
        } else {
            Seq::<Term>::empty()
        }
    &&& forall|i: int, j: int| 0 <= j < i < pres.n() ==> #[trigger] pres.cm(i, j).len() == 0
}

/// Constructs a PC presentation for the abelian group `C_{d_0} x ... x C_{d_{m-1}}`.
///
/// Each factor `C_d` contributes the prime factors of `d` as generators, chained by power
/// relations `g_i^p = g_{i+1}` within the factor; the last generator of a factor has a trivial
/// power relation, and all commutators are trivial. Every order must be positive.
pub fn abelian(orders: &[u32]) -> (pres: Presentation)
    requires
        forall|r: int| 0 <= r < orders@.len() ==> #[trigger] orders@[r] > 0,
        (31 * orders@.len()) * (31 * orders@.len()) <= usize::MAX,
    ensures
        pres.wf(),
        pres.is_pc(),
        exists|fs: Seq<Seq<u32>>|
            #![trigger chain_flags(fs)]
            factorizations(fs, orders@) && pres.ro() == fs.flatten_alt() && is_abelian_chain(
                pres,
                chain_flags(fs),
            ),
{
    let mut all_factors: Vec<u32> = Vec::new();
    let mut chain: Vec<bool> = Vec::new();
    let ghost mut fs: Seq<Seq<u32>> = Seq::empty();
    let mut r: usize = 0;
    while r < orders.len()
        invariant
            r <= orders@.len(),
            forall|q: int| 0 <= q < orders@.len() ==> #[trigger] orders@[q] > 0,
            fs.len() == r,
            forall|q: int| 0 <= q < r ==> is_factorization(#[trigger] fs[q], orders@[q] as nat),
            all_factors@ == fs.flatten_alt(),
            chain@ == chain_flags(fs),
            chain@.len() == all_factors@.len(),
            all_factors@.len() <= 31 * r,
            forall|i: int| 0 <= i < chain@.len() && #[trigger] chain@[i] ==> i + 1 < chain@.len(),
            forall|i: int| 0 <= i < all_factors@.len() ==> spec_is_prime(#[trigger] all_factors@[i] as int),
        decreases orders@.len() - r,
    {
        let order = orders[r];
        let factors = factorize(order);
        proof {
            if order >= 2 {
                assert forall|i: int| 0 <= i < factors@.len() implies #[trigger] factors@[i] >= 2 by {
                    assert(spec_is_prime(factors@[i] as int));
                }
                lemma_few_factors(factors@);
            }
        }
        let c = factors.len();
        let ghost base_f = all_factors@;
        let ghost base_c = chain@;
        let ghost flags = Seq::new(c as nat, |k: int| k + 1 < c);
        let mut k: usize = 0;
        while k < c
            invariant
                k <= c,
                c == factors@.len(),
                c <= 31,
                all_factors@ == base_f + factors@.take(k as int),
                chain@ == base_c + flags.take(k as int),
                flags == Seq::new(c as nat, |k: int| k + 1 < c),
                base_c.len() == base_f.len(),
                forall|i: int| 0 <= i < base_c.len() && #[trigger] base_c[i] ==> i + 1 < base_c.len(),
                forall|i: int| 0 <= i < base_f.len() ==> spec_is_prime(#[trigger] base_f[i] as int),
                forall|i: int| 0 <= i < factors@.len() ==> spec_is_prime(#[trigger] factors@[i] as int),
            decreases c - k,
        {
            all_factors.push(factors[k]);
            chain.push(k + 1 < c);
            proof {
                assert(all_factors@ =~= base_f + factors@.take(k + 1));
                assert(chain@ =~= base_c + flags.take(k + 1));
            }
            k = k + 1;
        }
        proof {
            let fs2 = fs.push(factors@);
            assert(fs2.drop_last() =~= fs);
            assert(factors@.take(c as int) =~= factors@);
            assert(flags.take(c as int) =~= flags);
            assert(all_factors@ == fs2.flatten_alt());
            let g = |f: Seq<u32>| Seq::new(f.len(), |k: int| k + 1 < f.len());
            assert(fs2.map_values(g).drop_last() =~= fs.map_values(g));
            assert(fs2.map_values(g).last() == flags);
            assert(chain@ == chain_flags(fs2));
            assert forall|i: int| 0 <= i < chain@.len() && #[trigger] chain@[i] implies i + 1
                < chain@.len() by {
                if i >= base_c.len() {
                    assert(chain@[i] == flags[i - base_c.len()]);
                }
            }
            assert forall|i: int| 0 <= i < all_factors@.len() implies spec_is_prime(
                #[trigger] all_factors@[i] as int,
            ) by {
                if i >= base_f.len() {
                    assert(all_factors@[i] == factors@[i - base_f.len()]);
                }
            }
            if order == 1 {
                assert(factors@.len() == 0);
                assert(seq_product(factors@) == 1);
            }
            assert(is_factorization(factors@, order as nat));
            assert forall|q: int| 0 <= q < r + 1 implies is_factorization(
                #[trigger] fs2[q],
                orders@[q] as nat,
            ) by {
                if q < r {
                    assert(fs2[q] == fs[q]);
                }
            }
            fs = fs2;
        }
        r = r + 1;
    }
    let n = all_factors.len();
    proof {
        lemma_primes_accepted(all_factors@);
        assert(n * (n - 1) <= usize::MAX) by (nonlinear_arith)
            requires
                n <= 31 * orders@.len(),
                (31 * orders@.len()) * (31 * orders@.len()) <= usize::MAX,
        ;
    }
    let ghost ro = all_factors@;
    let mut builder = Builder::new(all_factors).expect("prime relative orders are accepted");
    let mut i: usize = 0;
    while i < n
        invariant
            i <= n,
            n == builder.n(),
            builder.wf(),
            builder.ro() == ro,
            chain@.len() == n,
            forall|m: int| 0 <= m < n && #[trigger] chain@[m] ==> m + 1 < n,
            forall|m: int| 0 <= m < n ==> #[trigger] builder.pw(m) == if m < i && chain@[m] {
                seq![Term { gen_index: (m + 1) as usize, exponent: 1 }]
            } else {
                Seq::<Term>::empty()
            },
            forall|a: int, b: int| 0 <= b < a < n ==> #[trigger] builder.cm(a, b).len() == 0,
        decreases n - i,
    {
        if chain[i] {
            let w = Word::from_term(i + 1, 1);
            let ghost old_b = builder;
            proof {
                lemma_valid_word(w.terms@, n as nat, i as nat);
            }
            builder = builder.add_power(i, w).expect("valid power relation within a factor");
            proof {
                assert forall|m: int| 0 <= m < n implies #[trigger] builder.pw(m) == if m < i + 1
                    && chain@[m] {
                    seq![Term { gen_index: (m + 1) as usize, exponent: 1 }]
                } else {
                    Seq::<Term>::empty()
                } by {
                    if m != i {
                        assert(builder.pw(m) == old_b.pw(m));
                    }
                }
                assert forall|a: int, b: int| 0 <= b < a < n implies #[trigger] builder.cm(a, b).len()
                    == 0 by {
                    assert(builder.cm(a, b) == old_b.cm(a, b));
                }
            }
        }
        i = i + 1;
    }
    let pres = builder.build();
    proof {
        assert forall|m: int| 0 <= m < pres.n() implies #[trigger] pres.pw(m) == if chain@[m] {
            seq![Term { gen_index: (m + 1) as usize, exponent: 1 }]
        } else {
            Seq::<Term>::empty()
        } by {
            assert(pres.pw(m) == builder.pw(m));
        }
        assert forall|a: int, b: int| 0 <= b < a < pres.n() implies #[trigger] pres.cm(a, b).len()
            == 0 by {
            assert(pres.cm(a, b) == builder.cm(a, b));
        }
        assert(is_abelian_chain(pres, chain_flags(fs)));
    }
    pres
}

} // verus!
