//! Generalized quaternion (dicyclic) groups.
use vstd::prelude::*;

use crate::builder::{lemma_primes_accepted, lemma_valid_word, Builder};
use crate::presentation::Presentation;
use crate::util::ntheory::{factorize, lemma_few_factors, spec_is_prime};
use crate::word::{Term, Word};
use crate::zoo::cyclic::is_factorization;
use crate::zoo::dihedral::{inv_sq_terms, inv_sq_word};

verus! {

/// The terms of `t` written in the mixed radix of the relative orders from index `m` on: the
/// digit `t mod p_m` at `g_m` (when non-zero), then the digits of `t / p_m` from `m + 1` on.
pub open spec fn radix_terms(t: nat, ro: Seq<u32>, m: nat) -> Seq<Term>
    decreases ro.len() - m,
{
    if m >= ro.len() || ro[m as int] == 0 {
        Seq::<Term>::empty()
    } else {
        let d = t % (ro[m as int] as nat);
        (if d > 0 {
            seq![Term { gen_index: m as usize, exponent: d as u32 }]
        } else {
            Seq::<Term>::empty()
        }) + radix_terms(t / (ro[m as int] as nat), ro, m + 1)
    }
}

/// The presentation has the quaternion shape for its relative orders `2, p_1, ..., p_k` and
/// parameter `n`: `g0^2 = x^n` in the basis of `< x > = < g1, ..., gk >`, `gi^pi = g{i+1}` for
/// `1 <= i < k`, `gk^pk = 1`, `[gi, gj] = 1` for `1 <= j < i`, and `[gi, g0] = gi^-2` in normal form.
pub open spec fn is_quaternion_shape(pres: Presentation, n: nat) -> bool {
    let len = pres.n();
    &&& pres.pw(0) == radix_terms(n, pres.ro(), 1)
    &&& forall|i: int|
        1 <= i < len ==> #[trigger] pres.pw(i) == if i + 1 < len {
            seq![Term { gen_index: (i + 1) as usize, exponent: 1 }]
        } else {
            Seq::<Term>::empty()
        }
    &&& forall|i: int| 1 <= i < len ==> #[trigger] pres.cm(i, 0) == inv_sq_terms(i as nat, pres.ro())
    &&& forall|i: int, j: int| 1 <= j < i < len ==> #[trigger] pres.cm(i, j).len() == 0
}

/// Constructs a PC presentation for the generalized quaternion group `Q_{4n}` of order `4n`
/// (`n >= 2`), `< x, y | x^{2n} = 1, y^2 = x^n, y^-1 x y = x^-1 >`.
///
/// Generator `g0` is `y` (relative order 2) and `g1, ..., gk` the cyclic subgroup `< x > = C_{2n}`
/// with the prime factors of `2n` as relative orders; `2n` must fit in a `u32`.
pub fn quaternion(n: u32) -> (pres: Presentation)
    requires
        n >= 2,
        2 * n <= u32::MAX,
    ensures
        pres.wf(),
        pres.is_pc(),
        pres.n() >= 2,
        pres.ro()[0] == 2,
        is_factorization(pres.ro().skip(1), 2 * n as nat),
        is_quaternion_shape(pres, n as nat),
{
    let factors = factorize(2 * n);
    let mut rel_orders: Vec<u32> = vec![2];
    let mut factors_mut = factors;
    rel_orders.append(&mut factors_mut);
    let ghost ro = rel_orders@;
    proof {
        assert forall|i: int| 0 <= i < factors@.len() implies #[trigger] factors@[i] >= 2 by {
            assert(spec_is_prime(factors@[i] as int));
        }
        lemma_few_factors(factors@);
        assert(ro.skip(1) =~= factors@);
        assert(spec_is_prime(2));
        assert forall|i: int| 0 <= i < ro.len() implies spec_is_prime(#[trigger] ro[i] as int) by {
            if i > 0 {
                assert(ro[i] == factors@[i - 1]);
            }
        }
        lemma_primes_accepted(ro);
        let len = ro.len();
        assert(len * (len - 1) <= 1024) by (nonlinear_arith)
            requires
                len <= 32,
        ;
        if factors@.len() == 0 {
            assert(ro.skip(1) =~= Seq::<u32>::empty());
        }
    }
    let mut builder = Builder::new(rel_orders.clone()).expect("valid prime relative orders");
    assert(builder.ro() == ro);
    let k = builder.num_gens() - 1;

    // Power relation for g0: g0^2 = x^n in the basis of <x>
    let mut temp = n;
    let mut y_sq_terms: Vec<Term> = Vec::new();
    let mut m: usize = 1;
    assert(radix_terms(n as nat, ro, 1) == Seq::<Term>::empty() + radix_terms(n as nat, ro, 1));
    while m < rel_orders.len()
        invariant
            1 <= m <= ro.len(),
            ro == rel_orders@,
            ro.len() <= 32,
            forall|a: int| 0 <= a < ro.len() ==> spec_is_prime(#[trigger] ro[a] as int),
            y_sq_terms@ + radix_terms(temp as nat, ro, m as nat) == radix_terms(n as nat, ro, 1),
            forall|t: int| 0 <= t < y_sq_terms@.len() ==> 0 < (#[trigger] y_sq_terms@[t]).gen_index < m,
        decreases ro.len() - m,
    {
        let p_m = rel_orders[m];
        proof {
            assert(spec_is_prime(ro[m as int] as int));
        }
        let digit = temp % p_m;
        let ghost before = y_sq_terms@;
        if digit > 0 {
            y_sq_terms.push(Term::new(m, digit));
        }
        proof {
            let d = if digit > 0 {
                seq![Term { gen_index: m as usize, exponent: digit }]
            } else {
                Seq::<Term>::empty()
            };
            assert(y_sq_terms@ =~= before + d);
            assert(radix_terms(temp as nat, ro, m as nat) == d + radix_terms(
                (temp / p_m) as nat,
                ro,
                (m + 1) as nat,
            ));
            assert(before + (d + radix_terms((temp / p_m) as nat, ro, (m + 1) as nat)) =~= (before
                + d) + radix_terms((temp / p_m) as nat, ro, (m + 1) as nat));
        }
        temp = temp / p_m;
        m = m + 1;
    }
    proof {
        assert(radix_terms(temp as nat, ro, m as nat) =~= Seq::<Term>::empty());
        assert(y_sq_terms@ =~= radix_terms(n as nat, ro, 1));
        lemma_valid_word(y_sq_terms@, (k + 1) as nat, 0);
    }
    let ghost b0 = builder;
    builder = builder.add_power(0, Word::new(y_sq_terms)).expect("valid power relation for g0");
    proof {
        assert forall|m: int| 1 <= m < k + 1 implies #[trigger] builder.pw(m) == Seq::<Term>::empty() by {
            assert(builder.pw(m) == b0.pw(m));
        }
        assert forall|a: int, b: int| 0 <= b < a < k + 1 implies #[trigger] builder.cm(a, b).len() == 0 by {
            assert(builder.cm(a, b) == b0.cm(a, b));
        }
    }

    // Power relations in the cyclic subgroup <x>
    let mut i: usize = 1;
    while i < k
        invariant
            1 <= i <= k,
            k + 1 == builder.n(),
            k <= 31,
            builder.wf(),
            builder.ro() == ro,
            builder.pw(0) == radix_terms(n as nat, ro, 1),
            forall|m: int| 1 <= m < k + 1 ==> #[trigger] builder.pw(m) == if m < i {
                seq![Term { gen_index: (m + 1) as usize, exponent: 1 }]
            } else {
                Seq::<Term>::empty()
            },
            forall|a: int, b: int| 0 <= b < a < k + 1 ==> #[trigger] builder.cm(a, b).len() == 0,
        decreases k - i,
    {
        let w = Word::from_term(i + 1, 1);
        let ghost old_b = builder;
        proof {
            lemma_valid_word(w.terms@, (k + 1) as nat, i as nat);
        }
        builder = builder.add_power(i, w).expect("valid cyclic subgroup power relation");
        proof {
            assert(builder.pw(0) == old_b.pw(0));
            assert forall|m: int| 1 <= m < k + 1 implies #[trigger] builder.pw(m) == if m < i + 1 {
                seq![Term { gen_index: (m + 1) as usize, exponent: 1 }]
            } else {
                Seq::<Term>::empty()
            } by {
                if m != i {
                    assert(builder.pw(m) == old_b.pw(m));
                }
            }
            assert forall|a: int, b: int| 0 <= b < a < k + 1 implies #[trigger] builder.cm(a, b).len()
                == 0 by {
                assert(builder.cm(a, b) == old_b.cm(a, b));
            }
        }
        i = i + 1;
    }

    // Commutator relations [gi, g0] = gi^-2
    let mut i: usize = 1;
    while i <= k
        invariant
            1 <= i <= k + 1,
            k + 1 == builder.n(),
            k <= 31,
            builder.wf(),
            builder.ro() == ro,
            ro == rel_orders@,
            forall|m: int| 0 <= m < ro.len() ==> spec_is_prime(#[trigger] ro[m] as int),
            builder.pw(0) == radix_terms(n as nat, ro, 1),
            forall|m: int| 1 <= m < k + 1 ==> #[trigger] builder.pw(m) == if m < k {
                seq![Term { gen_index: (m + 1) as usize, exponent: 1 }]
            } else {
                Seq::<Term>::empty()
            },
            forall|a: int| 1 <= a < k + 1 ==> #[trigger] builder.cm(a, 0) == if a < i {
                inv_sq_terms(a as nat, ro)
            } else {
                Seq::<Term>::empty()
            },
            forall|a: int, b: int| 1 <= b < a < k + 1 ==> #[trigger] builder.cm(a, b).len() == 0,
        decreases k + 1 - i,
    {
        proof {
            assert forall|m: int| 0 <= m < rel_orders@.len() implies #[trigger] rel_orders@[m] >= 1 by {
                assert(spec_is_prime(ro[m] as int));
            }
        }
        let comm_word = inv_sq_word(i, &rel_orders);
        let ghost old_b = builder;
        proof {
            assert forall|t: int| 0 <= t < comm_word.terms@.len() implies 0 < (
            #[trigger] comm_word.terms@[t]).gen_index < k + 1 by {
                let h = if ro[i as int] > 2 { 1int } else { 0int };
                if t >= h {
                    assert(comm_word.terms@[t].gen_index == i + 1 + (t - h));
                }
            }
            lemma_valid_word(comm_word.terms@, (k + 1) as nat, 0);
        }
        builder = builder.add_commutator(i, 0, comm_word).expect("valid commutator relation");
        proof {
            assert forall|m: int| 0 <= m < k + 1 implies #[trigger] builder.pw(m) == old_b.pw(m) by {}
            assert forall|a: int| 1 <= a < k + 1 implies #[trigger] builder.cm(a, 0) == if a < i + 1 {
                inv_sq_terms(a as nat, ro)
            } else {
                Seq::<Term>::empty()
            } by {
                if a != i {
                    assert(builder.cm(a, 0) == old_b.cm(a, 0));
                }
            }
            assert forall|a: int, b: int| 1 <= b < a < k + 1 implies #[trigger] builder.cm(a, b).len()
                == 0 by {
                assert(builder.cm(a, b) == old_b.cm(a, b));
            }
        }
        i = i + 1;
    }
    let pres = builder.build();
    proof {
        assert(pres.pw(0) == builder.pw(0));
        assert forall|m: int| 1 <= m < pres.n() implies #[trigger] pres.pw(m) == if m + 1 < pres.n() {
            seq![Term { gen_index: (m + 1) as usize, exponent: 1 }]
        } else {
            Seq::<Term>::empty()
        } by {
            assert(pres.pw(m) == builder.pw(m));
        }
        assert forall|a: int| 1 <= a < pres.n() implies #[trigger] pres.cm(a, 0) == inv_sq_terms(
            a as nat,
            pres.ro(),
        ) by {
            assert(pres.cm(a, 0) == builder.cm(a, 0));
        }
        assert forall|a: int, b: int| 1 <= b < a < pres.n() implies #[trigger] pres.cm(a, b).len()
            == 0 by {
            assert(pres.cm(a, b) == builder.cm(a, b));
        }
    }
    pres
}

} // verus!
