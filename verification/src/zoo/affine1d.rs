//! The affine groups `AGL(1, q)` of the finite fields.
use vstd::arithmetic::power::pow;
use vstd::prelude::*;

use crate::builder::{lemma_primes_accepted, Builder};
use crate::extension::assemble;
use crate::presentation::Presentation;
use crate::util::field::{
    field_data, lemma_pmul_len, lemma_prem, lemma_trimmed, monomial, pmul, ppow, prem, psub, FiniteField,
};
use crate::util::ntheory::{factorize, lemma_few_factors, seq_product, spec_is_prime};
use crate::word::{Term, Word};
use crate::zoo::cyclic::is_factorization;

verus! {

/// The terms `g_{m+k}^{c_k}` for the non-zero coefficients `c_k`, `k < r`, of a polynomial.
pub open spec fn coeff_terms(c: Seq<u32>, m: nat, r: nat) -> Seq<Term>
    decreases c.len(),
{
    if c.len() == 0 {
        Seq::empty()
    } else {
        let k = (c.len() - 1) as nat;
        coeff_terms(c.drop_last(), m, r) + if c.last() > 0 && k < r {
            seq![Term { gen_index: (m + k) as usize, exponent: c.last() }]
        } else {
            Seq::<Term>::empty()
        }
    }
}

/// The multiplier `alpha_j = prim^(f_0 ... f_{j-1})` generating the `j`-th step of `F_q^x`.
pub open spec fn affine_alpha(poly: Seq<u32>, prim: Seq<u32>, p: nat, hf: Seq<u32>, j: int) -> Seq<u32> {
    ppow(prim, seq_product(hf.take(j)), poly, p)
}

/// The word of `[g_{m+i}, g_j]`: the coordinates of `(alpha_j - 1) x^i` in `F_q`.
pub open spec fn affine_cross(poly: Seq<u32>, prim: Seq<u32>, p: nat, r: nat, hf: Seq<u32>, i: nat, j: int) -> Seq<
    Term,
> {
    coeff_terms(
        prem(pmul(psub(affine_alpha(poly, prim, p, hf, j), seq![1u32], p), monomial(i), p), poly, p),
        hf.len(),
        r,
    )
}

/// The presentation of `AGL(1, p^r)` from the factors `hf` of `q - 1` and the field data: the
/// generators of `F_q^x` chained by `g_j^{f_j} = g_{j+1}`, then `r` generators of order `p` for
/// the translations, with `[g_{m+i}, g_j]` given by [`affine_cross`] and all other relations
/// trivial.
pub open spec fn is_affine_presentation(
    pres: Presentation,
    p: nat,
    r: nat,
    hf: Seq<u32>,
    poly: Seq<u32>,
    prim: Seq<u32>,
) -> bool {
    let m = hf.len();
    let total = m + r;
    &&& pres.ro() == hf + Seq::new(r, |i: int| p as u32)
    &&& forall|g: int| 0 <= g < total ==> #[trigger] pres.pw(g) == if g + 1 < m {
        seq![Term { gen_index: (g + 1) as usize, exponent: 1 }]
    } else {
        Seq::<Term>::empty()
    }
    &&& forall|a: int, b: int| 0 <= b < a < total ==> #[trigger] pres.cm(a, b) == if b < m <= a {
        affine_cross(poly, prim, p, r, hf, (a - m) as nat, b)
    } else {
        Seq::<Term>::empty()
    }
}

/// The terms read off a polynomial are in range for a group with `m + r` generators, after `m`.
proof fn lemma_coeff_terms(c: Seq<u32>, m: nat, r: nat)
    requires
        m + r <= usize::MAX,
    ensures
        forall|t: int| 0 <= t < coeff_terms(c, m, r).len() ==> m <= (#[trigger] coeff_terms(c, m, r)[t]).gen_index < m + r,
    decreases c.len(),
{
    if c.len() > 0 {
        lemma_coeff_terms(c.drop_last(), m, r);
        let pre = coeff_terms(c.drop_last(), m, r);
        assert forall|t: int| 0 <= t < coeff_terms(c, m, r).len() implies m <= (#[trigger] coeff_terms(c, m, r)[t]).gen_index
            < m + r by {
            if t < pre.len() {
                assert(coeff_terms(c, m, r)[t] == pre[t]);
            } else {
                assert(coeff_terms(c, m, r)[t].gen_index == m + (c.len() - 1));
            }
        }
    }
}

/// The partial products of the factors never exceed the full product.
pub(crate) proof fn lemma_partial_product(s: Seq<u32>, j: int)
    requires
        0 <= j <= s.len(),
        forall|i: int| 0 <= i < s.len() ==> #[trigger] s[i] >= 1,
    ensures
        seq_product(s.take(j)) <= seq_product(s),
        seq_product(s.take(j)) >= 1,
    decreases s.len() - j,
{
    if j < s.len() {
        lemma_partial_product(s, j + 1);
        assert(s.take(j + 1).drop_last() =~= s.take(j));
        assert(s.take(j + 1).last() == s[j]);
        let a = seq_product(s.take(j));
        assert(a * (s[j] as nat) >= a) by (nonlinear_arith)
            requires
                s[j] >= 1,
        ;
    } else {
        assert(s.take(j) =~= s);
    }
    if j == 0 {
    } else {
        lemma_partial_product_pos(s.take(j));
    }
}

proof fn lemma_partial_product_pos(s: Seq<u32>)
    requires
        forall|i: int| 0 <= i < s.len() ==> #[trigger] s[i] >= 1,
    ensures
        seq_product(s) >= 1,
    decreases s.len(),
{
    if s.len() > 0 {
        assert forall|i: int| 0 <= i < s.drop_last().len() implies #[trigger] s.drop_last()[i] >= 1 by {
            assert(s.drop_last()[i] == s[i]);
        }
        lemma_partial_product_pos(s.drop_last());
        let a = seq_product(s.drop_last());
        assert(a * (s.last() as nat) >= 1) by (nonlinear_arith)
            requires
                a >= 1,
                s.last() >= 1,
        ;
    }
}

/// Reads the terms `g_{m+k}^{c_k}` off the coefficients of a polynomial.
fn terms_of(c: &Vec<u32>, m: usize, r: usize) -> (w: Word)
    requires
        m + r <= usize::MAX,
    ensures
        w.terms@ == coeff_terms(c@, m as nat, r as nat),
{
    let mut terms: Vec<Term> = Vec::new();
    let mut k: usize = 0;
    while k < c.len()
        invariant
            k <= c@.len(),
            m + r <= usize::MAX,
            terms@ == coeff_terms(c@.take(k as int), m as nat, r as nat),
        decreases c@.len() - k,
    {
        proof {
            assert(c@.take(k + 1).drop_last() =~= c@.take(k as int));
        }
        let coeff = c[k];
        if coeff > 0 && k < r {
            terms.push(Term::new(m + k, coeff));
        }
        k = k + 1;
        proof {
            assert(terms@ =~= coeff_terms(c@.take(k as int), m as nat, r as nat));
        }
    }
    assert(c@.take(c@.len() as int) =~= c@);
    Word::new(terms)
}

/// Constructs a PC presentation for the affine group `AGL(1, q)`, `q = p^r`: the maps
/// `x -> a x + b` of `F_q`, of order `q (q - 1)`, as `(F_q, +) x| F_q^x`.
///
/// The generators `g_0, ..., g_{m-1}` of `F_q^x` have the prime factors of `q - 1` as relative
/// orders and power relations `g_j^{f_j} = g_{j+1}`; the translations `g_m, ..., g_{m+r-1}` have
/// order `p` and `[g_{m+i}, g_j]` is the word of `(alpha_j - 1) x^i` with `alpha_j` the power of
/// the primitive element that `g_j` multiplies by. For `q = 2` the group is `C_2`.
pub fn affine1d(p: u32, r: u32) -> (pres: Presentation)
    requires
        spec_is_prime(p as int),
        r >= 1,
        pow(p as int, r as nat) <= u32::MAX,
        crate::util::field::field_search_succeeds(p as nat, r as nat),
    ensures
        pres.wf(),
        pres.is_pc(),
        pow(p as int, r as nat) == 2 ==> pres.ro() == seq![2u32] && pres.pw(0).len() == 0,
        pow(p as int, r as nat) != 2 ==> exists|hf: Seq<u32>, poly: Seq<u32>, prim: Seq<u32>|
            #![trigger is_affine_presentation(pres, p as nat, r as nat, hf, poly, prim)]
            is_factorization(hf, (pow(p as int, r as nat) - 1) as nat) && field_data(p as nat, r as nat, poly, prim)
                && is_affine_presentation(pres, p as nat, r as nat, hf, poly, prim),
{
    let ru = r as usize;
    proof {
        crate::util::field::lemma_small_exponent(p as nat, r as nat);
    }
    let q = crate::util::field::pow_u64(p, ru) as u32;
    if q == 2 {
        let ro: Vec<u32> = vec![2];
        proof {
            assert(spec_is_prime(2));
            lemma_primes_accepted(ro@);
        }
        let pres = Builder::new(ro).expect("2 is prime").build();
        return pres;
    }
    proof {
        vstd::arithmetic::power::lemma_pow_strictly_increases(p as nat, 0, r as nat);
        assert(pow(p as int, 0) == 1) by {
            vstd::arithmetic::power::lemma_pow0(p as int);
        }
    }
    let h_factors = factorize(q - 1);
    let m = h_factors.len();
    proof {
        assert forall|i: int| 0 <= i < h_factors@.len() implies #[trigger] h_factors@[i] >= 2 by {
            assert(spec_is_prime(h_factors@[i] as int));
        }
        if q - 1 >= 2 {
            lemma_few_factors(h_factors@);
        } else {
            assert(h_factors@.len() == 0);
            assert(seq_product(h_factors@) == 1);
        }
        assert(is_factorization(h_factors@, (q - 1) as nat));
    }
    let field = FiniteField::new(p, ru);
    let ghost poly = field.poly@;
    let ghost prim = field.prim@;
    let ghost hf = h_factors@;
    // the multipliers alpha_j
    let mut alphas: Vec<Vec<u32>> = Vec::new();
    let mut s: u64 = 1;
    let mut j: usize = 0;
    while j < m
        invariant
            j <= m,
            m == hf.len(),
            hf == h_factors@,
            field.wf(),
            field.p == p,
            field.r == ru,
            1 <= field.prim@.len() <= ru,
            ru < 32,
            poly == field.poly@,
            prim == field.prim@,
            seq_product(hf) == q - 1,
            forall|i: int| 0 <= i < hf.len() ==> #[trigger] hf[i] >= 2,
            s == seq_product(hf.take(j as int)),
            alphas@.len() == j,
            forall|k: int| 0 <= k < j ==> (#[trigger] alphas@[k])@ == affine_alpha(poly, prim, p as nat, hf, k),
            forall|k: int| 0 <= k < j ==> (#[trigger] alphas@[k])@.len() <= ru + 1,
        decreases m - j,
    {
        let a = field.pow(&field.prim, s);
        alphas.push(a);
        proof {
            crate::util::field::lemma_ppow_len(prim, s as nat, poly, p as nat);
            lemma_partial_product(hf, j + 1);
            assert(hf.take(j + 1).drop_last() =~= hf.take(j as int));
            assert(hf.take(j + 1).last() == hf[j as int]);
        }
        s = s * (h_factors[j] as u64);
        j = j + 1;
    }
    // the relative orders and relation tables
    let total = m + ru;
    let mut ro: Vec<u32> = Vec::new();
    let mut pws: Vec<Word> = Vec::new();
    let mut g: usize = 0;
    while g < total
        invariant
            g <= total,
            total == m + ru,
            m == hf.len(),
            hf == h_factors@,
            ro@ == (hf + Seq::new(ru as nat, |i: int| p as u32)).take(g as int),
            pws@.len() == g,
            forall|h: int| 0 <= h < g ==> #[trigger] pws@[h].terms@ == if h + 1 < m {
                seq![Term { gen_index: (h + 1) as usize, exponent: 1 }]
            } else {
                Seq::<Term>::empty()
            },
        decreases total - g,
    {
        if g < m {
            ro.push(h_factors[g]);
        } else {
            ro.push(p);
        }
        if g + 1 < m {
            pws.push(Word::from_term(g + 1, 1));
        } else {
            pws.push(Word::identity());
        }
        assert(ro@ =~= (hf + Seq::new(ru as nat, |i: int| p as u32)).take(g + 1));
        g = g + 1;
    }
    assert(ro@ =~= hf + Seq::new(ru as nat, |i: int| p as u32));
    let one: Vec<u32> = vec![1];
    assert(one@ =~= seq![1u32]);
    let mut cms: Vec<Vec<Word>> = Vec::new();
    let mut a: usize = 0;
    while a < total
        invariant
            a <= total,
            total == m + ru,
            m == hf.len(),
            ru < 32,
            m <= 31,
            field.wf(),
            field.p == p,
            poly == field.poly@,
            prim == field.prim@,
            one@ == seq![1u32],
            alphas@.len() == m,
            forall|k: int| 0 <= k < m ==> (#[trigger] alphas@[k])@ == affine_alpha(poly, prim, p as nat, hf, k),
            forall|k: int| 0 <= k < m ==> (#[trigger] alphas@[k])@.len() <= ru + 1,
            cms@.len() == a,
            forall|x: int| 0 <= x < a ==> (#[trigger] cms@[x])@.len() == x,
            forall|x: int, y: int| 0 <= y < x < a ==> #[trigger] cms@[x]@[y].terms@ == if y < m <= x {
                affine_cross(poly, prim, p as nat, ru as nat, hf, (x - m) as nat, y)
            } else {
                Seq::<Term>::empty()
            },
        decreases total - a,
    {
        let mut row: Vec<Word> = Vec::new();
        let mut b: usize = 0;
        while b < a
            invariant
                b <= a < total,
                total == m + ru,
                m == hf.len(),
                ru < 32,
                m <= 31,
                field.wf(),
                field.p == p,
                poly == field.poly@,
                prim == field.prim@,
                one@ == seq![1u32],
                alphas@.len() == m,
                forall|k: int| 0 <= k < m ==> (#[trigger] alphas@[k])@ == affine_alpha(poly, prim, p as nat, hf, k),
                forall|k: int| 0 <= k < m ==> (#[trigger] alphas@[k])@.len() <= ru + 1,
                row@.len() == b,
                forall|y: int| 0 <= y < b ==> #[trigger] row@[y].terms@ == if y < m <= a {
                    affine_cross(poly, prim, p as nat, ru as nat, hf, (a - m) as nat, y)
                } else {
                    Seq::<Term>::empty()
                },
            decreases a - b,
        {
            if b < m && m <= a {
                let i = a - m;
                let x_i = field.basis_element(i);
                let am1 = field.sub(&alphas[b], &one);
                proof {
                    lemma_trimmed(Seq::new(
                        if alphas@[b as int]@.len() >= 1 { alphas@[b as int]@.len() } else { 1 },
                        |k: int| crate::util::field::sub_coeff(alphas@[b as int]@, seq![1u32], k, p as nat),
                    ));
                }
                let prod = field.mul(&am1, &x_i);
                row.push(terms_of(&prod, m, ru));
            } else {
                row.push(Word::identity());
            }
            b = b + 1;
        }
        cms.push(row);
        proof {
            assert forall|x: int| 0 <= x < a + 1 implies (#[trigger] cms@[x])@.len() == x by {}
        }
        a = a + 1;
    }
    let ghost rov = ro@;
    proof {
        assert forall|h: int| 0 <= h < total implies spec_is_prime(#[trigger] rov[h] as int) by {
            if h < m {
                assert(rov[h] == hf[h]);
            } else {
                assert(rov[h] == p);
            }
        }
        assert forall|x: int, y: int, t: int|
            0 <= y < x < total && 0 <= t < cms@[x]@[y].terms@.len() implies y < (#[trigger] cms@[x]@[y].terms@[t]).gen_index
                < total by {
            if y < m && m <= x {
                let c = prem(
                    pmul(psub(affine_alpha(poly, prim, p as nat, hf, y), seq![1u32], p as nat), monomial((x - m) as nat), p as nat),
                    poly,
                    p as nat,
                );
                lemma_coeff_terms(c, m as nat, ru as nat);
            }
        }
        assert(total * (total - 1) <= usize::MAX) by (nonlinear_arith)
            requires
                total <= 63,
        ;
    }
    let pres = assemble(ro, &pws, &cms);
    proof {
        assert(is_affine_presentation(pres, p as nat, r as nat, hf, poly, prim));
    }
    pres
}

} // verus!
