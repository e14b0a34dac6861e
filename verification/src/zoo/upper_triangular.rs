//! The Borel subgroups `B(n, q)` of invertible upper-triangular matrices over `F_q`.
use vstd::arithmetic::power::pow;
use vstd::prelude::*;

use crate::extension::assemble;
use crate::presentation::Presentation;
use crate::util::field::{
    field_data, field_search_succeeds, lemma_trimmed, monomial, pmul, ppow, prem, psub, FiniteField,
};
use crate::util::ntheory::{factorize, lemma_few_factors, seq_product, spec_is_prime};
use crate::word::{Term, Word};
use crate::zoo::affine1d::{affine_alpha, lemma_partial_product};
use crate::zoo::cyclic::is_factorization;
use crate::zoo::unipotent::{
    decode_pair, lemma_decode, lemma_pair_base_mono, lemma_pair_order, lemma_scaled_terms, lemma_split, num_pairs,
    pair_base, pair_index, scaled_terms, scaled_word, unipotent_commutator, unipotent_decode, unipotent_pair_count, unipotent_pair_index,
    unipotent_word,
};

verus! {

/// The inverse of a unit `a` of `F_q` as the field computes it: `a^(q - 2)`, or `1` for `q <= 2`.
pub open spec fn field_inverse(a: Seq<u32>, q: nat, poly: Seq<u32>, p: nat) -> Seq<u32> {
    if q <= 2 {
        seq![1u32]
    } else {
        ppow(a, (q - 2) as nat, poly, p)
    }
}

/// The word of `[u, d]` for the unipotent generator `u = I + x^l E_{i,j}` (local index `u`) and a
/// torus generator `d` scaling coordinate `x` by `alpha`: the coordinates of `(alpha^-1 - 1) x^l`
/// on `(i, j)` when `x = i`, those of `(alpha - 1) x^l` when `x = j`, otherwise trivial; the
/// unipotent generators start at `offset`.
pub open spec fn torus_word(
    n: nat,
    r: nat,
    p: nat,
    poly: Seq<u32>,
    offset: nat,
    alpha: Seq<u32>,
    alpha_inv: Seq<u32>,
    u: nat,
    x: nat,
) -> Seq<Term> {
    let (i, j) = decode_pair(n, u / r, 1);
    let l = u % r;
    let base = (offset + pair_index(n, i, j) * r) as nat;
    if x == i {
        scaled_terms(prem(pmul(psub(alpha_inv, seq![1u32], p), monomial(l), p), poly, p), base, r, p, false)
    } else if x == j {
        scaled_terms(prem(pmul(psub(alpha, seq![1u32], p), monomial(l), p), poly, p), base, r, p, false)
    } else {
        Seq::empty()
    }
}

/// A difference `a - 1` of reduced polynomials of at most `r + 1` coefficients has at most `r + 1`.
proof fn lemma_psub_len(a: Seq<u32>, p: nat, r: nat)
    requires
        a.len() <= r + 1,
    ensures
        psub(a, seq![1u32], p).len() <= r + 1,
{
    lemma_trimmed(
        Seq::new(
            if a.len() >= 1 {
                a.len()
            } else {
                1
            },
            |k: int| crate::util::field::sub_coeff(a, seq![1u32], k, p),
        ),
    );
}

/// The word of `[u, d]` for the local unipotent generator `u` and a torus generator scaling
/// coordinate `x` by `alpha`: see [`torus_word`].
fn torus_commutator(
    n: usize,
    r: usize,
    offset: usize,
    field: &FiniteField,
    alpha: &Vec<u32>,
    alpha_inv: &Vec<u32>,
    u: usize,
    x: usize,
) -> (w: Word)
    requires
        field.wf(),
        field.r == r,
        r < 32,
        alpha@.len() <= r + 1,
        alpha_inv@.len() <= r + 1,
        n * n <= usize::MAX,
        u < num_pairs(n as nat) * r,
        offset + num_pairs(n as nat) * r <= usize::MAX,
    ensures
        w.terms@ == torus_word(n as nat, r as nat, field.p as nat, field.poly@, offset as nat, alpha@, alpha_inv@, u as nat, x as nat),
        forall|t: int| 0 <= t < w.terms@.len() ==> offset <= (#[trigger] w.terms@[t]).gen_index < offset + num_pairs(n as nat) * r,
{
    let ghost np = num_pairs(n as nat) as int;
    proof {
        lemma_split(u as int, r as int, np);
        assert(pair_base(n as nat, 1) == 0);
        assert(pair_base(0, 0) == 0);
        assert(n >= 1);
        lemma_pair_base_mono(n as nat, 1, n as nat);
        lemma_decode(n as nat, (u / r) as nat, 1);
    }
    let k = u / r;
    let l = u % r;
    let (i, j) = unipotent_decode(n, k);
    if x != i && x != j {
        return Word::identity();
    }
    let t = unipotent_pair_index(n, i, j);
    proof {
        assert(t * r + r <= np * r) by (nonlinear_arith)
            requires
                0 <= t < np,
                r >= 0,
        ;
    }
    let base = offset + t * r;
    let one: Vec<u32> = vec![1];
    assert(one@ =~= seq![1u32]);
    let diff = if x == i {
        proof {
            lemma_psub_len(alpha_inv@, field.p as nat, r as nat);
        }
        field.sub(alpha_inv, &one)
    } else {
        proof {
            lemma_psub_len(alpha@, field.p as nat, r as nat);
        }
        field.sub(alpha, &one)
    };
    let x_l = field.basis_element(l);
    let prod = field.mul(&diff, &x_l);
    let w = scaled_word(&prod, base, r, field.p, false);
    proof {
        lemma_scaled_terms(prod@, base as nat, r as nat, field.p as nat, false);
    }
    w
}

/// The presentation of `B(n, p^r)` from the prime factors `hf` of `q - 1` and the field data:
/// for each coordinate `x < n` the `m = |hf|` torus generators `g_{x m + s}` of orders `hf[s]`,
/// chained by `g_{x m + s}^{hf[s]} = g_{x m + s + 1}`, then the generators of `U(n, q)` from
/// `n m` on with the commutators of [`unipotent_word`], and `[u, g_{x m + s}]` given by
/// [`torus_word`] with `alpha_s` of [`affine_alpha`]; the torus commutes.
pub open spec fn is_borel_presentation(
    pres: Presentation,
    n: nat,
    p: nat,
    r: nat,
    hf: Seq<u32>,
    poly: Seq<u32>,
    prim: Seq<u32>,
) -> bool {
    let m = hf.len() as int;
    let tt = n * m;
    let tu = num_pairs(n) * r;
    let q = pow(p as int, r) as nat;
    &&& pres.ro() == Seq::new(tt as nat, |g: int| hf[g % m]) + Seq::new(tu, |i: int| p as u32)
    &&& forall|g: int| 0 <= g < tt + tu ==> #[trigger] pres.pw(g) == if g < tt && g % m + 1 < m {
        seq![Term { gen_index: (g + 1) as usize, exponent: 1 }]
    } else {
        Seq::<Term>::empty()
    }
    &&& forall|a: int, b: int| 0 <= b < a < tt + tu ==> #[trigger] pres.cm(a, b) == borel_word(n, p, r, hf, poly, prim, q, a, b)
}

/// Within the torus block of `n` coordinates of `m` generators, a generator that is not the last
/// of its coordinate is followed by another.
proof fn lemma_chain_step(h: int, m: int, n: int)
    requires
        0 <= h < n * m,
        m > 0,
        h % m + 1 < m,
    ensures
        h + 1 < n * m,
{
    vstd::arithmetic::div_mod::lemma_fundamental_div_mod(h, m);
    let q = h / m;
    let s = h % m;
    assert(h + 1 < n * m) by (nonlinear_arith)
        requires
            h == m * q + s,
            s + 1 < m,
            0 <= h < n * m,
            m > 0,
            s >= 0,
    ;
}

/// The commutator word of `[g_a, g_b]`, `b < a`, in [`is_borel_presentation`].
pub open spec fn borel_word(
    n: nat,
    p: nat,
    r: nat,
    hf: Seq<u32>,
    poly: Seq<u32>,
    prim: Seq<u32>,
    q: nat,
    a: int,
    b: int,
) -> Seq<Term> {
    let m = hf.len() as int;
    let tt = n * m;
    if b >= tt {
        unipotent_word(n, r, p, poly, tt as nat, (a - tt) as nat, (b - tt) as nat)
    } else if a >= tt {
        torus_word(
            n,
            r,
            p,
            poly,
            tt as nat,
            affine_alpha(poly, prim, p, hf, b % m),
            field_inverse(affine_alpha(poly, prim, p, hf, b % m), q, poly, p),
            (a - tt) as nat,
            (b / m) as nat,
        )
    } else {
        Seq::<Term>::empty()
    }
}

/// Constructs a PC presentation for the Borel subgroup `B(n, q)` of `GL(n, q)`, `q = p^r`: the
/// invertible upper-triangular `n x n` matrices over `F_q`, of order `(q - 1)^n q^(n (n - 1) / 2)`,
/// as `U(n, q) x| T(n, q)` with the diagonal torus `T(n, q) = (F_q^x)^n`.
///
/// The torus comes first: for each coordinate the generators of `F_q^x` along the prime factors
/// of `q - 1`; the unipotent generators follow as in [`crate::zoo::unipotent()`]. The torus
/// generator of coordinate `x` multiplying by `alpha` scales row `x` of `U` by `alpha^-1` and
/// column `x` by `alpha`: see [`is_borel_presentation`].
pub fn upper_triangular(n: usize, p: u32, r: u32) -> (pres: Presentation)
    requires
        n >= 1,
        spec_is_prime(p as int),
        r >= 1,
        pow(p as int, r as nat) <= u32::MAX,
        field_search_succeeds(p as nat, r as nat),
        (31 * n + num_pairs(n as nat) * r) * (31 * n + num_pairs(n as nat) * r) <= usize::MAX,
    ensures
        pres.wf(),
        pres.is_pc(),
        exists|hf: Seq<u32>, poly: Seq<u32>, prim: Seq<u32>|
            #![trigger is_borel_presentation(pres, n as nat, p as nat, r as nat, hf, poly, prim)]
            is_factorization(hf, (pow(p as int, r as nat) - 1) as nat) && field_data(p as nat, r as nat, poly, prim)
                && is_borel_presentation(pres, n as nat, p as nat, r as nat, hf, poly, prim),
{
    let ru = r as usize;
    proof {
        crate::util::field::lemma_small_exponent(p as nat, r as nat);
        vstd::arithmetic::power::lemma_pow_strictly_increases(p as nat, 0, r as nat);
        assert(pow(p as int, 0) == 1) by {
            vstd::arithmetic::power::lemma_pow0(p as int);
        }
    }
    let q = crate::util::field::pow_u64(p, ru) as u32;
    let h_factors = factorize(q - 1);
    let m = h_factors.len();
    let ghost hf = h_factors@;
    proof {
        assert forall|i: int| 0 <= i < hf.len() implies #[trigger] hf[i] >= 2 by {
            assert(spec_is_prime(hf[i] as int));
        }
        if q - 1 >= 2 {
            lemma_few_factors(hf);
        } else {
            assert(hf.len() == 0);
            assert(seq_product(hf) == 1);
        }
        assert(is_factorization(hf, (q - 1) as nat));
    }
    let ghost bound = 31 * n + num_pairs(n as nat) * ru;
    proof {
        assert(n * n <= usize::MAX && n * m <= 31 * n && bound <= usize::MAX) by (nonlinear_arith)
            requires
                bound * bound <= usize::MAX,
                bound == 31 * n + num_pairs(n as nat) * ru,
                m <= 31,
                n >= 1,
        ;
        assert(num_pairs(n as nat) * ru <= bound);
    }
    let tt = n * m;
    let np = unipotent_pair_count(n);
    let tu = np * ru;
    let total = tt + tu;
    let field = FiniteField::new(p, ru);
    let ghost poly = field.poly@;
    let ghost prim = field.prim@;
    // the multipliers alpha_s and their inverses
    let mut alphas: Vec<Vec<u32>> = Vec::new();
    let mut alphas_inv: Vec<Vec<u32>> = Vec::new();
    let mut sp: u64 = 1;
    let mut j: usize = 0;
    while j < m
        invariant
            j <= m,
            m == hf.len(),
            hf == h_factors@,
            field.wf(),
            field.p == p,
            field.r == ru,
            field.q == q,
            1 <= field.prim@.len() <= ru,
            ru < 32,
            poly == field.poly@,
            prim == field.prim@,
            seq_product(hf) == q - 1,
            forall|i: int| 0 <= i < hf.len() ==> #[trigger] hf[i] >= 2,
            sp == seq_product(hf.take(j as int)),
            alphas@.len() == j,
            alphas_inv@.len() == j,
            forall|k: int| 0 <= k < j ==> (#[trigger] alphas@[k])@ == affine_alpha(poly, prim, p as nat, hf, k),
            forall|k: int| 0 <= k < j ==> (#[trigger] alphas_inv@[k])@ == field_inverse(
                affine_alpha(poly, prim, p as nat, hf, k),
                q as nat,
                poly,
                p as nat,
            ),
            forall|k: int| 0 <= k < j ==> (#[trigger] alphas@[k])@.len() <= ru + 1,
            forall|k: int| 0 <= k < j ==> (#[trigger] alphas_inv@[k])@.len() <= ru + 1,
        decreases m - j,
    {
        let a = field.pow(&field.prim, sp);
        proof {
            crate::util::field::lemma_ppow_len(prim, sp as nat, poly, p as nat);
        }
        let ai = field.inv(&a);
        proof {
            crate::util::field::lemma_ppow_len(a@, (q - 2) as nat, poly, p as nat);
        }
        alphas.push(a);
        alphas_inv.push(ai);
        proof {
            lemma_partial_product(hf, j + 1);
            assert(hf.take(j + 1).drop_last() =~= hf.take(j as int));
            assert(hf.take(j + 1).last() == hf[j as int]);
        }
        sp = sp * (h_factors[j] as u64);
        j = j + 1;
    }
    // the relative orders and power relations
    let ghost rov = Seq::new(tt as nat, |g: int| hf[g % (m as int)]) + Seq::new(tu as nat, |i: int| p as u32);
    let mut ro: Vec<u32> = Vec::new();
    let mut pws: Vec<Word> = Vec::new();
    let mut g: usize = 0;
    while g < total
        invariant
            g <= total,
            total == tt + tu,
            tt == n * m,
            m == hf.len(),
            hf == h_factors@,
            rov == Seq::new(tt as nat, |g: int| hf[g % (m as int)]) + Seq::new(tu as nat, |i: int| p as u32),
            ro@ == rov.take(g as int),
            pws@.len() == g,
            forall|h: int| 0 <= h < g ==> #[trigger] pws@[h].terms@ == if h < tt && h % (m as int) + 1 < m {
                seq![Term { gen_index: (h + 1) as usize, exponent: 1 }]
            } else {
                Seq::<Term>::empty()
            },
        decreases total - g,
    {
        if g < tt {
            assert(m > 0) by (nonlinear_arith)
                requires
                    g < tt,
                    tt == n * m,
            ;
            ro.push(h_factors[g % m]);
            if g % m + 1 < m {
                pws.push(Word::from_term(g + 1, 1));
            } else {
                pws.push(Word::identity());
            }
        } else {
            ro.push(p);
            pws.push(Word::identity());
        }
        assert(ro@ =~= rov.take(g + 1));
        g = g + 1;
    }
    assert(ro@ =~= rov);
    // the commutator relations
    let ghost qn = q as nat;
    let mut cms: Vec<Vec<Word>> = Vec::new();
    let mut a: usize = 0;
    while a < total
        invariant
            a <= total,
            total == tt + tu,
            tt == n * m,
            tu == num_pairs(n as nat) * ru,
            m == hf.len(),
            n * n <= usize::MAX,
            ru < 32,
            field.wf(),
            field.p == p,
            field.r == ru,
            qn == q,
            poly == field.poly@,
            alphas@.len() == m,
            alphas_inv@.len() == m,
            forall|k: int| 0 <= k < m ==> (#[trigger] alphas@[k])@ == affine_alpha(poly, prim, p as nat, hf, k),
            forall|k: int| 0 <= k < m ==> (#[trigger] alphas_inv@[k])@ == field_inverse(
                affine_alpha(poly, prim, p as nat, hf, k),
                qn,
                poly,
                p as nat,
            ),
            forall|k: int| 0 <= k < m ==> (#[trigger] alphas@[k])@.len() <= ru + 1,
            forall|k: int| 0 <= k < m ==> (#[trigger] alphas_inv@[k])@.len() <= ru + 1,
            cms@.len() == a,
            forall|x: int| 0 <= x < a ==> (#[trigger] cms@[x])@.len() == x,
            forall|x: int, y: int| 0 <= y < x < a ==> #[trigger] cms@[x]@[y].terms@ == borel_word(
                n as nat,
                p as nat,
                ru as nat,
                hf,
                poly,
                prim,
                qn,
                x,
                y,
            ),
            forall|x: int, y: int, k: int|
                0 <= y < x < a && 0 <= k < cms@[x]@[y].terms@.len() ==> y < (#[trigger] cms@[x]@[y].terms@[k]).gen_index
                    < total,
        decreases total - a,
    {
        let mut row: Vec<Word> = Vec::new();
        let mut b: usize = 0;
        while b < a
            invariant
                b <= a < total,
                total == tt + tu,
                tt == n * m,
                tu == num_pairs(n as nat) * ru,
                m == hf.len(),
                n * n <= usize::MAX,
                ru < 32,
                field.wf(),
                field.p == p,
                field.r == ru,
                qn == q,
                poly == field.poly@,
                alphas@.len() == m,
                alphas_inv@.len() == m,
                forall|k: int| 0 <= k < m ==> (#[trigger] alphas@[k])@ == affine_alpha(poly, prim, p as nat, hf, k),
                forall|k: int| 0 <= k < m ==> (#[trigger] alphas_inv@[k])@ == field_inverse(
                    affine_alpha(poly, prim, p as nat, hf, k),
                    qn,
                    poly,
                    p as nat,
                ),
                forall|k: int| 0 <= k < m ==> (#[trigger] alphas@[k])@.len() <= ru + 1,
                forall|k: int| 0 <= k < m ==> (#[trigger] alphas_inv@[k])@.len() <= ru + 1,
                row@.len() == b,
                forall|y: int| 0 <= y < b ==> #[trigger] row@[y].terms@ == borel_word(
                    n as nat,
                    p as nat,
                    ru as nat,
                    hf,
                    poly,
                    prim,
                    qn,
                    a as int,
                    y,
                ),
                forall|y: int, k: int|
                    0 <= y < b && 0 <= k < row@[y].terms@.len() ==> y < (#[trigger] row@[y].terms@[k]).gen_index < total,
            decreases a - b,
        {
            if b >= tt {
                row.push(unipotent_commutator(n, ru, tt, &field, a - tt, b - tt));
            } else if a >= tt {
                proof {
                    vstd::arithmetic::div_mod::lemma_mod_bound(b as int, m as int);
                }
                let s = b % m;
                let w = torus_commutator(n, ru, tt, &field, &alphas[s], &alphas_inv[s], a - tt, b / m);
                row.push(w);
            } else {
                row.push(Word::identity());
            }
            b = b + 1;
        }
        cms.push(row);
        proof {
            assert forall|x: int| 0 <= x < a + 1 implies (#[trigger] cms@[x])@.len() == x by {}
        }
        a = a + 1;
    }
    proof {
        assert forall|h: int| 0 <= h < total implies spec_is_prime(#[trigger] rov[h] as int) by {
            if h < tt {
                vstd::arithmetic::div_mod::lemma_mod_bound(h, m as int);
                assert(rov[h] == hf[h % (m as int)]);
            } else {
                assert(rov[h] == p);
            }
        }
        assert forall|h: int, t: int| 0 <= h < total && 0 <= t < pws@[h].terms@.len() implies h < (
        #[trigger] pws@[h].terms@[t]).gen_index < total by {
            lemma_chain_step(h, m as int, n as int);
        }
        assert(total * (total - 1) <= usize::MAX) by (nonlinear_arith)
            requires
                total <= bound,
                bound * bound <= usize::MAX,
        ;
    }
    let pres = assemble(ro, &pws, &cms);
    proof {
        assert(is_borel_presentation(pres, n as nat, p as nat, r as nat, hf, poly, prim));
    }
    pres
}

} // verus!
