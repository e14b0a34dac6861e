//! Group element representation and arithmetic for polycyclic (PC) groups.
//!
//! An [`Element`] binds a normal form [`Word`] to its [`Presentation`]; products are computed by
//! collection, powers by binary exponentiation, and inverses from the power relations.
use vstd::prelude::*;

use crate::collection::{
    exp_of, gens_at_least, lemma_counts_concat, lemma_halts, lemma_run_concat, lemma_run_val, run,
    term_fits, valid_state,
};
use crate::collector::{
    exps_to_terms, lemma_exps_to_terms, lemma_exps_to_terms_normal, lemma_place_roundtrip,
    lemma_run_normal, zeros, Collector,
};
use vstd::arithmetic::div_mod::{
    lemma_add_mod_noop, lemma_add_mod_noop_right, lemma_mod_multiples_vanish, lemma_mod_twice,
    lemma_mul_mod_noop_right, lemma_small_mod,
};
use crate::presentation::Presentation;
use crate::util::ntheory::spec_is_prime;
use crate::word::{is_normal_terms, Term, Word};

verus! {

/// The normal form of the word with terms `ts`: collect it from the identity and read off the
/// exponent vector.
pub open spec fn normal_form(pres: Presentation, ts: Seq<Term>) -> Seq<Term> {
    exps_to_terms(run(pres, (zeros(pres.n()), ts.reverse())).0)
}

/// Binary exponentiation as [`Element::pow`] performs it: `acc` times `base^k`, squaring `base`
/// and multiplying it into `acc` at the set bits of `k`.
pub open spec fn binary_power(pres: Presentation, acc: Seq<Term>, base: Seq<Term>, k: nat) -> Seq<
    Term,
>
    decreases k,
{
    if k == 0 {
        acc
    } else {
        let acc2 = if k % 2 == 1 {
            normal_form(pres, acc + base)
        } else {
            acc
        };
        if k / 2 > 0 {
            binary_power(pres, acc2, normal_form(pres, base + base), k / 2)
        } else {
            acc2
        }
    }
}

/// The terms of `ts^k`, computed by binary exponentiation from the identity.
pub open spec fn power_terms(pres: Presentation, ts: Seq<Term>, k: nat) -> Seq<Term> {
    binary_power(pres, Seq::<Term>::empty(), ts, k)
}

/// The smallest generator index among the terms, or `n` if there are none.
pub open spec fn min_gen(ts: Seq<Term>, n: nat) -> nat
    decreases ts.len(),
{
    if ts.len() == 0 {
        n
    } else {
        let m = min_gen(ts.drop_last(), n);
        if (ts.last().gen_index as nat) < m {
            ts.last().gen_index as nat
        } else {
            m
        }
    }
}

/// The smallest generator index is at most `n` and at most every generator index.
pub proof fn lemma_min_gen(ts: Seq<Term>, n: nat)
    ensures
        min_gen(ts, n) <= n,
        forall|i: int| 0 <= i < ts.len() ==> min_gen(ts, n) <= (#[trigger] ts[i]).gen_index,
        ts.len() > 0 && min_gen(ts, n) < n ==> exists|i: int|
            0 <= i < ts.len() && min_gen(ts, n) == (#[trigger] ts[i]).gen_index,
    decreases ts.len(),
{
    if ts.len() > 0 {
        let d = ts.drop_last();
        lemma_min_gen(d, n);
        assert forall|i: int| 0 <= i < ts.len() - 1 implies min_gen(d, n) <= (
        #[trigger] ts[i]).gen_index by {
            assert(d[i] == ts[i]);
        }
        if min_gen(ts, n) < n && min_gen(ts, n) != ts.last().gen_index {
            let i = choose|i: int| 0 <= i < d.len() && min_gen(d, n) == (#[trigger] d[i]).gen_index;
            assert(d[i] == ts[i]);
        }
    }
}

/// The inverse of the word with terms `ts`, as [`Element::inverse`] computes it: the inverses of
/// the terms multiplied in reverse order.
pub open spec fn inverse_terms(pres: Presentation, ts: Seq<Term>) -> Seq<Term>
    decreases pres.n() - min_gen(ts, pres.n()), 1int, ts.len(),
{
    if ts.len() == 0 {
        Seq::<Term>::empty()
    } else {
        let t = ts.last();
        if t.gen_index < pres.n() {
            proof {
                lemma_min_gen(ts, pres.n());
                lemma_min_gen(ts.drop_last(), pres.n());
            }
            normal_form(
                pres,
                power_terms(pres, generator_inverse_terms(pres, t.gen_index as nat), t.exponent as nat)
                    + inverse_terms(pres, ts.drop_last()),
            )
        } else {
            Seq::<Term>::empty()
        }
    }
}

/// The inverse of the generator `g_g`, as `g_g^{p-1} (g_g^p)^{-1}` with the power relation word
/// `g_g^p`.
pub open spec fn generator_inverse_terms(pres: Presentation, g: nat) -> Seq<Term>
    decreases pres.n() - g, 0int, 0nat,
{
    if g >= pres.n() {
        Seq::<Term>::empty()
    } else {
        let p = pres.ro()[g as int];
        let g_pow = if p > 1 {
            seq![Term { gen_index: g as usize, exponent: (p - 1) as u32 }]
        } else {
            Seq::<Term>::empty()
        };
        let tail = pres.pw(g as int);
        if tail.len() == 0 {
            g_pow
        } else if min_gen(tail, pres.n()) > g {
            proof {
                lemma_min_gen(tail, pres.n());
            }
            normal_form(pres, g_pow + inverse_terms(pres, tail))
        } else {
            Seq::<Term>::empty()
        }
    }
}

/// A normal form word is its own normal form.
pub proof fn lemma_normal_form_of_normal(pres: Presentation, ts: Seq<Term>)
    requires
        pres.collectable(),
        is_normal_terms(ts, pres.ro()),
    ensures
        normal_form(pres, ts) == ts,
{
    pres.lemma_n_fits();
    lemma_run_normal(pres, zeros(pres.n()), ts);
    lemma_place_roundtrip(pres.n(), ts);
}

/// Every normal form of a word with fitting terms in range is a normal form word.
pub proof fn lemma_normal_form_normal(pres: Presentation, ts: Seq<Term>)
    requires
        pres.collectable(),
        forall|i: int| 0 <= i < ts.len() ==> term_fits(#[trigger] ts[i], pres.ro()),
    ensures
        is_normal_terms(normal_form(pres, ts), pres.ro()),
{
    let s = (zeros(pres.n()), ts.reverse());
    assert(valid_state(pres, s)) by {
        assert forall|i: int| 0 <= i < ts.reverse().len() implies term_fits(
            #[trigger] ts.reverse()[i],
            pres.ro(),
        ) by {
            assert(ts.reverse()[i] == ts[ts.len() - 1 - i]);
        }
        assert forall|i: int| 0 <= i < s.0.len() implies #[trigger] s.0[i] < pres.ro()[i] by {
            assert(spec_is_prime(pres.ro()[i] as int));
        }
    }
    lemma_halts(pres, s);
    pres.lemma_n_fits();
    lemma_exps_to_terms_normal(run(pres, s).0, pres.ro());
}

/// The terms of a normal form word fit.
pub proof fn lemma_normal_fits(pres: Presentation, ts: Seq<Term>)
    requires
        pres.collectable(),
        is_normal_terms(ts, pres.ro()),
    ensures
        forall|i: int| 0 <= i < ts.len() ==> term_fits(#[trigger] ts[i], pres.ro()),
{
    assert forall|i: int| 0 <= i < ts.len() implies term_fits(#[trigger] ts[i], pres.ro()) by {
        assert(pres.ro()[ts[i].gen_index as int] <= 0x8000_0000);
    }
}

/// Collecting `x` after `acc` from the identity is collecting the concatenation `acc x`.
pub proof fn lemma_collect_more(pres: Presentation, acc: Seq<Term>, x: Seq<Term>)
    requires
        pres.collectable(),
        forall|i: int| 0 <= i < acc.len() ==> term_fits(#[trigger] acc[i], pres.ro()),
        forall|i: int| 0 <= i < x.len() ==> term_fits(#[trigger] x[i], pres.ro()),
    ensures
        run(pres, (run(pres, (zeros(pres.n()), acc.reverse())).0, x.reverse())).0 == run(
            pres,
            (zeros(pres.n()), (acc + x).reverse()),
        ).0,
        forall|i: int| 0 <= i < (acc + x).len() ==> term_fits(#[trigger] (acc + x)[i], pres.ro()),
{
    assert((acc + x).reverse() =~= x.reverse() + acc.reverse());
    let st = x.reverse() + acc.reverse();
    assert forall|i: int| 0 <= i < st.len() implies term_fits(#[trigger] st[i], pres.ro()) by {
        if i < x.len() {
            assert(st[i] == x[x.len() - 1 - i]);
        } else {
            assert(st[i] == acc[acc.len() - 1 - (i - x.len())]);
        }
    }
    assert forall|i: int| 0 <= i < pres.n() implies #[trigger] zeros(pres.n())[i] < pres.ro()[i] by {
        assert(spec_is_prime(pres.ro()[i] as int));
    }
    assert(valid_state(pres, (zeros(pres.n()), st)));
    lemma_run_concat(pres, zeros(pres.n()), x.reverse(), acc.reverse());
    assert forall|i: int| 0 <= i < (acc + x).len() implies term_fits(#[trigger] (acc + x)[i], pres.ro()) by {
        if i < acc.len() {
            assert((acc + x)[i] == acc[i]);
        } else {
            assert((acc + x)[i] == x[i - acc.len()]);
        }
    }
}

/// Collecting `a` and then `b` from the identity is collecting the concatenation `a b`, and gives
/// a normal form word.
pub proof fn lemma_product(pres: Presentation, a: Seq<Term>, b: Seq<Term>)
    requires
        pres.collectable(),
        is_normal_terms(a, pres.ro()),
        is_normal_terms(b, pres.ro()),
    ensures
        run(pres, (run(pres, (zeros(pres.n()), a.reverse())).0, b.reverse())).0 == run(
            pres,
            (zeros(pres.n()), (a + b).reverse()),
        ).0,
        is_normal_terms(normal_form(pres, a + b), pres.ro()),
{
    lemma_normal_fits(pres, a);
    lemma_normal_fits(pres, b);
    lemma_collect_more(pres, a, b);
    lemma_normal_form_normal(pres, a + b);
}

/// The identity is a two-sided unit for the product of normal form words.
pub proof fn lemma_identity_product(pres: Presentation, ts: Seq<Term>)
    requires
        pres.collectable(),
        is_normal_terms(ts, pres.ro()),
    ensures
        normal_form(pres, Seq::<Term>::empty() + ts) == ts,
        normal_form(pres, ts + Seq::<Term>::empty()) == ts,
{
    assert(Seq::<Term>::empty() + ts =~= ts);
    assert(ts + Seq::<Term>::empty() =~= ts);
    lemma_normal_form_of_normal(pres, ts);
}

/// Multiplying in turn is collecting the whole word: for normal form words `a`, `b` and `c`, the
/// product `(a b) c` is the normal form of the concatenation `a b c`.
pub proof fn lemma_product_is_collection(pres: Presentation, a: Seq<Term>, b: Seq<Term>, c: Seq<Term>)
    requires
        pres.collectable(),
        is_normal_terms(a, pres.ro()),
        is_normal_terms(b, pres.ro()),
        is_normal_terms(c, pres.ro()),
    ensures
        normal_form(pres, normal_form(pres, a + b) + c) == normal_form(pres, a + b + c),
{
    let ab = a + b;
    let t = normal_form(pres, ab);
    lemma_product(pres, a, b);
    lemma_normal_fits(pres, a);
    lemma_normal_fits(pres, b);
    lemma_normal_fits(pres, c);
    lemma_collect_more(pres, a, b);
    lemma_normal_fits(pres, t);
    lemma_collect_more(pres, t, c);
    lemma_collect_more(pres, ab, c);
    let z = zeros(pres.n());
    let e = run(pres, (z, ab.reverse())).0;
    assert(valid_state(pres, (z, ab.reverse()))) by {
        assert forall|i: int| 0 <= i < ab.reverse().len() implies term_fits(#[trigger] ab.reverse()[i], pres.ro()) by {
            assert(ab.reverse()[i] == ab[ab.len() - 1 - i]);
        }
        assert forall|i: int| 0 <= i < z.len() implies #[trigger] z[i] < pres.ro()[i] by {
            assert(spec_is_prime(pres.ro()[i] as int));
        }
    }
    lemma_halts(pres, (z, ab.reverse()));
    pres.lemma_n_fits();
    lemma_normal_exps(pres, t);
    assert forall|g: int| 0 <= g < pres.n() implies #[trigger] run(pres, (z, t.reverse())).0[g] == e[g] by {
        lemma_exps_to_terms_exp(e, g as nat);
    }
    assert(run(pres, (z, t.reverse())).0 =~= e);
    assert(a + b + c =~= ab + c);
}

/// The zeroth power is the identity, the first power is the word itself and the second power is
/// the product of the word with itself.
pub proof fn lemma_small_powers(pres: Presentation, ts: Seq<Term>)
    requires
        pres.collectable(),
        is_normal_terms(ts, pres.ro()),
    ensures
        power_terms(pres, ts, 0) == Seq::<Term>::empty(),
        power_terms(pres, ts, 1) == ts,
        power_terms(pres, ts, 2) == normal_form(pres, ts + ts),
{
    lemma_identity_product(pres, ts);
    let sq = normal_form(pres, ts + ts);
    assert(power_terms(pres, ts, 2) == binary_power(pres, Seq::<Term>::empty(), sq, 1));
    lemma_normal_fits(pres, ts);
    assert forall|i: int| 0 <= i < (ts + ts).len() implies term_fits(#[trigger] (ts + ts)[i], pres.ro()) by {
        if i < ts.len() {
            assert((ts + ts)[i] == ts[i]);
        } else {
            assert((ts + ts)[i] == ts[i - ts.len()]);
        }
    }
    lemma_normal_form_normal(pres, ts + ts);
    lemma_identity_product(pres, sq);
}

// ---------------------------------------------------------------------------
// Valuations: the exponent of the smallest generator is additive under products.

/// Reading off the terms of an exponent vector keeps each generator's exponent.
pub proof fn lemma_exps_to_terms_exp(e: Seq<u32>, g: nat)
    requires
        e.len() <= usize::MAX,
    ensures
        exp_of(exps_to_terms(e), g) == if g < e.len() {
            e[g as int] as nat
        } else {
            0
        },
    decreases e.len(),
{
    if e.len() > 0 {
        let d = e.drop_last();
        lemma_exps_to_terms_exp(d, g);
        if e.last() > 0 {
            let t = Term { gen_index: (e.len() - 1) as usize, exponent: e.last() };
            assert(exps_to_terms(e).drop_last() == exps_to_terms(d));
            assert(exps_to_terms(e).last() == t);
        }
        if g < d.len() {
            assert(d[g as int] == e[g as int]);
        }
    }
}

/// Terms without generator `g` have no exponent of `g`.
pub proof fn lemma_exp_of_absent(ts: Seq<Term>, g: nat)
    requires
        forall|i: int| 0 <= i < ts.len() ==> (#[trigger] ts[i]).gen_index != g,
    ensures
        exp_of(ts, g) == 0,
    decreases ts.len(),
{
    if ts.len() > 0 {
        assert forall|i: int| 0 <= i < ts.drop_last().len() implies (
        #[trigger] ts.drop_last()[i]).gen_index != g by {
            assert(ts.drop_last()[i] == ts[i]);
        }
        lemma_exp_of_absent(ts.drop_last(), g);
        assert(ts.last() == ts[ts.len() - 1]);
    }
}

/// Reversal keeps the exponent of every generator.
pub proof fn lemma_exp_of_reverse(ts: Seq<Term>, g: nat)
    ensures
        exp_of(ts.reverse(), g) == exp_of(ts, g),
    decreases ts.len(),
{
    if ts.len() > 0 {
        let d = ts.drop_last();
        lemma_exp_of_reverse(d, g);
        let one = seq![ts.last()];
        assert(ts.reverse() =~= one + d.reverse());
        lemma_counts_concat(one, d.reverse(), g);
        assert(one.drop_last() =~= Seq::<Term>::empty());
        assert(one.last() == ts.last());
        assert(exp_of(one.drop_last(), g) == 0);
        assert(exp_of(one, g) == if ts.last().gen_index == g {
            ts.last().exponent as nat
        } else {
            0
        });
    }
}

/// The collected exponent vector of a normal form word holds its exponents, each below the
/// relative order.
pub proof fn lemma_normal_exps(pres: Presentation, ts: Seq<Term>)
    requires
        pres.collectable(),
        is_normal_terms(ts, pres.ro()),
    ensures
        run(pres, (zeros(pres.n()), ts.reverse())).0.len() == pres.n(),
        forall|g: int|
            0 <= g < pres.n() ==> exp_of(ts, g as nat) == #[trigger] run(
                pres,
                (zeros(pres.n()), ts.reverse()),
            ).0[g] && run(pres, (zeros(pres.n()), ts.reverse())).0[g] < pres.ro()[g],
        forall|g: nat| g < pres.n() ==> #[trigger] exp_of(ts, g) < pres.ro()[g as int],
{
    pres.lemma_n_fits();
    let e = run(pres, (zeros(pres.n()), ts.reverse())).0;
    lemma_normal_form_normal(pres, ts);
    lemma_normal_form_of_normal(pres, ts);
    lemma_normal_fits(pres, ts);
    let s = (zeros(pres.n()), ts.reverse());
    assert(valid_state(pres, s)) by {
        assert forall|i: int| 0 <= i < ts.reverse().len() implies term_fits(
            #[trigger] ts.reverse()[i],
            pres.ro(),
        ) by {
            assert(ts.reverse()[i] == ts[ts.len() - 1 - i]);
        }
        assert forall|i: int| 0 <= i < s.0.len() implies #[trigger] s.0[i] < pres.ro()[i] by {
            assert(spec_is_prime(pres.ro()[i] as int));
        }
    }
    lemma_halts(pres, s);
    assert forall|g: int| 0 <= g < pres.n() implies exp_of(ts, g as nat) == #[trigger] e[g] by {
        lemma_exps_to_terms_exp(e, g as nat);
    }
    assert forall|g: nat| g < pres.n() implies #[trigger] exp_of(ts, g) < pres.ro()[g as int] by {
        assert(exp_of(ts, g) == e[g as int]);
    }
}

/// A normal form word with all generators at least `m` has no exponent below `m`.
pub proof fn lemma_exp_below(ts: Seq<Term>, m: nat, g: nat)
    requires
        gens_at_least(ts, m),
        g < m,
    ensures
        exp_of(ts, g) == 0,
{
    assert forall|i: int| 0 <= i < ts.len() implies (#[trigger] ts[i]).gen_index != g by {}
    lemma_exp_of_absent(ts, g);
}

/// Multiplying a normal form word `a` by terms `w` in generators `>= m` leaves the exponents of
/// `a` below `m` alone and adds the exponents of `g_m` modulo `p_m`.
pub proof fn lemma_product_val(pres: Presentation, a: Seq<Term>, w: Seq<Term>, m: nat)
    requires
        pres.collectable(),
        is_normal_terms(a, pres.ro()),
        forall|i: int| 0 <= i < w.len() ==> term_fits(#[trigger] w[i], pres.ro()),
        gens_at_least(w, m),
        m < pres.n(),
    ensures
        is_normal_terms(normal_form(pres, a + w), pres.ro()),
        forall|g: nat| g < m ==> #[trigger] exp_of(normal_form(pres, a + w), g) == exp_of(a, g),
        exp_of(normal_form(pres, a + w), m) as int == ((exp_of(a, m) + exp_of(w, m)) as int) % (
        pres.ro()[m as int] as int),
        gens_at_least(a, m) ==> gens_at_least(normal_form(pres, a + w), m),
{
    let z = zeros(pres.n());
    lemma_normal_fits(pres, a);
    lemma_collect_more(pres, a, w);
    lemma_normal_form_normal(pres, a + w);
    lemma_normal_exps(pres, a);
    let ea = run(pres, (z, a.reverse())).0;
    let s = (ea, w.reverse());
    assert(valid_state(pres, s)) by {
        assert forall|i: int| 0 <= i < w.reverse().len() implies term_fits(
            #[trigger] w.reverse()[i],
            pres.ro(),
        ) by {
            assert(w.reverse()[i] == w[w.len() - 1 - i]);
        }
    }
    assert(gens_at_least(w.reverse(), m)) by {
        assert forall|i: int| 0 <= i < w.reverse().len() implies (#[trigger] w.reverse()[i]).gen_index
            >= m by {
            assert(w.reverse()[i] == w[w.len() - 1 - i]);
        }
    }
    lemma_run_val(pres, s, m);
    lemma_exp_of_reverse(w, m);
    let e = run(pres, s).0;
    assert(e == run(pres, (z, (a + w).reverse())).0);
    lemma_halts(pres, s);
    pres.lemma_n_fits();
    assert forall|g: nat| g < m implies #[trigger] exp_of(normal_form(pres, a + w), g) == exp_of(a, g) by {
        lemma_exps_to_terms_exp(e, g);
        assert(exp_of(a, g) == ea[g as int]);
    }
    lemma_exps_to_terms_exp(e, m);
    if gens_at_least(a, m) {
        pres.lemma_n_fits();
        lemma_exps_to_terms(e);
        let r = normal_form(pres, a + w);
        assert forall|i: int| 0 <= i < r.len() implies (#[trigger] r[i]).gen_index >= m by {
            let g = r[i].gen_index as nat;
            if g < m {
                lemma_exp_below(a, m, g);
                assert(e[g as int] == ea[g as int]);
            }
        }
    }
}

/// Modular arithmetic of one round of binary exponentiation.
proof fn lemma_binary_round(a: int, b: int, a2: int, b2: int, r: int, k: int, p: int)
    requires
        p > 0,
        k >= 1,
        a2 == (a + (k % 2) * b) % p,
        b2 == (2 * b) % p,
        r == (a2 + (k / 2) * b2) % p,
    ensures
        r == (a + k * b) % p,
{
    let h = k / 2;
    let x = a + (k % 2) * b;
    lemma_add_mod_noop(a2, h * b2, p);
    lemma_mod_twice(x, p);
    assert(a2 % p == a2);
    assert((a2 + h * b2) % p == (a2 + (h * b2) % p) % p) by {
        lemma_add_mod_noop_right(a2, h * b2, p);
    }
    lemma_mul_mod_noop_right(h, 2 * b, p);
    assert((h * b2) % p == (h * (2 * b)) % p);
    lemma_add_mod_noop_right(a2, h * (2 * b), p);
    assert((a2 + h * b2) % p == (a2 + h * (2 * b)) % p);
    lemma_add_mod_noop(x, h * (2 * b), p);
    lemma_add_mod_noop(a2, h * (2 * b), p);
    assert((a2 + h * (2 * b)) % p == (x + h * (2 * b)) % p);
    assert(x + h * (2 * b) == a + k * b) by (nonlinear_arith)
        requires
            h == k / 2,
            x == a + (k % 2) * b,
            k >= 0,
    ;
}

/// Binary exponentiation of normal form words in generators `>= m` stays in generators `>= m`,
/// and the exponent of `g_m` is that of the accumulator plus `k` times that of the base,
/// modulo `p_m`.
pub proof fn lemma_binary_power_val(pres: Presentation, acc: Seq<Term>, base: Seq<Term>, k: nat, m: nat)
    requires
        pres.collectable(),
        is_normal_terms(acc, pres.ro()),
        is_normal_terms(base, pres.ro()),
        gens_at_least(acc, m),
        gens_at_least(base, m),
        m < pres.n(),
    ensures
        is_normal_terms(binary_power(pres, acc, base, k), pres.ro()),
        gens_at_least(binary_power(pres, acc, base, k), m),
        exp_of(binary_power(pres, acc, base, k), m) as int == ((exp_of(acc, m) + k * exp_of(base, m)) as int)
            % (pres.ro()[m as int] as int),
    decreases k,
{
    let p = pres.ro()[m as int] as int;
    lemma_normal_exps(pres, acc);
    lemma_normal_exps(pres, base);
    if k == 0 {
        lemma_small_mod(exp_of(acc, m), p as nat);
    } else {
        lemma_normal_fits(pres, base);
        lemma_product_val(pres, acc, base, m);
        lemma_product_val(pres, base, base, m);
        let acc2 = if k % 2 == 1 {
            normal_form(pres, acc + base)
        } else {
            acc
        };
        let base2 = normal_form(pres, base + base);
        assert(exp_of(acc2, m) as int == ((exp_of(acc, m) + (k % 2) * exp_of(base, m)) as int) % p) by {
            if k % 2 == 0 {
                lemma_small_mod(exp_of(acc, m), p as nat);
            }
        }
        assert(exp_of(base2, m) as int == ((2 * exp_of(base, m)) as int) % p);
        if k / 2 > 0 {
            lemma_binary_power_val(pres, acc2, base2, k / 2, m);
            lemma_binary_round(
                exp_of(acc, m) as int,
                exp_of(base, m) as int,
                exp_of(acc2, m) as int,
                exp_of(base2, m) as int,
                exp_of(binary_power(pres, acc, base, k), m) as int,
                k as int,
                p,
            );
        } else {
            assert(k == 1);
        }
    }
}

/// Powers of a normal form word in generators `>= m` stay in generators `>= m`, with `k` times its
/// exponent of `g_m` modulo `p_m`.
pub proof fn lemma_power_val(pres: Presentation, ts: Seq<Term>, k: nat, m: nat)
    requires
        pres.collectable(),
        is_normal_terms(ts, pres.ro()),
        gens_at_least(ts, m),
        m < pres.n(),
    ensures
        is_normal_terms(power_terms(pres, ts, k), pres.ro()),
        gens_at_least(power_terms(pres, ts, k), m),
        exp_of(power_terms(pres, ts, k), m) as int == ((k * exp_of(ts, m)) as int) % (
        pres.ro()[m as int] as int),
{
    let em = Seq::<Term>::empty();
    assert(exp_of(em, m) == 0);
    lemma_binary_power_val(pres, em, ts, k, m);
}

/// Modular arithmetic of one more inverted term `g_m^e`, whose inverse contributes `e (p - 1)`.
proof fn lemma_inverse_round(a: int, d: int, e: int, p: int)
    requires
        p > 0,
        (a + d) % p == 0,
    ensures
        (((e * (p - 1)) % p + a) % p + d + e) % p == 0,
{
    let x = ((e * (p - 1)) % p + a) % p;
    lemma_add_mod_noop_right(a, e * (p - 1), p);
    assert(x == (e * (p - 1) + a) % p);
    lemma_add_mod_noop(e * (p - 1) + a, d + e, p);
    lemma_add_mod_noop(x, d + e, p);
    lemma_mod_twice(e * (p - 1) + a, p);
    assert((x + (d + e)) % p == (e * (p - 1) + a + (d + e)) % p);
    assert(e * (p - 1) + a + (d + e) == p * e + (a + d)) by (nonlinear_arith);
    lemma_mod_multiples_vanish(e, a + d, p);
}

/// The inverse of the generator `g_g` is a normal form word in generators `>= g` with exponent
/// `p_g - 1` of `g_g`.
pub proof fn lemma_generator_inverse_val(pres: Presentation, g: nat)
    requires
        pres.collectable(),
        g < pres.n(),
    ensures
        is_normal_terms(generator_inverse_terms(pres, g), pres.ro()),
        gens_at_least(generator_inverse_terms(pres, g), g),
        exp_of(generator_inverse_terms(pres, g), g) == pres.ro()[g as int] - 1,
    decreases pres.n() - g, 0int, 0nat,
{
    let p = pres.ro()[g as int];
    assert(spec_is_prime(p as int));
    pres.lemma_n_fits();
    let g_pow = seq![Term { gen_index: g as usize, exponent: (p - 1) as u32 }];
    assert(exp_of(g_pow, g) == p - 1) by {
        assert(g_pow.drop_last() =~= Seq::<Term>::empty());
        assert(exp_of(g_pow.drop_last(), g) == 0);
        assert(g_pow.last() == g_pow[0]);
        assert(g_pow.last().gen_index == g);
    }
    assert(is_normal_terms(g_pow, pres.ro()));
    let tail = pres.pw(g as int);
    if tail.len() > 0 {
        lemma_min_gen(tail, pres.n());
        if min_gen(tail, pres.n()) <= g {
            let i = choose|i: int| 0 <= i < tail.len() && min_gen(tail, pres.n()) == (#[trigger] tail[i]).gen_index;
            assert(tail[i].gen_index > g);
        }
        assert forall|i: int| 0 <= i < tail.len() implies g + 1 <= (#[trigger] tail[i]).gen_index
            < pres.n() by {}
        if g + 1 < pres.n() {
            lemma_inverse_val(pres, tail, g + 1);
        } else {
            assert(false);
        }
        let inv = inverse_terms(pres, tail);
        lemma_normal_fits(pres, inv);
        assert(gens_at_least(inv, g)) by {
            assert forall|i: int| 0 <= i < inv.len() implies (#[trigger] inv[i]).gen_index >= g by {}
        }
        lemma_product_val(pres, g_pow, inv, g);
        lemma_exp_below(inv, g + 1, g);
        lemma_small_mod((p - 1) as nat, p as nat);
    }
}

/// The inverse of terms in generators between `m` and `n` is a normal form word in generators
/// `>= m` whose exponent of `g_m` is the negative of theirs modulo `p_m`.
#[verifier::spinoff_prover]
pub proof fn lemma_inverse_val(pres: Presentation, ts: Seq<Term>, m: nat)
    requires
        pres.collectable(),
        m < pres.n(),
        forall|i: int| 0 <= i < ts.len() ==> m <= (#[trigger] ts[i]).gen_index < pres.n(),
    ensures
        is_normal_terms(inverse_terms(pres, ts), pres.ro()),
        gens_at_least(inverse_terms(pres, ts), m),
        ((exp_of(inverse_terms(pres, ts), m) + exp_of(ts, m)) as int) % (pres.ro()[m as int] as int)
            == 0,
    decreases pres.n() - min_gen(ts, pres.n()), 1int, ts.len(),
{
    let pm = pres.ro()[m as int] as int;
    assert(spec_is_prime(pm));
    if ts.len() == 0 {
        assert(inverse_terms(pres, ts) == Seq::<Term>::empty());
        assert(exp_of(ts, m) == 0);
        assert(exp_of(inverse_terms(pres, ts), m) == 0);
        vstd::arithmetic::div_mod::lemma_small_mod(0, pm as nat);
    } else {
        lemma_min_gen(ts, pres.n());
        lemma_min_gen(ts.drop_last(), pres.n());
        let t = ts.last();
        let g = t.gen_index as nat;
        let d = ts.drop_last();
        assert(t == ts[ts.len() - 1]);
        assert forall|i: int| 0 <= i < d.len() implies m <= (#[trigger] d[i]).gen_index < pres.n() by {
            assert(d[i] == ts[i]);
        }
        lemma_generator_inverse_val(pres, g);
        lemma_inverse_val(pres, d, m);
        let gi = generator_inverse_terms(pres, g);
        let pw = power_terms(pres, gi, t.exponent as nat);
        lemma_power_val(pres, gi, t.exponent as nat, g);
        let inv_d = inverse_terms(pres, d);
        lemma_normal_fits(pres, inv_d);
        assert(gens_at_least(pw, m)) by {
            assert forall|i: int| 0 <= i < pw.len() implies (#[trigger] pw[i]).gen_index >= m by {}
        }
        lemma_product_val(pres, pw, inv_d, m);
        lemma_normal_exps(pres, inv_d);
        let a = exp_of(inv_d, m) as int;
        let dd = exp_of(d, m) as int;
        lemma_small_mod(exp_of(inv_d, m), pm as nat);
        let res = inverse_terms(pres, ts);
        assert(res == normal_form(pres, pw + inv_d));
        assert(exp_of(ts, m) == exp_of(d, m) + if g == m {
            t.exponent as nat
        } else {
            0
        });
        if g == m {
            lemma_inverse_round(a, dd, t.exponent as int, pm);
            assert(exp_of(pw, m) as int == (t.exponent * (pm - 1)) % pm) by {
                assert((t.exponent * (pres.ro()[g as int] - 1)) as int == t.exponent * (pm - 1));
            }
            assert(exp_of(res, m) as int == ((t.exponent * (pm - 1)) % pm + a) % pm);
            assert(((exp_of(res, m) + exp_of(ts, m)) as int) % pm == 0);
        } else {
            lemma_exp_below(pw, g, m);
            assert(exp_of(res, m) as int == a % pm);
            assert(exp_of(res, m) as int == a);
            assert(((exp_of(res, m) + exp_of(ts, m)) as int) % pm == 0);
        }
    }
}

/// A mathematical element of a polycyclic group: a normal form word bound to its presentation.
#[derive(Debug, Clone)]
pub struct Element<'a> {
    pub word: Word,
    pub pres: &'a Presentation,
}

impl<'a> Element<'a> {
    /// The element's presentation is collectable and its word is in normal form.
    pub open spec fn valid(&self) -> bool {
        &&& self.pres.collectable()
        &&& is_normal_terms(self.word.terms@, self.pres.ro())
    }

    /// Creates a new element. The word is assumed to already be in normal form.
    pub fn new(word: Word, pres: &'a Presentation) -> (e: Self)
        ensures
            e.word == word,
            e.pres == pres,
    {
        Element { word, pres }
    }

    /// Creates the identity element for the given presentation.
    pub fn identity(pres: &'a Presentation) -> (e: Self)
        ensures
            e.word.terms@ == Seq::<Term>::empty(),
            e.pres == pres,
    {
        Element { word: Word::identity(), pres }
    }

    /// Creates the element `g_i^e` by collecting the single term.
    pub fn from_generator(gen_index: usize, exponent: u32, pres: &'a Presentation) -> (e: Self)
        requires
            pres.collectable(),
            term_fits(Term { gen_index, exponent }, pres.ro()),
        ensures
            e.pres == pres,
            e.word.terms@ == normal_form(*pres, seq![Term { gen_index, exponent }]),
            e.valid(),
    {
        let mut collector = Collector::new(pres);
        collector.collect_generator(gen_index, exponent);
        proof {
            let t = Term { gen_index, exponent };
            assert(seq![t].reverse() =~= seq![t]);
            lemma_normal_form_normal(*pres, seq![t]);
        }
        Element { word: collector.into_word(), pres }
    }

    /// A copy of the element, with the same word and presentation.
    pub fn duplicate(&self) -> (e: Self)
        ensures
            e.word.terms@ == self.word.terms@,
            e.pres == self.pres,
    {
        Element { word: self.word.duplicate(), pres: self.pres }
    }

    /// Returns a reference to the underlying normal form [`Word`].
    pub fn word(&self) -> (w: &Word)
        ensures
            *w == self.word,
    {
        &self.word
    }

    /// Returns a reference to the associated [`Presentation`].
    pub fn presentation(&self) -> (p: &'a Presentation)
        ensures
            p == self.pres,
    {
        self.pres
    }

    /// The textual form of the element: that of its word.
    pub fn to_string(&self) -> (s: String)
        ensures
            s@ == self.word.spec_text(),
    {
        self.word.to_string()
    }

    /// Returns `true` if this element is the group identity.
    pub fn is_identity(&self) -> (b: bool)
        ensures
            b == (self.word.terms@.len() == 0),
    {
        self.word.is_identity()
    }

    /// Returns `true` if the underlying word has no terms (the same as `is_identity`).
    pub fn is_empty(&self) -> (b: bool)
        ensures
            b == (self.word.terms@.len() == 0),
    {
        self.word.is_empty()
    }

    /// Returns the number of terms in the underlying normal form word.
    pub fn len(&self) -> (n: usize)
        ensures
            n == self.word.terms@.len(),
    {
        self.word.len()
    }

    /// Returns the leading term if non-identity.
    pub fn leading_term(&self) -> (t: Option<Term>)
        ensures
            self.word.terms@.len() == 0 ==> t is None,
            self.word.terms@.len() > 0 ==> t == Some(self.word.terms@[0]),
    {
        self.word.leading_term()
    }

    /// Returns the leading generator index if non-identity.
    pub fn leading_generator(&self) -> (g: Option<usize>)
        ensures
            self.word.terms@.len() == 0 ==> g is None,
            self.word.terms@.len() > 0 ==> g == Some(self.word.terms@[0].gen_index),
    {
        self.word.leading_generator()
    }

    /// Returns the leading generator exponent if non-identity.
    pub fn leading_exponent(&self) -> (e: Option<u32>)
        ensures
            self.word.terms@.len() == 0 ==> e is None,
            self.word.terms@.len() > 0 ==> e == Some(self.word.terms@[0].exponent),
    {
        self.word.leading_exponent()
    }

    /// The product `self * rhs`: the normal form of the concatenated words, computed by
    /// collecting `rhs` onto `self`.
    pub fn product(&self, rhs: &Element<'a>) -> (e: Element<'a>)
        requires
            self.valid(),
            is_normal_terms(rhs.word.terms@, self.pres.ro()),
        ensures
            e.pres == self.pres,
            e.word.terms@ == normal_form(*self.pres, self.word.terms@ + rhs.word.terms@),
            e.valid(),
    {
        let ghost pv = *self.pres;
        let ghost a = self.word.terms@;
        let ghost b = rhs.word.terms@;
        let mut collector = Collector::new(self.pres);
        collector.collect(&self.word);
        collector.collect(&rhs.word);
        proof {
            lemma_product(pv, a, b);
        }
        Element { word: collector.into_word(), pres: self.pres }
    }

    /// Computes `self^exp` using binary exponentiation.
    pub fn pow(&self, exp: u32) -> (e: Element<'a>)
        requires
            self.valid(),
        ensures
            e.pres == self.pres,
            e.word.terms@ == power_terms(*self.pres, self.word.terms@, exp as nat),
            e.valid(),
    {
        let ghost pv = *self.pres;
        if exp == 0 {
            return Self::identity(self.pres);
        }
        let mut k = exp;
        let mut base = self.duplicate();
        let mut result = Self::identity(self.pres);
        while k > 0
            invariant
                base.valid(),
                result.valid(),
                base.pres == self.pres,
                result.pres == self.pres,
                pv == *self.pres,
                binary_power(pv, result.word.terms@, base.word.terms@, k as nat) == power_terms(
                    pv,
                    self.word.terms@,
                    exp as nat,
                ),
            decreases k,
        {
            if k % 2 == 1 {
                result = if result.is_identity() {
                    proof {
                        assert(result.word.terms@ + base.word.terms@ =~= base.word.terms@);
                        lemma_normal_form_of_normal(pv, base.word.terms@);
                    }
                    base.duplicate()
                } else {
                    result.product(&base)
                };
            }
            k = k / 2;
            if k > 0 {
                base = base.product(&base);
            }
        }
        result
    }

    /// Computes the inverse of the element from the power relations.
    ///
    /// For a word `x = g{i1}^{e1} ... g{ik}^{ek}` the inverse is
    /// `x^-1 = (g{ik}^-1)^{ek} ... (g{i1}^-1)^{e1}`, and generator inverses are
    /// `gi^-1 = gi^{pi - 1} * (gi^pi)^-1`, which recurses on power relation words in larger
    /// generators only.
    pub fn inverse(&self) -> (e: Element<'a>)
        requires
            self.pres.collectable(),
            forall|i: int|
                0 <= i < self.word.terms@.len() ==> (#[trigger] self.word.terms@[i]).gen_index
                    < self.pres.n(),
        ensures
            e.pres == self.pres,
            e.word.terms@ == inverse_terms(*self.pres, self.word.terms@),
            e.valid(),
        decreases self.pres.n() - min_gen(self.word.terms@, self.pres.n()), 1int, self.word.terms@.len(),
    {
        let ghost pv = *self.pres;
        let ghost ts = self.word.terms@;
        proof {
            lemma_min_gen(ts, pv.n());
        }
        if self.is_identity() {
            return self.duplicate();
        }
        let mut result = Self::identity(self.pres);
        let mut i: usize = 0;
        assert(ts.take(0) =~= Seq::<Term>::empty());
        while i < self.word.terms.len()
            invariant
                i <= ts.len(),
                ts == self.word.terms@,
                pv == *self.pres,
                pv.collectable(),
                result.pres == self.pres,
                result.valid(),
                result.word.terms@ == inverse_terms(pv, ts.take(i as int)),
                min_gen(ts, pv.n()) <= pv.n(),
                forall|j: int| 0 <= j < ts.len() ==> min_gen(ts, pv.n()) <= (#[trigger] ts[j]).gen_index,
                forall|j: int| 0 <= j < ts.len() ==> (#[trigger] ts[j]).gen_index < pv.n(),
            decreases ts.len() - i,
        {
            let term = self.word.terms[i];
            let gen_inv = self.generator_inverse(term.gen_index);
            let term_inv = gen_inv.pow(term.exponent);
            result = term_inv.product(&result);
            proof {
                let tk = ts.take(i + 1);
                assert(tk.last() == term);
                assert(tk.drop_last() =~= ts.take(i as int));
            }
            i = i + 1;
        }
        assert(ts.take(i as int) =~= ts);
        result
    }

    /// Computes the inverse of a single generator `g_i`.
    fn generator_inverse(&self, gen_idx: usize) -> (e: Element<'a>)
        requires
            self.pres.collectable(),
            gen_idx < self.pres.n(),
        ensures
            e.pres == self.pres,
            e.word.terms@ == generator_inverse_terms(*self.pres, gen_idx as nat),
            e.valid(),
        decreases self.pres.n() - gen_idx, 0int, 0nat,
    {
        let ghost pv = *self.pres;
        let p = self.pres.relative_order(gen_idx);
        proof {
            assert(spec_is_prime(pv.ro()[gen_idx as int] as int));
        }
        let g_pow = if p > 1 {
            Self::new(Word::from_term(gen_idx, p - 1), self.pres)
        } else {
            Self::identity(self.pres)
        };
        let power_tail = self.pres.power(gen_idx);
        if power_tail.is_identity() {
            g_pow
        } else {
            let tail_elem = Self::new(power_tail.duplicate(), self.pres);
            proof {
                let tail = pv.pw(gen_idx as int);
                lemma_min_gen(tail, pv.n());
                if min_gen(tail, pv.n()) <= gen_idx {
                    let i = choose|i: int|
                        0 <= i < tail.len() && min_gen(tail, pv.n()) == (#[trigger] tail[i]).gen_index;
                    assert(tail[i].gen_index > gen_idx);
                }
            }
            let tail_inv = tail_elem.inverse();
            g_pow.product(&tail_inv)
        }
    }
}

impl<'a> PartialEq for Element<'a> {
    fn eq(&self, other: &Self) -> (b: bool) {
        self.word.same_as(&other.word)
    }
}

impl<'a> vstd::std_specs::cmp::PartialEqSpecImpl for Element<'a> {
    open spec fn obeys_eq_spec() -> bool {
        true
    }

    open spec fn eq_spec(&self, other: &Self) -> bool {
        self.word.terms@ == other.word.terms@
    }
}

impl<'a> Eq for Element<'a> {}

/// `&a * &b` is [`Element::product`].
impl<'a, 'b> core::ops::Mul<&'b Element<'a>> for &'b Element<'a> {
    type Output = Element<'a>;

    fn mul(self, rhs: &'b Element<'a>) -> (e: Element<'a>)
        ensures
            e.pres == self.pres,
            e.word.terms@ == normal_form(*self.pres, self.word.terms@ + rhs.word.terms@),
    {
        self.product(rhs)
    }
}

/// The product is stated by the `ensures` of `mul` itself; the requirement is that of
/// [`Element::product`].
impl<'a, 'b> vstd::std_specs::ops::MulSpecImpl<&'b Element<'a>> for &'b Element<'a> {
    open spec fn obeys_mul_spec() -> bool {
        false
    }

    open spec fn mul_req(self, rhs: &'b Element<'a>) -> bool {
        self.valid() && is_normal_terms(rhs.word.terms@, self.pres.ro())
    }

    open spec fn mul_spec(self, rhs: &'b Element<'a>) -> Element<'a> {
        *self
    }
}

/// `a * b` is [`Element::product`].
impl<'a> core::ops::Mul<Element<'a>> for Element<'a> {
    type Output = Element<'a>;

    fn mul(self, rhs: Element<'a>) -> (e: Element<'a>)
        ensures
            e.pres == self.pres,
            e.word.terms@ == normal_form(*self.pres, self.word.terms@ + rhs.word.terms@),
    {
        (&self).product(&rhs)
    }
}

/// The product is stated by the `ensures` of `mul` itself; the requirement is that of
/// [`Element::product`].
impl<'a> vstd::std_specs::ops::MulSpecImpl<Element<'a>> for Element<'a> {
    open spec fn obeys_mul_spec() -> bool {
        false
    }

    open spec fn mul_req(self, rhs: Element<'a>) -> bool {
        self.valid() && is_normal_terms(rhs.word.terms@, self.pres.ro())
    }

    open spec fn mul_spec(self, rhs: Element<'a>) -> Element<'a> {
        rhs
    }
}

/// `a * &b` is [`Element::product`].
impl<'a, 'b> core::ops::Mul<&'b Element<'a>> for Element<'a> {
    type Output = Element<'a>;

    fn mul(self, rhs: &'b Element<'a>) -> (e: Element<'a>)
        ensures
            e.pres == self.pres,
            e.word.terms@ == normal_form(*self.pres, self.word.terms@ + rhs.word.terms@),
    {
        (&self).product(rhs)
    }
}

/// The product is stated by the `ensures` of `mul` itself; the requirement is that of
/// [`Element::product`].
impl<'a, 'b> vstd::std_specs::ops::MulSpecImpl<&'b Element<'a>> for Element<'a> {
    open spec fn obeys_mul_spec() -> bool {
        false
    }

    open spec fn mul_req(self, rhs: &'b Element<'a>) -> bool {
        self.valid() && is_normal_terms(rhs.word.terms@, self.pres.ro())
    }

    open spec fn mul_spec(self, rhs: &'b Element<'a>) -> Element<'a> {
        self
    }
}

/// `&a * b` is [`Element::product`].
impl<'a, 'b> core::ops::Mul<Element<'a>> for &'b Element<'a> {
    type Output = Element<'a>;

    fn mul(self, rhs: Element<'a>) -> (e: Element<'a>)
        ensures
            e.pres == self.pres,
            e.word.terms@ == normal_form(*self.pres, self.word.terms@ + rhs.word.terms@),
    {
        self.product(&rhs)
    }
}

/// The product is stated by the `ensures` of `mul` itself; the requirement is that of
/// [`Element::product`].
impl<'a, 'b> vstd::std_specs::ops::MulSpecImpl<Element<'a>> for &'b Element<'a> {
    open spec fn obeys_mul_spec() -> bool {
        false
    }

    open spec fn mul_req(self, rhs: Element<'a>) -> bool {
        self.valid() && is_normal_terms(rhs.word.terms@, self.pres.ro())
    }

    open spec fn mul_spec(self, rhs: Element<'a>) -> Element<'a> {
        rhs
    }
}

} // verus!
