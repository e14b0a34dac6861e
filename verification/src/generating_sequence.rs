//! Polycyclic generating sequences for subgroups of polycyclic groups.
//!
//! A [`GeneratingSequence`] keeps polycyclic generators of a subgroup in echelon form with
//! leading exponents one, which gives membership testing by sifting, subgroup closure (Sims'
//! algorithm), order and index, and a canonical reduced form.
use vstd::prelude::*;
use vstd::string::*;

use crate::collection::{exp_of, gens_at_least, term_fits};
use crate::element::{
    inverse_terms, lemma_inverse_val, lemma_normal_exps, lemma_normal_fits, lemma_power_val,
    lemma_product_val, normal_form, power_terms, Element,
};
use crate::presentation::Presentation;
use crate::span::{all_in_span, in_span, lemma_span_base, lemma_span_comm, lemma_span_conj, lemma_span_insert, lemma_span_power, lemma_span_reduce_all, lemma_span_sift, lemma_span_sub};
use crate::text::{join, lemma_join_push, push_str};
use crate::util::ntheory::{seq_product, spec_is_prime};
use crate::word::{is_normal_terms, Term};
use vstd::arithmetic::div_mod::{lemma_add_mod_noop, lemma_mul_mod_noop_right, lemma_small_mod};

verus! {

/// The words form a sequence in echelon form: each is a non-empty normal form word with leading
/// exponent one, and the leading generators strictly increase.
pub open spec fn echelon(pres: Presentation, ws: Seq<Seq<Term>>) -> bool {
    &&& forall|i: int|
        0 <= i < ws.len() ==> is_normal_terms(#[trigger] ws[i], pres.ro()) && ws[i].len() > 0
            && ws[i][0].exponent == 1
    &&& forall|i: int, j: int| 0 <= i < j < ws.len() ==> ws[i][0].gen_index < ws[j][0].gen_index
}

/// The leading generator of a word, or `n` for the empty word.
pub open spec fn lead(ts: Seq<Term>, n: nat) -> nat {
    if ts.len() == 0 {
        n
    } else {
        ts[0].gen_index as nat
    }
}

/// The first index from `i` on whose word has leading generator `g`.
pub open spec fn find_lead(ws: Seq<Seq<Term>>, g: nat, i: nat) -> Option<nat>
    decreases ws.len() - i,
{
    if i >= ws.len() {
        None
    } else if ws[i as int].len() > 0 && ws[i as int][0].gen_index == g {
        Some(i)
    } else {
        find_lead(ws, g, i + 1)
    }
}

/// Sifting `ts` through the words `ws`: while the leading generator `g` of `ts` is the leading
/// generator of some `h` in `ws`, replace `ts` by `(h^-1)^e ts` for the leading exponent `e`.
pub open spec fn sift_terms(pres: Presentation, ws: Seq<Seq<Term>>, ts: Seq<Term>) -> Seq<Term>
    decreases pres.n() - lead(ts, pres.n()),
{
    if ts.len() == 0 || ts[0].gen_index >= pres.n() {
        ts
    } else {
        let g = ts[0].gen_index as nat;
        match find_lead(ws, g, 0) {
            None => ts,
            Some(k) => {
                let nx = normal_form(
                    pres,
                    power_terms(pres, inverse_terms(pres, ws[k as int]), ts[0].exponent as nat) + ts,
                );
                if nx.len() == 0 || (g < nx[0].gen_index && nx[0].gen_index < pres.n()) {
                    sift_terms(pres, ws, nx)
                } else {
                    ts
                }
            },
        }
    }
}

/// `find_lead` finds a word with the given leading generator, the first one from `i` on.
pub proof fn lemma_find_lead(ws: Seq<Seq<Term>>, g: nat, i: nat)
    ensures
        find_lead(ws, g, i) matches Some(k) ==> i <= k < ws.len() && ws[k as int].len() > 0
            && ws[k as int][0].gen_index == g,
        find_lead(ws, g, i) is None ==> forall|k: int|
            i <= k < ws.len() ==> !(ws[k].len() > 0 && ws[k][0].gen_index == g),
    decreases ws.len() - i,
{
    if i < ws.len() {
        lemma_find_lead(ws, g, i + 1);
    }
}

/// The exponent of the generator of a term is at least that term's exponent.
pub proof fn lemma_exp_of_ge(ts: Seq<Term>, i: int)
    requires
        0 <= i < ts.len(),
    ensures
        exp_of(ts, ts[i].gen_index as nat) >= ts[i].exponent,
    decreases ts.len(),
{
    if i < ts.len() - 1 {
        assert(ts.drop_last()[i] == ts[i]);
        lemma_exp_of_ge(ts.drop_last(), i);
    }
}

/// Modular arithmetic of sifting: `e X + e` vanishes modulo `p` when `X + 1` does.
proof fn lemma_sift_arith(x: int, e: int, y: int, p: int)
    requires
        p > 0,
        (x + 1) % p == 0,
        y == (e * x) % p,
    ensures
        (y + e) % p == 0,
{
    lemma_add_mod_noop(e * x, e, p);
    lemma_add_mod_noop(y, e, p);
    vstd::arithmetic::div_mod::lemma_mod_twice(e * x, p);
    assert(e * x + e == e * (x + 1)) by (nonlinear_arith);
    lemma_mul_mod_noop_right(e, x + 1, p);
    assert(e * ((x + 1) % p) == 0) by (nonlinear_arith)
        requires
            (x + 1) % p == 0,
    ;
}

/// One sifting step `(h^-1)^e x` with `h` of leading term `g^1` and `x` of leading term `g^e`
/// gives a normal form word whose generators are all larger than `g`.
pub proof fn lemma_sift_step(pres: Presentation, h: Seq<Term>, ts: Seq<Term>)
    requires
        pres.collectable(),
        is_normal_terms(h, pres.ro()),
        h.len() > 0,
        h[0].exponent == 1,
        is_normal_terms(ts, pres.ro()),
        ts.len() > 0,
        h[0].gen_index == ts[0].gen_index,
    ensures
        is_normal_terms(
            normal_form(
                pres,
                power_terms(pres, inverse_terms(pres, h), ts[0].exponent as nat) + ts,
            ),
            pres.ro(),
        ),
        gens_at_least(
            normal_form(
                pres,
                power_terms(pres, inverse_terms(pres, h), ts[0].exponent as nat) + ts,
            ),
            ts[0].gen_index as nat + 1,
        ),
{
    let g = ts[0].gen_index as nat;
    let e = ts[0].exponent as nat;
    let p = pres.ro()[g as int] as int;
    assert(spec_is_prime(p));
    assert forall|i: int| 0 <= i < h.len() implies g <= (#[trigger] h[i]).gen_index < pres.n() by {
        if i > 0 {
            assert(h[0].gen_index < h[i].gen_index);
        }
    }
    assert(gens_at_least(ts, g)) by {
        assert forall|i: int| 0 <= i < ts.len() implies (#[trigger] ts[i]).gen_index >= g by {
            if i > 0 {
                assert(ts[0].gen_index < ts[i].gen_index);
            }
        }
    }
    lemma_inverse_val(pres, h, g);
    let inv = inverse_terms(pres, h);
    lemma_power_val(pres, inv, e, g);
    let pw = power_terms(pres, inv, e);
    lemma_normal_fits(pres, ts);
    lemma_product_val(pres, pw, ts, g);
    let r = normal_form(pres, pw + ts);
    lemma_exp_of_ge(h, 0);
    lemma_exp_of_ge(ts, 0);
    assert(exp_of(h, g) == 1) by {
        lemma_exp_of_unique(h, 0);
    }
    assert(exp_of(ts, g) == e) by {
        lemma_normal_exps(pres, ts);
        lemma_exp_of_unique(ts, 0);
    }
    lemma_normal_exps(pres, inv);
    lemma_small_mod(exp_of(inv, g), p as nat);
    lemma_sift_arith(exp_of(inv, g) as int, e as int, exp_of(pw, g) as int, p);
    lemma_normal_exps(pres, r);
    lemma_small_mod(exp_of(r, g), p as nat);
    assert(exp_of(r, g) == 0);
    assert forall|i: int| 0 <= i < r.len() implies (#[trigger] r[i]).gen_index >= g + 1 by {
        if r[i].gen_index == g {
            lemma_exp_of_ge(r, i);
        }
    }
}

/// In a normal form word the exponent of a term's generator is that term's exponent.
pub proof fn lemma_exp_of_unique(ts: Seq<Term>, i: int)
    requires
        0 <= i < ts.len(),
        forall|a: int, b: int| 0 <= a < b < ts.len() ==> ts[a].gen_index < ts[b].gen_index,
    ensures
        exp_of(ts, ts[i].gen_index as nat) == ts[i].exponent,
    decreases ts.len(),
{
    let g = ts[i].gen_index as nat;
    let d = ts.drop_last();
    if i < ts.len() - 1 {
        assert(d[i] == ts[i]);
        lemma_exp_of_unique(d, i);
        assert(ts.last().gen_index != g) by {
            assert(ts[i].gen_index < ts[ts.len() - 1].gen_index);
        }
    } else {
        assert forall|k: int| 0 <= k < d.len() implies (#[trigger] d[k]).gen_index != g by {
            assert(d[k] == ts[k]);
        }
        crate::element::lemma_exp_of_absent(d, g);
    }
}

/// A normal form word in generators `>= g` with a non-zero exponent of `g_g` starts with that term.
pub proof fn lemma_lead_term(w: Seq<Term>, g: nat)
    requires
        forall|a: int, b: int| 0 <= a < b < w.len() ==> w[a].gen_index < w[b].gen_index,
        gens_at_least(w, g),
        exp_of(w, g) > 0,
    ensures
        w.len() > 0,
        w[0].gen_index == g,
        w[0].exponent == exp_of(w, g),
{
    if forall|i: int| 0 <= i < w.len() ==> (#[trigger] w[i]).gen_index != g {
        crate::element::lemma_exp_of_absent(w, g);
    }
    let i = choose|i: int| 0 <= i < w.len() && (#[trigger] w[i]).gen_index == g;
    if i > 0 {
        assert(w[0].gen_index < w[i].gen_index);
    }
    lemma_exp_of_unique(w, 0);
}

/// `ws2` is `ws` with the remainder `rem` raised to the power `k` normalizing its leading exponent
/// to one, inserted at the position of its leading generator.
pub open spec fn inserted(pres: Presentation, ws: Seq<Seq<Term>>, rem: Seq<Term>, ws2: Seq<Seq<Term>>) -> bool {
    exists|i: int, k: nat|
        {
            &&& 0 <= i <= ws.len()
            &&& k < pres.ro()[rem[0].gen_index as int]
            &&& ((k * rem[0].exponent) as int) % (pres.ro()[rem[0].gen_index as int] as int) == 1
            &&& forall|j: int| 0 <= j < i ==> #[trigger] ws[j][0].gen_index < rem[0].gen_index
            &&& forall|j: int| i <= j < ws.len() ==> #[trigger] ws[j][0].gen_index > rem[0].gen_index
            &&& ws2 == ws.insert(i, power_terms(pres, rem, k))
        }
}

/// The relative orders of the leading generators of the words.
pub open spec fn lead_orders(pres: Presentation, ws: Seq<Seq<Term>>) -> Seq<u32> {
    ws.map_values(|w: Seq<Term>| pres.ro()[w[0].gen_index as int])
}

/// The exponent of the first term with generator `g`, if any.
pub open spec fn find_exp(ts: Seq<Term>, g: nat) -> Option<u32>
    decreases ts.len(),
{
    if ts.len() == 0 {
        None
    } else if ts[0].gen_index == g {
        Some(ts[0].exponent)
    } else {
        find_exp(ts.skip(1), g)
    }
}

/// `find_exp` finds a term with generator `g` exactly when the exponent of `g` is non-zero in a
/// normal form word, and then it is that exponent.
pub proof fn lemma_find_exp(ts: Seq<Term>, g: nat)
    requires
        forall|a: int, b: int| 0 <= a < b < ts.len() ==> ts[a].gen_index < ts[b].gen_index,
        forall|a: int| 0 <= a < ts.len() ==> (#[trigger] ts[a]).exponent > 0,
    ensures
        find_exp(ts, g) is None ==> exp_of(ts, g) == 0,
        find_exp(ts, g) matches Some(e) ==> e == exp_of(ts, g) && e > 0,
    decreases ts.len(),
{
    if ts.len() > 0 {
        if ts[0].gen_index == g {
            lemma_exp_of_unique(ts, 0);
        } else {
            let t = ts.skip(1);
            assert forall|a: int, b: int| 0 <= a < b < t.len() implies t[a].gen_index < t[b].gen_index by {
                assert(t[a] == ts[a + 1] && t[b] == ts[b + 1]);
            }
            assert forall|a: int| 0 <= a < t.len() implies (#[trigger] t[a]).exponent > 0 by {
                assert(t[a] == ts[a + 1]);
            }
            lemma_find_exp(t, g);
            assert(ts =~= seq![ts[0]] + t);
            crate::collection::lemma_counts_concat(seq![ts[0]], t, g);
            assert(seq![ts[0]].drop_last() =~= Seq::<Term>::empty());
            assert(seq![ts[0]].last() == ts[0]);
            assert(exp_of(seq![ts[0]].drop_last(), g) == 0);
        }
    }
}

/// Reducing word `i` by word `j`: cancel the exponent of the leading generator of word `j` in
/// word `i` by multiplying with the matching power of the inverse of word `j`.
pub open spec fn reduce_pair(pres: Presentation, ws: Seq<Seq<Term>>, i: nat, j: nat) -> Seq<Seq<Term>> {
    match find_exp(ws[i as int], ws[j as int][0].gen_index as nat) {
        Some(e) => ws.update(
            i as int,
            normal_form(
                pres,
                ws[i as int] + power_terms(pres, inverse_terms(pres, ws[j as int]), e as nat),
            ),
        ),
        None => ws,
    }
}

/// Reducing word `i` by the words `j, j + 1, ..., n - 1` in turn.
pub open spec fn reduce_row(pres: Presentation, ws: Seq<Seq<Term>>, i: nat, j: nat, n: nat) -> Seq<Seq<Term>>
    decreases n - j,
{
    if j >= n {
        ws
    } else {
        reduce_row(pres, reduce_pair(pres, ws, i, j), i, j + 1, n)
    }
}

/// Reducing the words `i, i + 1, ..., n - 1` in turn, each by all later words.
pub open spec fn reduce_all(pres: Presentation, ws: Seq<Seq<Term>>, i: nat, n: nat) -> Seq<Seq<Term>>
    decreases n - i,
{
    if i >= n {
        ws
    } else {
        reduce_all(pres, reduce_row(pres, ws, i, i + 1, n), i + 1, n)
    }
}

/// No word has a term in the leading generator of a later word.
pub open spec fn reduced(ws: Seq<Seq<Term>>) -> bool {
    forall|i: int, j: int|
        0 <= i < j < ws.len() ==> #[trigger] exp_of(ws[i], ws[j][0].gen_index as nat) == 0
}

/// A normal form word with no exponent below `l` has all generators at least `l`.
pub proof fn lemma_gens_from_exps(r: Seq<Term>, l: nat)
    requires
        forall|a: int| 0 <= a < r.len() ==> (#[trigger] r[a]).exponent > 0,
        forall|g: nat| g < l ==> #[trigger] exp_of(r, g) == 0,
    ensures
        gens_at_least(r, l),
{
    assert forall|a: int| 0 <= a < r.len() implies (#[trigger] r[a]).gen_index >= l by {
        if r[a].gen_index < l {
            lemma_exp_of_ge(r, a);
            assert(exp_of(r, r[a].gen_index as nat) == 0);
        }
    }
}

/// One reduction step keeps word `i` a normal form word with the same leading term, leaves its
/// exponents below the leading generator `m` of word `j` alone and clears its exponent of `g_m`.
pub proof fn lemma_reduce_step(pres: Presentation, u: Seq<Term>, v: Seq<Term>, e: nat)
    requires
        pres.collectable(),
        is_normal_terms(u, pres.ro()),
        u.len() > 0,
        u[0].exponent == 1,
        is_normal_terms(v, pres.ro()),
        v.len() > 0,
        v[0].exponent == 1,
        u[0].gen_index < v[0].gen_index,
        e == exp_of(u, v[0].gen_index as nat),
    ensures
        ({
            let r = normal_form(pres, u + power_terms(pres, inverse_terms(pres, v), e));
            &&& is_normal_terms(r, pres.ro())
            &&& r.len() > 0
            &&& r[0] == u[0]
            &&& forall|g: nat| g < v[0].gen_index ==> #[trigger] exp_of(r, g) == exp_of(u, g)
            &&& exp_of(r, v[0].gen_index as nat) == 0
        }),
{
    let m = v[0].gen_index as nat;
    let l = u[0].gen_index as nat;
    let p = pres.ro()[m as int] as int;
    assert(spec_is_prime(p));
    assert forall|i: int| 0 <= i < v.len() implies m <= (#[trigger] v[i]).gen_index < pres.n() by {
        if i > 0 {
            assert(v[0].gen_index < v[i].gen_index);
        }
    }
    lemma_inverse_val(pres, v, m);
    let inv = inverse_terms(pres, v);
    lemma_power_val(pres, inv, e, m);
    let w = power_terms(pres, inv, e);
    lemma_normal_fits(pres, w);
    lemma_product_val(pres, u, w, m);
    let r = normal_form(pres, u + w);
    assert(exp_of(v, m) == 1) by {
        lemma_exp_of_unique(v, 0);
    }
    lemma_normal_exps(pres, inv);
    lemma_small_mod(exp_of(inv, m), p as nat);
    lemma_normal_exps(pres, u);
    lemma_sift_arith(exp_of(inv, m) as int, e as int, exp_of(w, m) as int, p);
    lemma_add_mod_noop(e as int, exp_of(w, m) as int, p);
    lemma_normal_exps(pres, r);
    lemma_small_mod(exp_of(r, m), p as nat);
    assert(exp_of(r, m) == 0);
    assert(gens_at_least(u, l)) by {
        assert forall|i: int| 0 <= i < u.len() implies (#[trigger] u[i]).gen_index >= l by {
            if i > 0 {
                assert(u[0].gen_index < u[i].gen_index);
            }
        }
    }
    assert forall|g: nat| g < l implies #[trigger] exp_of(r, g) == 0 by {
        crate::element::lemma_exp_below(u, l, g);
    }
    lemma_gens_from_exps(r, l);
    lemma_exp_of_unique(u, 0);
    lemma_lead_term(r, l);
}

/// Expressing `ts` over the words `ws` from position `pos` on: at each word whose leading generator
/// is that of `ts`, record the leading exponent `e` at that position and divide `ts` by the word to
/// the power `e`; fail if `ts` leads with a generator below the word's, or is not used up.
pub open spec fn express_from(pres: Presentation, ws: Seq<Seq<Term>>, ts: Seq<Term>, pos: nat) -> Option<Seq<Term>>
    decreases ws.len() - pos,
{
    if pos >= ws.len() {
        if ts.len() == 0 {
            Some(Seq::<Term>::empty())
        } else {
            None
        }
    } else if ts.len() > 0 && ts[0].gen_index == ws[pos as int][0].gen_index {
        let e = ts[0].exponent;
        let nx = normal_form(
            pres,
            power_terms(pres, inverse_terms(pres, ws[pos as int]), e as nat) + ts,
        );
        match express_from(pres, ws, nx, pos + 1) {
            Some(r) => Some(seq![Term { gen_index: pos as usize, exponent: e }] + r),
            None => None,
        }
    } else if ts.len() > 0 && ts[0].gen_index < ws[pos as int][0].gen_index {
        None
    } else {
        express_from(pres, ws, ts, pos + 1)
    }
}

/// Divides `ts` on the left, one term `(pos, e)` of `w` after another, by the `e`-th power of the
/// word at position `pos` of `ws`. When `ts` is `b_{p1}^{e1} b_{p2}^{e2} ...` for the terms of `w`,
/// this leaves the identity.
pub open spec fn strip_basis(pres: Presentation, ws: Seq<Seq<Term>>, w: Seq<Term>, ts: Seq<Term>) -> Seq<Term>
    decreases w.len(),
{
    if w.len() == 0 {
        ts
    } else {
        strip_basis(
            pres,
            ws,
            w.skip(1),
            normal_form(pres, power_terms(pres, inverse_terms(pres, ws[w[0].gen_index as int]), w[0].exponent as nat) + ts),
        )
    }
}

/// An expression found over the words `ws` names positions of `ws` from `pos` on, in increasing
/// order, and dividing `ts` on the left by the named powers in turn leaves the identity.
pub proof fn lemma_express_strips(pres: Presentation, ws: Seq<Seq<Term>>, ts: Seq<Term>, pos: nat)
    requires
        ws.len() <= usize::MAX,
    ensures
        express_from(pres, ws, ts, pos) matches Some(w) ==> {
            &&& forall|t: int| 0 <= t < w.len() ==> pos <= (#[trigger] w[t]).gen_index < ws.len()
            &&& forall|a: int, b: int| 0 <= a < b < w.len() ==> (#[trigger] w[a]).gen_index < (#[trigger] w[b]).gen_index
            &&& strip_basis(pres, ws, w, ts).len() == 0
        },
    decreases ws.len() - pos,
{
    if pos >= ws.len() {
    } else if ts.len() > 0 && ts[0].gen_index == ws[pos as int][0].gen_index {
        let e = ts[0].exponent;
        let nx = normal_form(pres, power_terms(pres, inverse_terms(pres, ws[pos as int]), e as nat) + ts);
        lemma_express_strips(pres, ws, nx, pos + 1);
        if let Some(r) = express_from(pres, ws, nx, pos + 1) {
            let w = seq![Term { gen_index: pos as usize, exponent: e }] + r;
            assert(w.skip(1) =~= r);
            assert(w[0] == Term { gen_index: pos as usize, exponent: e });
            assert forall|t: int| 0 <= t < w.len() implies pos <= (#[trigger] w[t]).gen_index < ws.len() by {
                if t > 0 {
                    assert(w[t] == r[t - 1]);
                }
            }
            assert forall|a: int, b: int| 0 <= a < b < w.len() implies (#[trigger] w[a]).gen_index < (#[trigger] w[b]).gen_index by {
                assert(w[b] == r[b - 1]);
                if a > 0 {
                    assert(w[a] == r[a - 1]);
                }
            }
        }
    } else if ts.len() > 0 && ts[0].gen_index < ws[pos as int][0].gen_index {
    } else {
        lemma_express_strips(pres, ws, ts, pos + 1);
    }
}

/// An expression over the echelon words `ws` from position `pos` on fails for a word whose leading
/// generator leads none of those words.
proof fn lemma_express_none(pres: Presentation, ws: Seq<Seq<Term>>, ts: Seq<Term>, pos: nat)
    requires
        echelon(pres, ws),
        ts.len() > 0,
        forall|a: int| pos <= a < ws.len() ==> (#[trigger] ws[a])[0].gen_index != ts[0].gen_index,
    ensures
        express_from(pres, ws, ts, pos) is None,
    decreases ws.len() - pos,
{
    if pos < ws.len() {
        assert(ws[pos as int][0].gen_index != ts[0].gen_index);
        if ts[0].gen_index > ws[pos as int][0].gen_index {
            lemma_express_none(pres, ws, ts, pos + 1);
        }
    }
}

/// Over echelon words, an expression exists exactly when the word sifts to the identity: the
/// expression is found for the members of the subgroup and for nothing else.
pub proof fn lemma_express_iff_member(pres: Presentation, ws: Seq<Seq<Term>>, ts: Seq<Term>, pos: nat)
    requires
        echelon(pres, ws),
        pos <= ws.len(),
        forall|a: int| 0 <= a < pos ==> ts.len() == 0 || (#[trigger] ws[a])[0].gen_index < ts[0].gen_index,
    ensures
        (express_from(pres, ws, ts, pos) is Some) == (sift_terms(pres, ws, ts).len() == 0),
    decreases ws.len() - pos,
{
    if ts.len() == 0 {
        if pos < ws.len() {
            lemma_express_iff_member(pres, ws, ts, pos + 1);
        }
    } else {
        let g = ts[0].gen_index as nat;
        lemma_find_lead(ws, g, 0);
        if pos >= ws.len() {
            match find_lead(ws, g, 0) {
                Some(k) => {
                    assert(ws[k as int][0].gen_index == g);
                },
                None => {},
            }
        } else {
            let l = ws[pos as int][0].gen_index as nat;
            assert(l < pres.n()) by {
                lemma_word_in_range(pres, ws, pos as int);
            }
            if g == l {
                match find_lead(ws, g, 0) {
                    Some(k) => {
                        if k != pos {
                            assert(ws[k as int][0].gen_index == ws[pos as int][0].gen_index);
                        }
                    },
                    None => {
                        assert(ws[pos as int].len() > 0 && ws[pos as int][0].gen_index == g);
                    },
                }
                assert(find_lead(ws, g, 0) == Some(pos));
                let e = ts[0].exponent;
                let nx = normal_form(pres, power_terms(pres, inverse_terms(pres, ws[pos as int]), e as nat) + ts);
                if nx.len() == 0 || (g < nx[0].gen_index && nx[0].gen_index < pres.n()) {
                    assert forall|a: int| 0 <= a < pos + 1 implies nx.len() == 0 || (#[trigger] ws[a])[0].gen_index < nx[0].gen_index by {
                        if a < pos {
                            assert(ws[a][0].gen_index < ts[0].gen_index);
                        }
                    }
                    lemma_express_iff_member(pres, ws, nx, pos + 1);
                } else {
                    assert forall|a: int| pos + 1 <= a < ws.len() implies (#[trigger] ws[a])[0].gen_index != nx[0].gen_index by {
                        assert(ws[pos as int][0].gen_index < ws[a][0].gen_index);
                        lemma_word_in_range(pres, ws, a);
                    }
                    lemma_express_none(pres, ws, nx, pos + 1);
                }
            } else if g < l {
                match find_lead(ws, g, 0) {
                    Some(k) => {
                        if k < pos {
                            assert(ws[k as int][0].gen_index < ts[0].gen_index);
                        } else if k > pos {
                            assert(ws[pos as int][0].gen_index < ws[k as int][0].gen_index);
                        }
                    },
                    None => {},
                }
            } else {
                lemma_express_iff_member(pres, ws, ts, pos + 1);
            }
        }
    }
}

/// The commutator `[u, v] = u^-1 v^-1 u v` as [`GeneratingSequence::from_generators`] computes it
/// for `u = u_i`, `v = u_j`: `u_j^-1 (u_i^-1 (u_j u_i))`.
pub open spec fn comm_terms(pres: Presentation, ui: Seq<Term>, uj: Seq<Term>) -> Seq<Term> {
    normal_form(
        pres,
        inverse_terms(pres, uj) + normal_form(pres, inverse_terms(pres, ui) + normal_form(pres, uj + ui)),
    )
}

/// The `p`-th power of word `i` (for the relative order `p` of its leading generator) and the
/// commutators of word `i` with the later words all sift to the identity.
pub open spec fn closed_at(pres: Presentation, ws: Seq<Seq<Term>>, i: int) -> bool {
    &&& sift_terms(
        pres,
        ws,
        power_terms(pres, ws[i], pres.ro()[ws[i][0].gen_index as int] as nat),
    ).len() == 0
    &&& forall|j: int|
        i < j < ws.len() ==> #[trigger] sift_terms(pres, ws, comm_terms(pres, ws[i], ws[j])).len() == 0
}

/// The words are closed under the power and commutator relations: every power and commutator
/// of the generators sifts to the identity.
pub open spec fn closed(pres: Presentation, ws: Seq<Seq<Term>>) -> bool {
    forall|i: int| 0 <= i < ws.len() ==> #[trigger] closed_at(pres, ws, i)
}

/// Sifting stops at once when no word has the leading generator of the terms.
pub proof fn lemma_sift_fixed(pres: Presentation, ws: Seq<Seq<Term>>, ts: Seq<Term>)
    requires
        ts.len() > 0 ==> find_lead(ws, ts[0].gen_index as nat, 0) is None,
    ensures
        sift_terms(pres, ws, ts) == ts,
{
}

/// The conjugate `g^-1 h g` as [`GeneratingSequence::normal_closure_in`] computes it:
/// `(g^-1 h) g`.
pub open spec fn conj_terms(pres: Presentation, h: Seq<Term>, g: Seq<Term>) -> Seq<Term> {
    normal_form(pres, normal_form(pres, inverse_terms(pres, g) + h) + g)
}

/// The words `[g_i]` of the generators of the presentation, one per generator.
pub open spec fn generator_words(pres: Presentation) -> Seq<Seq<Term>> {
    Seq::new(pres.n(), |i: int| seq![Term { gen_index: i as usize, exponent: 1 }])
}

/// A word of a sequence in echelon form is in normal form, with its generators in range.
pub proof fn lemma_word_in_range(pres: Presentation, ws: Seq<Seq<Term>>, i: int)
    requires
        echelon(pres, ws),
        0 <= i < ws.len(),
    ensures
        forall|t: int| 0 <= t < ws[i].len() ==> (#[trigger] ws[i][t]).gen_index < pres.n(),
        is_normal_terms(ws[i], pres.ro()),
{
}

/// The conjugates of word `i` by all the given words sift to the identity.
pub open spec fn normal_at(pres: Presentation, ws: Seq<Seq<Term>>, gs: Seq<Seq<Term>>, i: int) -> bool {
    forall|t: int| 0 <= t < gs.len() ==> #[trigger] sift_terms(pres, ws, conj_terms(pres, ws[i], gs[t])).len() == 0
}

/// The words are closed under conjugation by the given words.
pub open spec fn normal_closed(pres: Presentation, ws: Seq<Seq<Term>>, gs: Seq<Seq<Term>>) -> bool {
    forall|i: int| 0 <= i < ws.len() ==> #[trigger] normal_at(pres, ws, gs, i)
}

/// Words in echelon form number at most the generators.
pub proof fn lemma_echelon_len(pres: Presentation, ws: Seq<Seq<Term>>)
    requires
        echelon(pres, ws),
    ensures
        ws.len() <= pres.n(),
{
    if ws.len() > 0 {
        lemma_echelon_gap(pres, ws, 0);
        let last = ws[ws.len() - 1];
        assert(is_normal_terms(last, pres.ro()));
        assert(last[0].gen_index < pres.n());
    }
}

/// Strictly increasing leading generators grow by at least one per word.
proof fn lemma_echelon_gap(pres: Presentation, ws: Seq<Seq<Term>>, i: int)
    requires
        echelon(pres, ws),
        0 <= i < ws.len(),
    ensures
        ws[i][0].gen_index + (ws.len() - 1 - i) <= ws[ws.len() - 1][0].gen_index,
    decreases ws.len() - i,
{
    if i < ws.len() - 1 {
        lemma_echelon_gap(pres, ws, i + 1);
        assert(ws[i][0].gen_index < ws[i + 1][0].gen_index);
    }
}

/// A polycyclic generating sequence of a subgroup of a polycyclic group, in echelon form with
/// leading exponents one.
#[derive(Debug, Clone)]
pub struct GeneratingSequence<'a> {
    pres: &'a Presentation,
    elements: Vec<Element<'a>>,
}

impl<'a> GeneratingSequence<'a> {
    /// The presentation of the parent group.
    pub closed spec fn pres_view(&self) -> Presentation {
        *self.pres
    }

    /// The words of the generators, in order.
    pub closed spec fn words(&self) -> Seq<Seq<Term>> {
        self.elements@.map_values(|e: Element<'a>| e.word.terms@)
    }

    /// The presentation is collectable, every generator belongs to it, and the words are in
    /// echelon form.
    pub closed spec fn wf(&self) -> bool {
        &&& self.pres.collectable()
        &&& forall|i: int| 0 <= i < self.elements@.len() ==> (#[trigger] self.elements@[i]).pres == self.pres
        &&& echelon(*self.pres, self.words())
    }

    /// A well-formed generating sequence lives in a collectable presentation and its words are
    /// in echelon form.
    pub proof fn lemma_wf(&self)
        requires
            self.wf(),
        ensures
            self.pres_view().collectable(),
            echelon(self.pres_view(), self.words()),
    {
    }

    /// A copy of this generating sequence over the same presentation.
    pub fn duplicate(&self) -> (s: Self)
        ensures
            s.pres_view() == self.pres_view(),
            s.words() == self.words(),
            self.wf() ==> s.wf(),
    {
        let mut elements: Vec<Element<'a>> = Vec::new();
        let mut k: usize = 0;
        while k < self.elements.len()
            invariant
                k <= self.elements@.len(),
                elements@.len() == k,
                forall|a: int| 0 <= a < k ==> (#[trigger] elements@[a]).pres == self.elements@[a].pres,
                forall|a: int|
                    0 <= a < k ==> #[trigger] elements@[a].word.terms@ == self.elements@[a].word.terms@,
            decreases self.elements@.len() - k,
        {
            let d = self.elements[k].duplicate();
            elements.push(d);
            k = k + 1;
        }
        let s = GeneratingSequence { pres: self.pres, elements };
        assert(s.words() =~= self.words());
        s
    }

    /// Returns `true` if the subgroup is normal in the parent group: the conjugate `g^-1 h g` of
    /// every generator `h` by every generator `g` of the parent group sifts to the identity.
    pub fn is_normal(&self) -> (b: bool)
        requires
            self.wf(),
        ensures
            b == normal_closed(self.pres_view(), self.words(), generator_words(self.pres_view())),
    {
        let ghost pv = *self.pres;
        let ghost ws = self.words();
        let ghost gs = generator_words(pv);
        let full = GeneratingSequence::full_group(self.pres);
        let gens = full.elements();
        let mut i: usize = 0;
        while i < self.elements.len()
            invariant
                i <= ws.len(),
                ws == self.words(),
                ws.len() == self.elements@.len(),
                self.wf(),
                pv == *self.pres,
                full.wf(),
                full.pres_view() == pv,
                full.words() == gs,
                gs == generator_words(pv),
                gens@.map_values(|e: Element<'a>| e.word.terms@) == gs,
                forall|a: int| 0 <= a < gens@.len() ==> (#[trigger] gens@[a]).pres == pv,
                forall|a: int| 0 <= a < i ==> #[trigger] normal_at(pv, ws, gs, a),
            decreases ws.len() - i,
        {
            let h = &self.elements[i];
            proof {
                assert(ws[i as int] == h.word.terms@);
                lemma_word_in_range(pv, ws, i as int);
            }
            let mut t: usize = 0;
            while t < gens.len()
                invariant
                    t <= gens@.len(),
                    i < ws.len(),
                    ws == self.words(),
                    self.wf(),
                    pv == *self.pres,
                    full.wf(),
                    full.pres_view() == pv,
                    full.words() == gs,
                    gs == generator_words(pv),
                    gens@.map_values(|e: Element<'a>| e.word.terms@) == gs,
                    forall|a: int| 0 <= a < gens@.len() ==> (#[trigger] gens@[a]).pres == pv,
                    h.pres == pv,
                    h.word.terms@ == ws[i as int],
                    is_normal_terms(ws[i as int], pv.ro()),
                    forall|b: int|
                        0 <= b < t ==> #[trigger] sift_terms(pv, ws, conj_terms(pv, ws[i as int], gs[b])).len()
                            == 0,
                decreases gens@.len() - t,
            {
                let g = &gens[t];
                proof {
                    assert(gs[t as int] == g.word.terms@);
                    lemma_word_in_range(pv, gs, t as int);
                }
                let conj = g.inverse().product(h).product(g);
                let rem = self.sift(conj);
                if !rem.is_identity() {
                    proof {
                        assert(sift_terms(pv, ws, conj_terms(pv, ws[i as int], gs[t as int])).len() != 0);
                        assert(!normal_at(pv, ws, gs, i as int));
                        assert(pv == self.pres_view() && gs == generator_words(self.pres_view()));
                        assert(!normal_closed(self.pres_view(), self.words(), generator_words(self.pres_view())));
                    }
                    return false;
                }
                t = t + 1;
            }
            proof {
                assert(normal_at(pv, ws, gs, i as int));
            }
            i = i + 1;
        }
        true
    }

    /// Initializes an empty generating sequence representing the trivial subgroup `{1}`.
    pub fn trivial(pres: &'a Presentation) -> (s: Self)
        ensures
            s.pres_view() == *pres,
            s.words() == Seq::<Seq<Term>>::empty(),
            pres.collectable() ==> s.wf(),
    {
        let s = GeneratingSequence { pres, elements: Vec::new() };
        assert(s.words() =~= Seq::<Seq<Term>>::empty());
        s
    }

    /// Initializes an empty generating sequence (the same as `trivial`).
    pub fn empty(pres: &'a Presentation) -> (s: Self)
        ensures
            s.pres_view() == *pres,
            s.words() == Seq::<Seq<Term>>::empty(),
            pres.collectable() ==> s.wf(),
    {
        Self::trivial(pres)
    }

    /// Returns a reference to the associated presentation.
    pub fn presentation(&self) -> (p: &'a Presentation)
        ensures
            *p == self.pres_view(),
    {
        self.pres
    }

    /// Returns `true` if this generating sequence represents the trivial subgroup `{1}`.
    pub fn is_trivial(&self) -> (b: bool)
        ensures
            b == (self.words().len() == 0),
    {
        self.elements.len() == 0
    }

    /// Returns `true` if the sequence has no elements (the same as `is_trivial`).
    pub fn is_empty(&self) -> (b: bool)
        ensures
            b == (self.words().len() == 0),
    {
        self.elements.len() == 0
    }

    /// Returns the number of polycyclic generators in this sequence.
    pub fn len(&self) -> (n: usize)
        ensures
            n == self.words().len(),
    {
        self.elements.len()
    }

    /// Sifts an element `x` through the generating sequence, eliminating matching leading terms.
    ///
    /// Returns the remainder, which is the identity if `x` belongs to the subgroup.
    pub fn sift(&self, x: Element<'a>) -> (r: Element<'a>)
        requires
            self.wf(),
            x.pres == self.pres_view(),
            is_normal_terms(x.word.terms@, self.pres_view().ro()),
        ensures
            r.pres == self.pres_view(),
            r.valid(),
            r.word.terms@ == sift_terms(self.pres_view(), self.words(), x.word.terms@),
            r.word.terms@.len() == 0 || find_lead(self.words(), r.word.terms@[0].gen_index as nat, 0) is None,
    {
        let ghost pv = *self.pres;
        let ghost ws = self.words();
        let mut x = x;
        let ghost target = sift_terms(pv, ws, x.word.terms@);
        loop
            invariant
                self.wf(),
                pv == *self.pres,
                ws == self.words(),
                x.pres == pv,
                x.valid(),
                sift_terms(pv, ws, x.word.terms@) == target,
            ensures
                x.pres == pv,
                x.valid(),
                x.word.terms@ == target,
                x.word.terms@.len() == 0 || find_lead(ws, x.word.terms@[0].gen_index as nat, 0) is None,
            decreases pv.n() - lead(x.word.terms@, pv.n()),
        {
            let term = match x.leading_term() {
                Some(t) => t,
                None => {
                    break;
                },
            };
            proof {
                assert(term.gen_index < pv.n());
                lemma_find_lead(ws, term.gen_index as nat, 0);
            }
            let mut idx: usize = 0;
            let mut found = false;
            assert(ws.len() == self.elements@.len());
            while idx < self.elements.len()
                invariant_except_break
                    !found,
                    forall|k: int| 0 <= k < idx ==> ws[k][0].gen_index != term.gen_index,
                invariant
                    idx <= self.elements@.len(),
                    ws == self.words(),
                    self.wf(),
                ensures
                    found ==> idx < ws.len() && ws[idx as int][0].gen_index == term.gen_index,
                    !found ==> idx == ws.len() && forall|k: int|
                        0 <= k < idx ==> ws[k][0].gen_index != term.gen_index,
                decreases self.elements@.len() - idx,
            {
                assert(ws[idx as int] == self.elements@[idx as int].word.terms@);
                if self.elements[idx].leading_generator() == Some(term.gen_index) {
                    found = true;
                    break;
                }
                idx = idx + 1;
            }
            if !found {
                proof {
                    assert(find_lead(ws, term.gen_index as nat, 0) is None) by {
                        if find_lead(ws, term.gen_index as nat, 0) is Some {
                            let k = find_lead(ws, term.gen_index as nat, 0)->0;
                            assert(ws[k as int][0].gen_index == term.gen_index);
                        }
                    }
                }
                break;
            }
            let h = &self.elements[idx];
            proof {
                assert(ws[idx as int] == h.word.terms@);
                assert(find_lead(ws, term.gen_index as nat, 0) == Some(idx as nat)) by {
                    let k = find_lead(ws, term.gen_index as nat, 0)->0;
                    if k < idx {
                        assert(ws[k as int][0].gen_index == term.gen_index);
                    }
                    if k > idx {
                        assert(ws[idx as int][0].gen_index == term.gen_index);
                    }
                }
                assert(forall|i: int| 0 <= i < h.word.terms@.len() ==> (#[trigger] h.word.terms@[i]).gen_index < pv.n());
                lemma_sift_step(pv, h.word.terms@, x.word.terms@);
            }
            let h_inv = h.inverse().pow(term.exponent);
            let ghost before = x.word.terms@;
            x = h_inv.product(&x);
            proof {
                let nx = x.word.terms@;
                assert(nx.len() > 0 ==> nx[0].gen_index >= term.gen_index + 1);
                assert(sift_terms(pv, ws, before) == sift_terms(pv, ws, nx));
            }
        }
        x
    }

    /// Returns `true` if element `x` is contained in this subgroup: it sifts to the identity.
    pub fn contains(&self, x: &Element<'a>) -> (b: bool)
        requires
            self.wf(),
            x.pres == self.pres_view(),
            is_normal_terms(x.word.terms@, self.pres_view().ro()),
        ensures
            b == (sift_terms(self.pres_view(), self.words(), x.word.terms@).len() == 0),
    {
        self.sift(x.duplicate()).is_identity()
    }

    /// Inserts an element `x` into the sequence while maintaining normalized echelon form.
    ///
    /// Returns `true` if the subgroup grew, or `false` if `x` was already in the span.
    pub fn insert(&mut self, x: Element<'a>) -> (grew: bool)
        requires
            old(self).wf(),
            x.pres == old(self).pres_view(),
            is_normal_terms(x.word.terms@, old(self).pres_view().ro()),
        ensures
            final(self).wf(),
            final(self).pres_view() == old(self).pres_view(),
            grew == (sift_terms(old(self).pres_view(), old(self).words(), x.word.terms@).len() > 0),
            !grew ==> final(self).words() == old(self).words(),
            grew ==> final(self).words().len() == old(self).words().len() + 1,
            grew ==> inserted(
                old(self).pres_view(),
                old(self).words(),
                sift_terms(old(self).pres_view(), old(self).words(), x.word.terms@),
                final(self).words(),
            ),
    {
        let ghost pv = *self.pres;
        let ghost ws = self.words();
        let rem = self.sift(x);
        if rem.is_identity() {
            return false;
        }
        let lead_term = match rem.leading_term() {
            Some(t) => t,
            None => {
                return false;
            },
        };
        let g = lead_term.gen_index;
        let p = self.pres.relative_order(g);
        proof {
            assert(spec_is_prime(p as int));
            lemma_small_mod(lead_term.exponent as nat, p as nat);
            crate::util::ntheory::lemma_gcd_prime(p as nat, lead_term.exponent as nat);
        }
        let inv = crate::util::ntheory::mod_inverse(lead_term.exponent, p).expect(
            "leading exponent must be coprime to prime relative order",
        );
        let norm_rem = rem.pow(inv);
        proof {
            let r = rem.word.terms@;
            assert(gens_at_least(r, g as nat)) by {
                assert forall|i: int| 0 <= i < r.len() implies (#[trigger] r[i]).gen_index >= g by {
                    if i > 0 {
                        assert(r[0].gen_index < r[i].gen_index);
                    }
                }
            }
            lemma_power_val(pv, r, inv as nat, g as nat);
            lemma_exp_of_unique(r, 0);
            assert(((inv * lead_term.exponent) as int) % (p as int) == 1) by (nonlinear_arith)
                requires
                    ((lead_term.exponent as int) * (inv as int)) % (p as int) == 1,
            ;
            lemma_lead_term(norm_rem.word.terms@, g as nat);
        }
        let mut idx: usize = 0;
        proof {
            assert forall|j: int| 0 <= j < self.elements@.len() implies (
            #[trigger] self.elements@[j]).word.terms@.len() > 0 by {
                assert(ws[j] == self.elements@[j].word.terms@);
            }
        }
        while idx < self.elements.len() && self.elements[idx].leading_generator().unwrap() < g
            invariant
                idx <= self.elements@.len(),
                ws == self.words(),
                self.wf(),
                pv == *self.pres,
                forall|j: int| 0 <= j < idx ==> #[trigger] ws[j][0].gen_index < g,
                forall|j: int|
                    0 <= j < self.elements@.len() ==> (#[trigger] self.elements@[j]).word.terms@.len()
                        > 0,
            decreases self.elements@.len() - idx,
        {
            proof {
                assert(ws[idx as int] == self.elements@[idx as int].word.terms@);
            }
            idx = idx + 1;
        }
        proof {
            lemma_find_lead(ws, g as nat, 0);
            assert forall|j: int| idx <= j < ws.len() implies #[trigger] ws[j][0].gen_index > g by {
                assert(ws[idx as int] == self.elements@[idx as int].word.terms@);
                assert(ws[idx as int][0].gen_index >= g);
                assert(ws[j][0].gen_index != g);
                if j > idx {
                    assert(ws[idx as int][0].gen_index < ws[j][0].gen_index);
                }
            }
        }
        let ghost w = norm_rem.word.terms@;
        self.elements.insert(idx, norm_rem);
        proof {
            let ws2 = self.words();
            assert(ws2 =~= ws.insert(idx as int, w));
            assert(ws2.len() == ws.len() + 1);
            assert(inserted(pv, ws, rem.word.terms@, ws2));
            assert forall|i: int| 0 <= i < self.elements@.len() implies (
            #[trigger] self.elements@[i]).pres == self.pres by {
                if i < idx {
                    assert(self.elements@[i] == old(self).elements@[i]);
                } else if i > idx {
                    assert(self.elements@[i] == old(self).elements@[i - 1]);
                }
            }
            assert forall|i: int, j: int| 0 <= i < j < ws2.len() implies ws2[i][0].gen_index
                < ws2[j][0].gen_index by {
                if i < idx && j < idx {
                    assert(ws2[i] == ws[i] && ws2[j] == ws[j]);
                } else if i < idx && j == idx {
                    assert(ws2[i] == ws[i]);
                } else if i < idx {
                    assert(ws2[i] == ws[i] && ws2[j] == ws[j - 1]);
                } else if i == idx {
                    assert(ws2[j] == ws[j - 1]);
                } else {
                    assert(ws2[i] == ws[i - 1] && ws2[j] == ws[j - 1]);
                }
            }
            assert forall|i: int| 0 <= i < ws2.len() implies is_normal_terms(#[trigger] ws2[i], pv.ro())
                && ws2[i].len() > 0 && ws2[i][0].exponent == 1 by {
                if i < idx {
                    assert(ws2[i] == ws[i]);
                } else if i > idx {
                    assert(ws2[i] == ws[i - 1]);
                }
            }
        }
        true
    }

    /// Initializes a generating sequence representing the full group `G = < g0, ..., g{n-1} >`.
    pub fn full_group(pres: &'a Presentation) -> (s: Self)
        requires
            pres.collectable(),
        ensures
            s.wf(),
            s.pres_view() == *pres,
            s.words() == generator_words(*pres),
    {
        let n = pres.num_gens();
        let mut elements: Vec<Element<'a>> = Vec::new();
        let mut i: usize = 0;
        while i < n
            invariant
                i <= n,
                n == pres.n(),
                pres.collectable(),
                elements@.len() == i,
                forall|k: int| 0 <= k < i ==> (#[trigger] elements@[k]).pres == pres,
                forall|k: int|
                    0 <= k < i ==> (#[trigger] elements@[k]).word.terms@ == seq![
                        Term { gen_index: k as usize, exponent: 1 },
                    ],
            decreases n - i,
        {
            proof {
                assert(spec_is_prime(pres.ro()[i as int] as int));
                assert(pres.ro()[i as int] <= 0x8000_0000);
                let t = Term { gen_index: i, exponent: 1 };
                assert(is_normal_terms(seq![t], pres.ro()));
                crate::element::lemma_normal_form_of_normal(*pres, seq![t]);
            }
            elements.push(Element::from_generator(i, 1, pres));
            i = i + 1;
        }
        let s = GeneratingSequence { pres, elements };
        proof {
            assert(s.words() =~= Seq::new(
                pres.n(),
                |i: int| seq![Term { gen_index: i as usize, exponent: 1 }],
            ));
            let ws = s.words();
            assert forall|i: int| 0 <= i < ws.len() implies is_normal_terms(#[trigger] ws[i], pres.ro())
                && ws[i].len() > 0 && ws[i][0].exponent == 1 by {
                assert(spec_is_prime(pres.ro()[i] as int));
            }
        }
        s
    }

    /// Returns the basis elements in this sequence.
    pub fn elements(&self) -> (es: &[Element<'a>])
        ensures
            es@.map_values(|e: Element<'a>| e.word.terms@) == self.words(),
            self.wf() ==> forall|i: int| 0 <= i < es@.len() ==> (#[trigger] es@[i]).pres == self.pres_view(),
    {
        self.elements.as_slice()
    }

    /// Returns an iterator over references to the basis elements.
    pub fn iter(&self) -> (it: std::slice::Iter<'_, Element<'a>>)
        ensures
            vstd::std_specs::slice::into_iter_elts(it).map_values(|e: Element<'a>| e.word.terms@)
                == self.words(),
    {
        broadcast use vstd::std_specs::slice::axiom_spec_slice_iter;

        let it = self.elements.as_slice().iter();
        assert(self.elements@.as_ref().unref() =~= self.elements@);
        it
    }

    /// Computes the order of this subgroup, the product of the relative orders of the leading
    /// generators.
    pub fn order(&self) -> (o: u128)
        requires
            self.wf(),
            forall|k: int|
                0 <= k <= self.words().len() ==> #[trigger] seq_product(
                    lead_orders(self.pres_view(), self.words()).take(k),
                ) <= u128::MAX,
        ensures
            o == seq_product(lead_orders(self.pres_view(), self.words())),
    {
        let ghost lo = lead_orders(*self.pres, self.words());
        let mut acc: u128 = 1;
        let mut i: usize = 0;
        assert(lo.take(0) =~= Seq::<u32>::empty());
        assert(lo.len() == self.words().len());
        assert forall|k: int| 0 <= k <= lo.len() implies #[trigger] seq_product(lo.take(k)) <= u128::MAX by {
            assert(seq_product(lead_orders(self.pres_view(), self.words()).take(k)) <= u128::MAX);
        }
        while i < self.elements.len()
            invariant
                i <= self.elements@.len(),
                self.wf(),
                lo == lead_orders(*self.pres, self.words()),
                lo.len() == self.elements@.len(),
                acc == seq_product(lo.take(i as int)),
                forall|k: int| 0 <= k <= lo.len() ==> #[trigger] seq_product(lo.take(k)) <= u128::MAX,
            decreases self.elements@.len() - i,
        {
            let ghost w = self.elements@[i as int].word.terms@;
            assert(self.words()[i as int] == w);
            let g = self.elements[i].leading_generator().unwrap();
            assert(lo.take(i as int + 1).drop_last() =~= lo.take(i as int));
            assert(seq_product(lo.take(i as int + 1)) <= u128::MAX);
            acc = acc * (self.pres.relative_order(g) as u128);
            i = i + 1;
        }
        assert(lo.take(i as int) =~= lo);
        acc
    }

    /// Computes the index `[G : H] = |G| / |H|` of this subgroup in the parent group.
    pub fn index(&self) -> (ix: u128)
        requires
            self.wf(),
            forall|k: int|
                0 <= k <= self.words().len() ==> #[trigger] seq_product(
                    lead_orders(self.pres_view(), self.words()).take(k),
                ) <= u128::MAX,
            forall|k: int|
                0 <= k <= self.pres_view().n() ==> #[trigger] seq_product(self.pres_view().ro().take(k))
                    <= u128::MAX,
        ensures
            ix == seq_product(self.pres_view().ro()) / seq_product(
                lead_orders(self.pres_view(), self.words()),
            ),
    {
        let ghost lo = lead_orders(*self.pres, self.words());
        proof {
            assert forall|i: int| 0 <= i < lo.len() implies #[trigger] lo[i] >= 2 by {
                assert(spec_is_prime(self.pres.ro()[self.words()[i][0].gen_index as int] as int));
            }
            crate::util::ntheory::lemma_product_two_pow(lo);
            crate::util::ntheory::lemma_two_pow_mono(0, lo.len());
            let pr = self.pres.ro();
            assert forall|k: int| 0 <= k <= self.pres.n() implies #[trigger] seq_product(pr.take(k))
                <= u128::MAX by {
                assert(seq_product(self.pres_view().ro().take(k)) <= u128::MAX);
            }
        }
        self.pres.order() / self.order()
    }

    /// Reduces trailing terms of all basis elements to obtain a unique canonical generating
    /// sequence: no element keeps a term in the leading generator of a later element.
    pub fn canonicalize(&mut self)
        requires
            old(self).wf(),
        ensures
            final(self).wf(),
            final(self).pres_view() == old(self).pres_view(),
            final(self).words() == reduce_all(
                old(self).pres_view(),
                old(self).words(),
                0,
                old(self).words().len(),
            ),
            final(self).words().len() == old(self).words().len(),
            forall|i: int|
                0 <= i < final(self).words().len() ==> (#[trigger] final(self).words()[i])[0]
                    == old(self).words()[i][0],
            reduced(final(self).words()),
    {
        let ghost pv = *self.pres;
        let ghost ws0 = self.words();
        let n = self.elements.len();
        let mut i: usize = 0;
        while i < n
            invariant
                i <= n,
                n == self.words().len(),
                self.wf(),
                pv == *self.pres,
                pv == old(self).pres_view(),
                reduce_all(pv, self.words(), i as nat, n as nat) == reduce_all(pv, ws0, 0, n as nat),
                forall|k: int| 0 <= k < n ==> (#[trigger] self.words()[k])[0] == ws0[k][0],
                forall|a: int, b: int|
                    0 <= a < i && a < b < n ==> #[trigger] exp_of(
                        self.words()[a],
                        self.words()[b][0].gen_index as nat,
                    ) == 0,
            decreases n - i,
        {
            let ghost wsi = self.words();
            let mut j: usize = i + 1;
            while j < n
                invariant
                    i < j <= n,
                    n == self.words().len(),
                    self.wf(),
                    pv == *self.pres,
                    reduce_row(pv, self.words(), i as nat, j as nat, n as nat) == reduce_row(
                        pv,
                        wsi,
                        i as nat,
                        (i + 1) as nat,
                        n as nat,
                    ),
                    forall|k: int| 0 <= k < n ==> (#[trigger] self.words()[k])[0] == ws0[k][0],
                    forall|k: int| 0 <= k < n && k != i ==> #[trigger] self.words()[k] == wsi[k],
                    forall|a: int, b: int|
                        0 <= a < i && a < b < n ==> #[trigger] exp_of(
                            self.words()[a],
                            self.words()[b][0].gen_index as nat,
                        ) == 0,
                    forall|b: int|
                        i < b < j ==> #[trigger] exp_of(
                            self.words()[i as int],
                            self.words()[b][0].gen_index as nat,
                        ) == 0,
                decreases n - j,
            {
                let ghost ws = self.words();
                assert(ws[j as int] == self.elements@[j as int].word.terms@);
                assert(ws[i as int] == self.elements@[i as int].word.terms@);
                let target_gen = self.elements[j].leading_generator().unwrap();
                let mut t: usize = 0;
                let mut found: Option<u32> = None;
                let ghost ui = ws[i as int];
                assert(ui.skip(0) =~= ui);
                assert(self.elements@.len() == n);
                while t < self.elements[i].word.terms.len()
                    invariant_except_break
                        found is None,
                    invariant
                        t <= ui.len(),
                        i < n,
                        n == self.elements@.len(),
                        ui == self.elements@[i as int].word.terms@,
                        find_exp(ui, target_gen as nat) == find_exp(ui.skip(t as int), target_gen as nat),
                    ensures
                        found == find_exp(ui, target_gen as nat),
                    decreases ui.len() - t,
                {
                    let term = self.elements[i].word.terms[t];
                    assert(ui.skip(t as int)[0] == term);
                    assert(ui.skip(t as int).skip(1) =~= ui.skip(t as int + 1));
                    if term.gen_index == target_gen {
                        found = Some(term.exponent);
                        break;
                    }
                    t = t + 1;
                }
                proof {
                    if t == ui.len() && found is None {
                        assert(ui.skip(t as int) =~= Seq::<Term>::empty());
                    }
                    lemma_find_exp(ui, target_gen as nat);
                }
                let ghost before = self.words();
                match found {
                    Some(exp) => {
                        proof {
                            lemma_reduce_step(pv, ws[i as int], ws[j as int], exp as nat);
                            assert forall|k: int| 0 <= k < ws[j as int].len() implies (
                            #[trigger] ws[j as int][k]).gen_index < pv.n() by {}
                        }
                        let u_j_inv = self.elements[j].inverse().pow(exp);
                        let new_elem = self.elements[i].product(&u_j_inv);
                        self.elements.set(i, new_elem);
                        proof {
                            assert(self.words() =~= ws.update(
                                i as int,
                                normal_form(
                                    pv,
                                    ws[i as int] + power_terms(
                                        pv,
                                        inverse_terms(pv, ws[j as int]),
                                        exp as nat,
                                    ),
                                ),
                            ));
                        }
                    },
                    None => {},
                }
                proof {
                    let w2 = self.words();
                    assert(w2 == reduce_pair(pv, ws, i as nat, j as nat));
                    let r = w2[i as int];
                    assert(r.len() > 0 && r[0] == ws[i as int][0]);
                    assert forall|k: int| 0 <= k < n implies (#[trigger] w2[k])[0] == ws0[k][0] by {
                        if k == i {
                            assert(ws[k][0] == ws0[k][0]);
                        } else {
                            assert(w2[k] == ws[k]);
                        }
                    }
                    assert forall|k: int| 0 <= k < n && k != i implies #[trigger] w2[k] == wsi[k] by {
                        assert(w2[k] == ws[k]);
                    }
                    assert forall|b: int| i < b < j + 1 implies #[trigger] exp_of(
                        w2[i as int],
                        w2[b][0].gen_index as nat,
                    ) == 0 by {
                        assert(w2[b][0] == ws[b][0]);
                        if b < j && found is Some {
                            assert(ws[b][0].gen_index < ws[j as int][0].gen_index);
                        }
                    }
                    assert forall|a: int, b: int| 0 <= a < i && a < b < n implies #[trigger] exp_of(
                        w2[a],
                        w2[b][0].gen_index as nat,
                    ) == 0 by {
                        assert(w2[a] == ws[a]);
                        assert(w2[b][0] == ws[b][0]);
                    }
                    assert forall|k: int| 0 <= k < self.elements@.len() implies (
                    #[trigger] self.elements@[k]).pres == self.pres by {
                        if k != i {
                            assert(self.elements@[k] == old(self).elements@[k] || true);
                        }
                    }
                    assert forall|a: int, b: int| 0 <= a < b < w2.len() implies w2[a][0].gen_index
                        < w2[b][0].gen_index by {
                        assert(w2[a][0] == ws0[a][0] && w2[b][0] == ws0[b][0]);
                        assert(ws0[a][0] == ws[a][0] && ws0[b][0] == ws[b][0]);
                    }
                }
                j = j + 1;
            }
            proof {
                let w2 = self.words();
                assert forall|a: int, b: int| 0 <= a < i + 1 && a < b < n implies #[trigger] exp_of(
                    w2[a],
                    w2[b][0].gen_index as nat,
                ) == 0 by {
                    if a < i {
                    } else {
                        assert(a == i);
                    }
                }
            }
            i = i + 1;
        }
    }

    /// Expresses an element `x` as a word over the basis indices `0..self.len()`.
    ///
    /// Returns `Some(word)` if `x` is in this subgroup, or `None` if it is not.
    pub fn express_in_basis(&self, elem: Element<'a>) -> (r: Option<crate::word::Word>)
        requires
            self.wf(),
            elem.pres == self.pres_view(),
            is_normal_terms(elem.word.terms@, self.pres_view().ro()),
        ensures
            r is Some <==> express_from(self.pres_view(), self.words(), elem.word.terms@, 0) is Some,
            r matches Some(w) ==> w.terms@ == express_from(
                self.pres_view(),
                self.words(),
                elem.word.terms@,
                0,
            )->0,
            r matches Some(w) ==> forall|t: int| 0 <= t < w.terms@.len() ==> (#[trigger] w.terms@[t]).gen_index < self.words().len(),
            r matches Some(w) ==> forall|a: int, b: int|
                0 <= a < b < w.terms@.len() ==> (#[trigger] w.terms@[a]).gen_index < (#[trigger] w.terms@[b]).gen_index,
            r matches Some(w) ==> strip_basis(self.pres_view(), self.words(), w.terms@, elem.word.terms@).len() == 0,
            r is Some <==> sift_terms(self.pres_view(), self.words(), elem.word.terms@).len() == 0,
    {
        let count = self.elements.len();
        proof {
            assert(self.words().len() == count);
            lemma_express_strips(self.pres_view(), self.words(), elem.word.terms@, 0);
            self.lemma_wf();
            lemma_express_iff_member(self.pres_view(), self.words(), elem.word.terms@, 0);
        }
        let ghost pv = *self.pres;
        let ghost ws = self.words();
        let ghost target = express_from(pv, ws, elem.word.terms@, 0);
        let mut terms: Vec<Term> = Vec::new();
        let mut x = elem;
        let mut pos: usize = 0;
        while pos < self.elements.len()
            invariant
                pos <= ws.len(),
                ws.len() == self.elements@.len(),
                self.wf(),
                pv == *self.pres,
                ws == self.words(),
                x.pres == pv,
                x.valid(),
                target == express_from(pv, ws, elem.word.terms@, 0),
                target is Some <==> express_from(pv, ws, x.word.terms@, pos as nat) is Some,
                target is Some ==> target->0 == terms@ + express_from(pv, ws, x.word.terms@, pos as nat)->0,
                (target is Some) == (sift_terms(pv, ws, elem.word.terms@).len() == 0),
            decreases ws.len() - pos,
        {
            let b = &self.elements[pos];
            proof {
                assert(ws[pos as int] == b.word.terms@);
            }
            let b_lead = b.leading_generator().unwrap();
            match x.leading_generator() {
                Some(x_lead) => {
                    if x_lead == b_lead {
                        let exp = x.leading_exponent().unwrap();
                        proof {
                            assert forall|k: int| 0 <= k < b.word.terms@.len() implies (
                            #[trigger] b.word.terms@[k]).gen_index < pv.n() by {}
                            lemma_sift_step(pv, b.word.terms@, x.word.terms@);
                        }
                        let ghost before = terms@;
                        terms.push(Term::new(pos, exp));
                        let b_inv = b.inverse().pow(exp);
                        x = b_inv.product(&x);
                        proof {
                            let e = express_from(pv, ws, x.word.terms@, (pos + 1) as nat);
                            if e is Some {
                                assert(before + (seq![Term { gen_index: pos, exponent: exp }] + e->0)
                                    =~= terms@ + e->0);
                            }
                        }
                    } else if x_lead < b_lead {
                        assert(express_from(pv, ws, x.word.terms@, pos as nat) is None);
                        return None;
                    }
                },
                None => {},
            }
            pos = pos + 1;
        }
        if x.is_identity() {
            proof {
                assert(terms@ + Seq::<Term>::empty() =~= terms@);
            }
            Some(crate::word::Word::new(terms))
        } else {
            None
        }
    }

    /// Extends the sequence by the sifted remainders of the powers and commutators of its
    /// members until all of them sift to the identity.
    #[verifier::spinoff_prover]
    #[verifier::rlimit(40)]
    fn close(&mut self, Ghost(gens): Ghost<Set<Seq<Term>>>, Ghost(gs): Ghost<Seq<Seq<Term>>>)
        requires
            old(self).wf(),
            all_in_span(old(self).pres_view(), gens, gs, old(self).words()),
        ensures
            all_in_span(final(self).pres_view(), gens, gs, final(self).words()),
            final(self).wf(),
            final(self).pres_view() == old(self).pres_view(),
            closed(final(self).pres_view(), final(self).words()),
            final(self).words().len() >= old(self).words().len(),
    {
        let ghost pv = *self.pres;
        let ghost len0 = self.words().len();
        let mut i: usize = 0;
        while i < self.elements.len()
            invariant
                i <= self.words().len(),
                self.words().len() == self.elements@.len(),
                self.wf(),
                self.pres_view() == pv,
                pv == *self.pres,
                forall|a: int| 0 <= a < i ==> #[trigger] closed_at(pv, self.words(), a),
                self.words().len() >= len0,
                all_in_span(pv, gens, gs, self.words()),
            decreases pv.n() - self.words().len(), self.words().len() - i,
        {
            let ghost ws = self.words();
            proof {
                lemma_echelon_len(pv, ws);
                assert(ws[i as int] == self.elements@[i as int].word.terms@);
            }
            let lead_gen = self.elements[i].leading_generator().unwrap();
            let p = self.pres.relative_order(lead_gen);
            let pwr = self.elements[i].pow(p);
            proof {
                assert(in_span(pv, gens, gs, ws[i as int]));
                lemma_span_power(pv, gens, gs, ws[i as int], p as nat);
                lemma_span_sift(pv, gens, gs, ws, pwr.word.terms@);
            }
            let rem_pwr = self.sift(pwr);
            if !rem_pwr.is_identity() {
                proof {
                    lemma_sift_fixed(pv, ws, rem_pwr.word.terms@);
                }
                let ghost remw = rem_pwr.word.terms@;
                let grew = self.insert(rem_pwr);
                proof {
                    lemma_span_insert(pv, gens, gs, ws, remw, self.words(), grew);
                    lemma_echelon_len(pv, self.words());
                }
                i = 0;
            } else {
                let mut restart = false;
                let mut j: usize = i + 1;
                while j < self.elements.len()
                    invariant_except_break
                        !restart,
                        self.words() == ws,
                        forall|b: int|
                            i < b < j ==> #[trigger] sift_terms(
                                pv,
                                ws,
                                comm_terms(pv, ws[i as int], ws[b]),
                            ).len() == 0,
                    invariant
                        i < j <= self.words().len() + 1,
                        i < self.words().len(),
                        self.words().len() == self.elements@.len(),
                        self.wf(),
                        self.pres_view() == pv,
                        pv == *self.pres,
                        ws.len() <= self.words().len(),
                        self.words().len() <= ws.len() + 1,
                        forall|a: int| 0 <= a < i ==> #[trigger] closed_at(pv, ws, a),
                        all_in_span(pv, gens, gs, self.words()),
                        all_in_span(pv, gens, gs, ws),
                    ensures
                        restart ==> self.words().len() == ws.len() + 1,
                        !restart ==> self.words() == ws && forall|b: int|
                            i < b < ws.len() ==> #[trigger] sift_terms(
                                pv,
                                ws,
                                comm_terms(pv, ws[i as int], ws[b]),
                            ).len() == 0,
                    decreases self.elements@.len() - j,
                {
                    proof {
                        assert(ws[i as int] == self.elements@[i as int].word.terms@);
                        assert(ws[j as int] == self.elements@[j as int].word.terms@);
                    }
                    let u_i = &self.elements[i];
                    let u_j = &self.elements[j];
                    let uji = u_j.product(u_i);
                    let comm = u_j.inverse().product(&u_i.inverse().product(&uji));
                    proof {
                        assert(in_span(pv, gens, gs, ws[i as int]));
                        assert(in_span(pv, gens, gs, ws[j as int]));
                        lemma_span_comm(pv, gens, gs, ws[i as int], ws[j as int]);
                        assert(comm.word.terms@ == comm_terms(pv, ws[i as int], ws[j as int]));
                        lemma_span_sift(pv, gens, gs, ws, comm.word.terms@);
                    }
                    let rem_comm = self.sift(comm);
                    if !rem_comm.is_identity() {
                        proof {
                            lemma_sift_fixed(pv, ws, rem_comm.word.terms@);
                        }
                        let ghost remw = rem_comm.word.terms@;
                        let grew = self.insert(rem_comm);
                        proof {
                            lemma_span_insert(pv, gens, gs, ws, remw, self.words(), grew);
                        }
                        restart = true;
                        break;
                    }
                    j = j + 1;
                }
                if restart {
                    proof {
                        lemma_echelon_len(pv, self.words());
                    }
                    i = 0;
                } else {
                    proof {
                        assert(closed_at(pv, ws, i as int));
                    }
                    i = i + 1;
                }
            }
        }
        proof {
            assert(closed(pv, self.words()));
        }
    }

    /// Constructs a closed polycyclic generating sequence from arbitrary generators using Sims'
    /// algorithm: insert the generators, then insert the sifted remainders of the powers and
    /// commutators of the sequence until all of them sift to the identity, and reduce the result
    /// to canonical form. Before the reduction every generator sifts to the identity: one that
    /// the closure does not reach is inserted again and the closure repeated.
    pub fn from_generators(pres: &'a Presentation, gens: &[Element<'a>]) -> (s: Self)
        requires
            pres.collectable(),
            forall|i: int|
                0 <= i < gens@.len() ==> (#[trigger] gens@[i]).pres == *pres && is_normal_terms(
                    gens@[i].word.terms@,
                    pres.ro(),
                ),
        ensures
            s.wf(),
            s.pres_view() == *pres,
            reduced(s.words()),
            exists|c: Seq<Seq<Term>>|
                #![trigger reduce_all(*pres, c, 0, c.len())]
                echelon(*pres, c) && closed(*pres, c) && s.words() == reduce_all(*pres, c, 0, c.len())
                    && forall|i: int| 0 <= i < gens@.len() ==> #[trigger] sift_terms(*pres, c, gens@[i].word.terms@).len() == 0,
            all_in_span(*pres, gens@.map_values(|e: Element<'a>| e.word.terms@).to_set(), Seq::empty(), s.words()),
    {
        let ghost pv = *pres;
        let ghost gset = gens@.map_values(|e: Element<'a>| e.word.terms@).to_set();
        let mut seq = Self::trivial(pres);
        let mut closed_yet = false;
        loop
            invariant
                seq.wf(),
                seq.pres_view() == pv,
                pv == *pres,
                pres.collectable(),
                seq.words().len() <= pv.n(),
                closed_yet ==> closed(pv, seq.words()),
                gset == gens@.map_values(|e: Element<'a>| e.word.terms@).to_set(),
                all_in_span(pv, gset, Seq::empty(), seq.words()),
                forall|i: int|
                    0 <= i < gens@.len() ==> (#[trigger] gens@[i]).pres == *pres && is_normal_terms(
                        gens@[i].word.terms@,
                        pres.ro(),
                    ),
            ensures
                seq.wf(),
                seq.pres_view() == pv,
                closed(pv, seq.words()),
                all_in_span(pv, gset, Seq::empty(), seq.words()),
                forall|i: int| 0 <= i < gens@.len() ==> #[trigger] sift_terms(pv, seq.words(), gens@[i].word.terms@).len() == 0,
            decreases pv.n() - seq.words().len(), if closed_yet { 0int } else { 1int },
        {
            let ghost before = seq.words();
            let mut grew = false;
            let mut k: usize = 0;
            while k < gens.len()
                invariant
                    k <= gens@.len(),
                    seq.wf(),
                    seq.pres_view() == pv,
                    pv == *pres,
                    forall|i: int|
                        0 <= i < gens@.len() ==> (#[trigger] gens@[i]).pres == *pres && is_normal_terms(
                            gens@[i].word.terms@,
                            pres.ro(),
                        ),
                    seq.words().len() >= before.len(),
                    grew ==> seq.words().len() > before.len(),
                    !grew ==> seq.words() == before,
                    !grew ==> forall|i: int| 0 <= i < k ==> #[trigger] sift_terms(pv, before, gens@[i].word.terms@).len() == 0,
                    gset == gens@.map_values(|e: Element<'a>| e.word.terms@).to_set(),
                    all_in_span(pv, gset, Seq::empty(), seq.words()),
                decreases gens@.len() - k,
            {
                let g = gens[k].duplicate();
                let ghost ws0 = seq.words();
                let ghost gw = g.word.terms@;
                proof {
                    assert(gens@.map_values(|e: Element<'a>| e.word.terms@)[k as int] == gw);
                    lemma_span_base(pv, gset, Seq::empty(), gw);
                }
                let grew_now = seq.insert(g);
                proof {
                    lemma_span_insert(pv, gset, Seq::empty(), ws0, gw, seq.words(), grew_now);
                }
                if grew_now {
                    grew = true;
                }
                k = k + 1;
            }
            proof {
                seq.lemma_wf();
                lemma_echelon_len(pv, seq.words());
            }
            if !grew && closed_yet {
                break;
            }
            seq.close(Ghost(gset), Ghost(Seq::empty()));
            closed_yet = true;
            proof {
                seq.lemma_wf();
                lemma_echelon_len(pv, seq.words());
            }
        }
        let ghost c = seq.words();
        proof {
            seq.lemma_wf();
        }
        proof {
            lemma_span_reduce_all(pv, gset, Seq::empty(), c, 0, c.len());
        }
        seq.canonicalize();
        seq
    }

    /// The textual form `< u_1, ..., u_k >` of the generators, or `< 1 >` for the trivial subgroup.
    pub closed spec fn spec_text(&self) -> Seq<char> {
        if self.elements@.len() == 0 {
            "< 1 >"@
        } else {
            "< "@ + join(self.elements@.map_values(|e: Element<'a>| e.word.spec_text()), ", "@) + " >"@
        }
    }

    /// Returns the textual form of the generating sequence.
    pub fn to_string(&self) -> (s: String)
        ensures
            s@ == self.spec_text(),
    {
        let mut s = String::new();
        if self.elements.len() == 0 {
            push_str(&mut s, "< 1 >");
            return s;
        }
        push_str(&mut s, "< ");
        let ghost start = s@;
        let ghost parts = self.elements@.map_values(|e: Element<'a>| e.word.spec_text());
        let ghost sep = ", "@;
        let mut i: usize = 0;
        assert(parts.take(0) =~= Seq::<Seq<char>>::empty());
        while i < self.elements.len()
            invariant
                i <= self.elements@.len(),
                parts == self.elements@.map_values(|e: Element<'a>| e.word.spec_text()),
                sep == ", "@,
                s@ == start + join(parts.take(i as int), sep),
            decreases self.elements@.len() - i,
        {
            proof {
                reveal_strlit(", ");
                assert(parts.take(i as int + 1) =~= parts.take(i as int).push(parts[i as int]));
                lemma_join_push(parts.take(i as int), parts[i as int], sep);
            }
            if i > 0 {
                push_str(&mut s, ", ");
            }
            let t = self.elements[i].to_string();
            s.append(t.as_str());
            i = i + 1;
        }
        push_str(&mut s, " >");
        assert(parts.take(i as int) =~= parts);
        s
    }

    /// Extends the sequence by the sifted remainders of the powers and commutators of its
    /// members and of their conjugates by `group_gens` until all of them sift to the identity.
    #[verifier::spinoff_prover]
    #[verifier::rlimit(40)]
    fn close_normal(&mut self, group_gens: &[Element<'a>], Ghost(gens): Ghost<Set<Seq<Term>>>)
        requires
            old(self).wf(),
            all_in_span(old(self).pres_view(), gens, group_gens@.map_values(|e: Element<'a>| e.word.terms@), old(self).words()),
            forall|i: int|
                0 <= i < group_gens@.len() ==> (#[trigger] group_gens@[i]).pres == old(self).pres_view()
                    && is_normal_terms(group_gens@[i].word.terms@, old(self).pres_view().ro()),
        ensures
            final(self).wf(),
            final(self).pres_view() == old(self).pres_view(),
            closed(final(self).pres_view(), final(self).words()),
            normal_closed(final(self).pres_view(), final(self).words(), group_gens@.map_values(|e: Element<'a>| e.word.terms@)),
            final(self).words().len() >= old(self).words().len(),
            old(self).words().len() == 0 ==> final(self).words().len() == 0,
            all_in_span(final(self).pres_view(), gens, group_gens@.map_values(|e: Element<'a>| e.word.terms@), final(self).words()),
    {
        let ghost pv = *self.pres;
        let ghost gs = group_gens@.map_values(|e: Element<'a>| e.word.terms@);
        let ghost len0 = self.words().len();
        let mut i: usize = 0;
        while i < self.elements.len()
            invariant
                i <= self.words().len(),
                self.words().len() == self.elements@.len(),
                self.wf(),
                self.pres_view() == pv,
                pv == *self.pres,
                gs == group_gens@.map_values(|e: Element<'a>| e.word.terms@),
                forall|a: int|
                    0 <= a < group_gens@.len() ==> (#[trigger] group_gens@[a]).pres == pv
                        && is_normal_terms(group_gens@[a].word.terms@, pv.ro()),
                forall|a: int| 0 <= a < i ==> #[trigger] closed_at(pv, self.words(), a),
                forall|a: int| 0 <= a < i ==> #[trigger] normal_at(pv, self.words(), gs, a),
                self.words().len() >= len0,
                len0 == 0 ==> self.words().len() == 0,
                all_in_span(pv, gens, gs, self.words()),
            decreases pv.n() - self.words().len(), self.words().len() - i,
        {
            let ghost ws = self.words();
            proof {
                lemma_echelon_len(pv, ws);
                assert(ws[i as int] == self.elements@[i as int].word.terms@);
            }
            let lead_gen = self.elements[i].leading_generator().unwrap();
            let p = self.pres.relative_order(lead_gen);
            let pwr = self.elements[i].pow(p);
            proof {
                assert(in_span(pv, gens, gs, ws[i as int]));
                lemma_span_power(pv, gens, gs, ws[i as int], p as nat);
                lemma_span_sift(pv, gens, gs, ws, pwr.word.terms@);
            }
            let rem_pwr = self.sift(pwr);
            if !rem_pwr.is_identity() {
                proof {
                    lemma_sift_fixed(pv, ws, rem_pwr.word.terms@);
                }
                let ghost remw = rem_pwr.word.terms@;
                let grew = self.insert(rem_pwr);
                proof {
                    lemma_span_insert(pv, gens, gs, ws, remw, self.words(), grew);
                }
                proof {
                    lemma_echelon_len(pv, self.words());
                }
                i = 0;
            } else {
                let mut restart = false;
                let mut j: usize = i + 1;
                while j < self.elements.len()
                    invariant_except_break
                        !restart,
                        self.words() == ws,
                        forall|b: int|
                            i < b < j ==> #[trigger] sift_terms(
                                pv,
                                ws,
                                comm_terms(pv, ws[i as int], ws[b]),
                            ).len() == 0,
                    invariant
                        i < j <= self.words().len() + 1,
                        i < self.words().len(),
                        self.words().len() == self.elements@.len(),
                        self.wf(),
                        self.pres_view() == pv,
                        pv == *self.pres,
                        ws.len() <= self.words().len(),
                        self.words().len() <= ws.len() + 1,
                        all_in_span(pv, gens, gs, self.words()),
                        all_in_span(pv, gens, gs, ws),
                    ensures
                        restart ==> self.words().len() == ws.len() + 1,
                        !restart ==> self.words() == ws && forall|b: int|
                            i < b < ws.len() ==> #[trigger] sift_terms(
                                pv,
                                ws,
                                comm_terms(pv, ws[i as int], ws[b]),
                            ).len() == 0,
                    decreases self.elements@.len() - j,
                {
                    proof {
                        assert(ws[i as int] == self.elements@[i as int].word.terms@);
                        assert(ws[j as int] == self.elements@[j as int].word.terms@);
                    }
                    let u_i = &self.elements[i];
                    let u_j = &self.elements[j];
                    let uji = u_j.product(u_i);
                    let comm = u_j.inverse().product(&u_i.inverse().product(&uji));
                    proof {
                        assert(in_span(pv, gens, gs, ws[i as int]));
                        assert(in_span(pv, gens, gs, ws[j as int]));
                        lemma_span_comm(pv, gens, gs, ws[i as int], ws[j as int]);
                        assert(comm.word.terms@ == comm_terms(pv, ws[i as int], ws[j as int]));
                        lemma_span_sift(pv, gens, gs, ws, comm.word.terms@);
                    }
                    let rem_comm = self.sift(comm);
                    if !rem_comm.is_identity() {
                        proof {
                            lemma_sift_fixed(pv, ws, rem_comm.word.terms@);
                        }
                        let ghost remw = rem_comm.word.terms@;
                        let grew = self.insert(rem_comm);
                        proof {
                            lemma_span_insert(pv, gens, gs, ws, remw, self.words(), grew);
                        }
                        restart = true;
                        break;
                    }
                    j = j + 1;
                }
                if !restart {
                    let mut t: usize = 0;
                    while t < group_gens.len()
                        invariant_except_break
                            !restart,
                            self.words() == ws,
                            forall|b: int|
                                0 <= b < t ==> #[trigger] sift_terms(
                                    pv,
                                    ws,
                                    conj_terms(pv, ws[i as int], gs[b]),
                                ).len() == 0,
                        invariant
                            t <= group_gens@.len(),
                            i < self.words().len(),
                            self.words().len() == self.elements@.len(),
                            self.wf(),
                            self.pres_view() == pv,
                            pv == *self.pres,
                            gs == group_gens@.map_values(|e: Element<'a>| e.word.terms@),
                            forall|a: int|
                                0 <= a < group_gens@.len() ==> (#[trigger] group_gens@[a]).pres == pv
                                    && is_normal_terms(group_gens@[a].word.terms@, pv.ro()),
                            ws.len() <= self.words().len(),
                            self.words().len() <= ws.len() + 1,
                            all_in_span(pv, gens, gs, self.words()),
                            all_in_span(pv, gens, gs, ws),
                        ensures
                            restart ==> self.words().len() == ws.len() + 1,
                            !restart ==> self.words() == ws && forall|b: int|
                                0 <= b < gs.len() ==> #[trigger] sift_terms(
                                    pv,
                                    ws,
                                    conj_terms(pv, ws[i as int], gs[b]),
                                ).len() == 0,
                        decreases group_gens@.len() - t,
                    {
                        proof {
                            assert(ws[i as int] == self.elements@[i as int].word.terms@);
                        }
                        let g = &group_gens[t];
                        let h = &self.elements[i];
                        let conj = g.inverse().product(h).product(g);
                        proof {
                            assert(in_span(pv, gens, gs, ws[i as int]));
                            assert(gs[t as int] == group_gens@[t as int].word.terms@);
                            lemma_span_conj(pv, gens, gs, ws[i as int], t as int);
                            assert(conj.word.terms@ == conj_terms(pv, ws[i as int], gs[t as int]));
                            lemma_span_sift(pv, gens, gs, ws, conj.word.terms@);
                        }
                        let rem_conj = self.sift(conj);
                        if !rem_conj.is_identity() {
                            proof {
                                lemma_sift_fixed(pv, ws, rem_conj.word.terms@);
                            }
                            let ghost remw = rem_conj.word.terms@;
                            let grew = self.insert(rem_conj);
                            proof {
                                lemma_span_insert(pv, gens, gs, ws, remw, self.words(), grew);
                            }
                            restart = true;
                            break;
                        }
                        t = t + 1;
                    }
                }
                if restart {
                    proof {
                        lemma_echelon_len(pv, self.words());
                    }
                    i = 0;
                } else {
                    proof {
                        assert(closed_at(pv, ws, i as int));
                        assert(normal_at(pv, ws, gs, i as int));
                    }
                    i = i + 1;
                }
            }
        }
        let ghost c = self.words();
        proof {
            assert(closed(pv, c));
            assert forall|a: int| 0 <= a < c.len() implies #[trigger] normal_at(pv, c, gs, a) by {}
            assert(normal_closed(pv, c, gs));
        }
    }

    /// The normal closure under conjugation by `group_gens` of `start` together with the
    /// elements `required`: they are inserted, the sequence is closed under powers, commutators
    /// and conjugation, and this is repeated while some element of `required` does not sift to
    /// the identity; the result is reduced to canonical form.
    pub(crate) fn normal_closure_with(start: Self, required: &[Element<'a>], group_gens: &[Element<'a>]) -> (s: Self)
        requires
            start.wf(),
            forall|i: int|
                0 <= i < required@.len() ==> (#[trigger] required@[i]).pres == start.pres_view()
                    && is_normal_terms(required@[i].word.terms@, start.pres_view().ro()),
            forall|i: int|
                0 <= i < group_gens@.len() ==> (#[trigger] group_gens@[i]).pres == start.pres_view()
                    && is_normal_terms(group_gens@[i].word.terms@, start.pres_view().ro()),
        ensures
            s.wf(),
            s.pres_view() == start.pres_view(),
            reduced(s.words()),
            s.words().len() >= start.words().len(),
            start.words().len() == 0 && (forall|i: int| 0 <= i < required@.len() ==> (#[trigger] required@[i]).word.terms@.len() == 0)
                ==> s.words().len() == 0,
            exists|c: Seq<Seq<Term>>|
                #![trigger reduce_all(start.pres_view(), c, 0, c.len())]
                {
                    &&& echelon(start.pres_view(), c)
                    &&& closed(start.pres_view(), c)
                    &&& normal_closed(start.pres_view(), c, group_gens@.map_values(|e: Element<'a>| e.word.terms@))
                    &&& forall|i: int| 0 <= i < required@.len() ==> #[trigger] sift_terms(start.pres_view(), c, required@[i].word.terms@).len() == 0
                    &&& s.words() == reduce_all(start.pres_view(), c, 0, c.len())
                },
            all_in_span(start.pres_view(), start.words().to_set() + required@.map_values(|e: Element<'a>| e.word.terms@).to_set(), group_gens@.map_values(|e: Element<'a>| e.word.terms@), s.words()),
    {
        let ghost pv = start.pres_view();
        let ghost gset = start.words().to_set() + required@.map_values(|e: Element<'a>| e.word.terms@).to_set();
        let ghost gs = group_gens@.map_values(|e: Element<'a>| e.word.terms@);
        let ghost len0 = start.words().len();
        let ghost req_empty = forall|i: int| 0 <= i < required@.len() ==> (#[trigger] required@[i]).word.terms@.len() == 0;
        proof {
            start.lemma_wf();
            lemma_echelon_len(pv, start.words());
            assert forall|a: int| 0 <= a < start.words().len() implies #[trigger] in_span(pv, gset, gs, start.words()[a]) by {
                assert(start.words().to_set().contains(start.words()[a]));
                lemma_span_base(pv, gset, gs, start.words()[a]);
            }
        }
        let mut seq = start;
        let mut closed_yet = false;
        loop
            invariant
                seq.wf(),
                seq.pres_view() == pv,
                seq.words().len() <= pv.n(),
                seq.words().len() >= len0,
                len0 == 0 && req_empty ==> seq.words().len() == 0,
                req_empty == forall|i: int| 0 <= i < required@.len() ==> (#[trigger] required@[i]).word.terms@.len() == 0,
                gs == group_gens@.map_values(|e: Element<'a>| e.word.terms@),
                closed_yet ==> closed(pv, seq.words()) && normal_closed(pv, seq.words(), gs),
                gset == start.words().to_set() + required@.map_values(|e: Element<'a>| e.word.terms@).to_set(),
                all_in_span(pv, gset, gs, seq.words()),
                forall|i: int|
                    0 <= i < required@.len() ==> (#[trigger] required@[i]).pres == pv
                        && is_normal_terms(required@[i].word.terms@, pv.ro()),
                forall|i: int|
                    0 <= i < group_gens@.len() ==> (#[trigger] group_gens@[i]).pres == pv
                        && is_normal_terms(group_gens@[i].word.terms@, pv.ro()),
            ensures
                seq.wf(),
                seq.pres_view() == pv,
                seq.words().len() >= len0,
                len0 == 0 && req_empty ==> seq.words().len() == 0,
                closed(pv, seq.words()),
                normal_closed(pv, seq.words(), gs),
                forall|i: int| 0 <= i < required@.len() ==> #[trigger] sift_terms(pv, seq.words(), required@[i].word.terms@).len() == 0,
                all_in_span(pv, gset, gs, seq.words()),
            decreases pv.n() - seq.words().len(), if closed_yet { 0int } else { 1int },
        {
            let ghost before = seq.words();
            let mut grew = false;
            let mut k: usize = 0;
            while k < required.len()
                invariant
                    k <= required@.len(),
                    seq.wf(),
                    seq.pres_view() == pv,
                    forall|i: int|
                        0 <= i < required@.len() ==> (#[trigger] required@[i]).pres == pv
                            && is_normal_terms(required@[i].word.terms@, pv.ro()),
                    req_empty == forall|i: int| 0 <= i < required@.len() ==> (#[trigger] required@[i]).word.terms@.len() == 0,
                    seq.words().len() >= before.len(),
                    grew ==> seq.words().len() > before.len(),
                    !grew ==> seq.words() == before,
                    !grew ==> forall|i: int| 0 <= i < k ==> #[trigger] sift_terms(pv, before, required@[i].word.terms@).len() == 0,
                    before.len() == 0 && req_empty ==> !grew,
                    gset == start.words().to_set() + required@.map_values(|e: Element<'a>| e.word.terms@).to_set(),
                    all_in_span(pv, gset, gs, seq.words()),
                decreases required@.len() - k,
            {
                let g = required[k].duplicate();
                proof {
                    if before.len() == 0 && req_empty {
                        assert(required@[k as int].word.terms@.len() == 0);
                        assert(sift_terms(pv, seq.words(), g.word.terms@).len() == 0);
                    }
                }
                let ghost ws0 = seq.words();
                let ghost gw = g.word.terms@;
                proof {
                    assert(required@.map_values(|e: Element<'a>| e.word.terms@)[k as int] == gw);
                    assert(required@.map_values(|e: Element<'a>| e.word.terms@).to_set().contains(gw));
                    lemma_span_base(pv, gset, gs, gw);
                }
                let grew_now = seq.insert(g);
                proof {
                    lemma_span_insert(pv, gset, gs, ws0, gw, seq.words(), grew_now);
                }
                if grew_now {
                    grew = true;
                }
                k = k + 1;
            }
            proof {
                seq.lemma_wf();
                lemma_echelon_len(pv, seq.words());
            }
            if !grew && closed_yet {
                break;
            }
            seq.close_normal(group_gens, Ghost(gset));
            closed_yet = true;
            proof {
                seq.lemma_wf();
                lemma_echelon_len(pv, seq.words());
            }
        }
        let ghost c = seq.words();
        proof {
            seq.lemma_wf();
            lemma_span_reduce_all(pv, gset, gs, c, 0, c.len());
        }
        seq.canonicalize();
        assert(seq.words() == reduce_all(pv, c, 0, c.len()));
        seq
    }

    /// The normal closure of this subgroup under conjugation by `group_gens`: the generating
    /// sequence is extended by the sifted remainders of powers, commutators and conjugates
    /// `g^-1 h g` until all of them sift to the identity, then reduced to canonical form. Before
    /// the reduction every member of this sequence sifts to the identity.
    pub fn normal_closure_in(&self, group_gens: &[Element<'a>]) -> (s: Self)
        requires
            self.wf(),
            forall|i: int|
                0 <= i < group_gens@.len() ==> (#[trigger] group_gens@[i]).pres == self.pres_view()
                    && is_normal_terms(group_gens@[i].word.terms@, self.pres_view().ro()),
        ensures
            s.wf(),
            s.pres_view() == self.pres_view(),
            reduced(s.words()),
            s.words().len() >= self.words().len(),
            self.words().len() == 0 ==> s.words().len() == 0,
            exists|c: Seq<Seq<Term>>|
                #![trigger reduce_all(self.pres_view(), c, 0, c.len())]
                {
                    &&& echelon(self.pres_view(), c)
                    &&& closed(self.pres_view(), c)
                    &&& normal_closed(
                        self.pres_view(),
                        c,
                        group_gens@.map_values(|e: Element<'a>| e.word.terms@),
                    )
                    &&& forall|a: int| 0 <= a < self.words().len() ==> #[trigger] sift_terms(self.pres_view(), c, self.words()[a]).len() == 0
                    &&& s.words() == reduce_all(self.pres_view(), c, 0, c.len())
                },
            all_in_span(self.pres_view(), self.words().to_set(), group_gens@.map_values(|e: Element<'a>| e.word.terms@), s.words()),
    {
        let ghost pv = *self.pres;
        let ghost gs = group_gens@.map_values(|e: Element<'a>| e.word.terms@);
        let mut elements: Vec<Element<'a>> = Vec::new();
        let mut k: usize = 0;
        while k < self.elements.len()
            invariant
                k <= self.elements@.len(),
                self.wf(),
                elements@.len() == k,
                forall|a: int| 0 <= a < k ==> (#[trigger] elements@[a]).pres == self.pres,
                forall|a: int| 0 <= a < k ==> #[trigger] elements@[a].word.terms@ == self.words()[a],
                self.words().len() == self.elements@.len(),
            decreases self.elements@.len() - k,
        {
            assert(self.words()[k as int] == self.elements@[k as int].word.terms@);
            let ghost before = elements@;
            let d = self.elements[k].duplicate();
            assert(d.word.terms@ == self.words()[k as int]);
            elements.push(d);
            assert forall|a: int| 0 <= a < k + 1 implies #[trigger] elements@[a].word.terms@
                == self.words()[a] by {
                if a < k {
                    assert(elements@[a] == before[a]);
                    assert(before[a].word.terms@ == self.words()[a]);
                } else {
                    assert(elements@[a] == d);
                    assert(d.word.terms@ == self.words()[a]);
                }
            }
            k = k + 1;
        }
        let seq = GeneratingSequence { pres: self.pres, elements };
        assert(seq.words() =~= self.words());
        proof {
            assert forall|i: int| 0 <= i < self.elements@.len() implies (#[trigger] self.elements@[i]).pres == seq.pres_view()
                && is_normal_terms(self.elements@[i].word.terms@, seq.pres_view().ro()) by {
                assert(self.words()[i] == self.elements@[i].word.terms@);
                lemma_word_in_range(*self.pres, self.words(), i);
            }
        }
        let r = Self::normal_closure_with(seq, &self.elements, group_gens);
        proof {
            assert(self.elements@.map_values(|e: Element<'a>| e.word.terms@) == self.words());
            assert(self.words().to_set() + self.words().to_set() =~= self.words().to_set());
            let c = choose|c: Seq<Seq<Term>>|
                #![trigger reduce_all(self.pres_view(), c, 0, c.len())]
                {
                    &&& echelon(self.pres_view(), c)
                    &&& closed(self.pres_view(), c)
                    &&& normal_closed(self.pres_view(), c, group_gens@.map_values(|e: Element<'a>| e.word.terms@))
                    &&& forall|i: int| 0 <= i < self.elements@.len() ==> #[trigger] sift_terms(self.pres_view(), c, self.elements@[i].word.terms@).len() == 0
                    &&& r.words() == reduce_all(self.pres_view(), c, 0, c.len())
                };
            assert forall|a: int| 0 <= a < self.words().len() implies #[trigger] sift_terms(self.pres_view(), c, self.words()[a]).len() == 0 by {
                assert(self.words()[a] == self.elements@[a].word.terms@);
            }
            if self.words().len() == 0 {
                assert(self.elements@.len() == 0);
            }
        }
        r
    }
}

impl<'a> PartialEq for GeneratingSequence<'a> {
    fn eq(&self, other: &Self) -> (b: bool) {
        if !self.pres.same_as(other.pres) {
            return false;
        }
        if self.elements.len() != other.elements.len() {
            assert(self.words().len() != other.words().len());
            return false;
        }
        let mut i: usize = 0;
        while i < self.elements.len()
            invariant
                i <= self.elements@.len(),
                self.elements@.len() == other.elements@.len(),
                forall|k: int| 0 <= k < i ==> self.words()[k] == other.words()[k],
            decreases self.elements@.len() - i,
        {
            if !self.elements[i].word.same_as(&other.elements[i].word) {
                assert(self.words()[i as int] != other.words()[i as int]);
                return false;
            }
            i = i + 1;
        }
        assert(self.words() =~= other.words());
        true
    }
}

impl<'a> vstd::std_specs::cmp::PartialEqSpecImpl for GeneratingSequence<'a> {
    open spec fn obeys_eq_spec() -> bool {
        true
    }

    open spec fn eq_spec(&self, other: &Self) -> bool {
        self.pres_view().ro() == other.pres_view().ro() && self.pres_view().relation_words()
            == other.pres_view().relation_words() && self.words() == other.words()
    }
}

impl<'a> Eq for GeneratingSequence<'a> {}

} // verus!
