//! The rewriting semantics of collection to the left, and its termination.
//!
//! A collection state is a pair of a collected prefix, given as an exponent vector, and an
//! uncollected suffix, given as a stack of terms whose top (the next term to process) is the last
//! element. One [`step`] processes the top term: a generator that has to pass a larger active
//! generator `g_k` of the prefix is commuted past one copy of it
//! (`g_k g_j = g_j g_k [g_k, g_j]`), otherwise it is appended to the prefix and reduced with its
//! power relation.
use vstd::prelude::*;

use crate::presentation::Presentation;
use crate::util::ntheory::spec_is_prime;
use crate::word::Term;

verus! {

/// A collection state: the collected exponent vector and the uncollected stack (top last).
pub type CState = (Seq<u32>, Seq<Term>);

/// The largest index with a non-zero exponent.
pub open spec fn max_active(exps: Seq<u32>) -> Option<nat>
    decreases exps.len(),
{
    if exps.len() == 0 {
        None
    } else if exps.last() > 0 {
        Some((exps.len() - 1) as nat)
    } else {
        max_active(exps.drop_last())
    }
}

/// `q` copies of `ts` concatenated.
pub open spec fn repeat(ts: Seq<Term>, q: nat) -> Seq<Term>
    decreases q,
{
    if q == 0 {
        Seq::<Term>::empty()
    } else {
        repeat(ts, (q - 1) as nat) + ts
    }
}

/// One step of collection to the left.
pub open spec fn step(pres: Presentation, s: CState) -> CState {
    let (exps, stack) = s;
    if stack.len() == 0 {
        s
    } else {
        let t = stack.last();
        let rest = stack.drop_last();
        let j = t.gen_index;
        let e = t.exponent;
        let ma = max_active(exps);
        if e == 0 {
            (exps, rest)
        } else if ma is Some && ma->0 > j {
            let k = ma->0;
            let kept = if e > 1 {
                rest.push(Term { gen_index: j, exponent: (e - 1) as u32 })
            } else {
                rest
            };
            (
                exps.update(k as int, (exps[k as int] - 1) as u32),
                kept + pres.cm(k as int, j as int).reverse() + seq![
                    Term { gen_index: k as usize, exponent: 1 },
                    Term { gen_index: j, exponent: 1 },
                ],
            )
        } else {
            let sum = exps[j as int] + e;
            let p = pres.ro()[j as int];
            if sum >= p {
                (
                    exps.update(j as int, (sum % (p as int)) as u32),
                    rest + repeat(pres.pw(j as int).reverse(), (sum / (p as int)) as nat),
                )
            } else {
                (exps.update(j as int, sum as u32), rest)
            }
        }
    }
}

/// `k` steps of collection, stopping early once the stack is empty.
pub open spec fn iter(pres: Presentation, s: CState, k: nat) -> CState
    decreases k,
{
    if k == 0 || s.1.len() == 0 {
        s
    } else {
        iter(pres, step(pres, s), (k - 1) as nat)
    }
}

/// Collection from `s` has emptied the stack within `k` steps.
pub open spec fn halts(pres: Presentation, s: CState, k: nat) -> bool {
    iter(pres, s, k).1.len() == 0
}

/// The final state of collection from `s`.
pub open spec fn run(pres: Presentation, s: CState) -> CState {
    iter(pres, s, choose|k: nat| halts(pres, s, k))
}

/// The exponent of a relation term still fits when added to an exponent below the relative order.
pub open spec fn term_fits(t: Term, ro: Seq<u32>) -> bool {
    t.gen_index < ro.len() && t.exponent + ro[t.gen_index as int] <= u32::MAX + 1
}

impl Presentation {
    /// The presentation satisfies the PC conditions and its exponents stay within `u32` during
    /// collection: the relative orders are at most `2^31` and relation exponents fit.
    pub open spec fn collectable(&self) -> bool {
        &&& self.wf()
        &&& self.is_pc()
        &&& forall|i: int| 0 <= i < self.n() ==> #[trigger] self.ro()[i] <= 0x8000_0000
        &&& forall|i: int, k: int|
            0 <= i < self.n() && 0 <= k < self.pw(i).len() ==> term_fits(
                #[trigger] self.pw(i)[k],
                self.ro(),
            )
        &&& forall|i: int, j: int, k: int|
            0 <= j < i < self.n() && 0 <= k < self.cm(i, j).len() ==> term_fits(
                #[trigger] self.cm(i, j)[k],
                self.ro(),
            )
    }
}

/// A state is valid: the exponent vector is reduced and every stack term fits.
pub open spec fn valid_state(pres: Presentation, s: CState) -> bool {
    &&& s.0.len() == pres.n()
    &&& forall|i: int| 0 <= i < s.0.len() ==> #[trigger] s.0[i] < pres.ro()[i]
    &&& forall|i: int| 0 <= i < s.1.len() ==> term_fits(#[trigger] s.1[i], pres.ro())
}

/// All generators of the terms are at least `m`.
pub open spec fn gens_at_least(ts: Seq<Term>, m: nat) -> bool {
    forall|i: int| 0 <= i < ts.len() ==> (#[trigger] ts[i]).gen_index >= m
}

/// All generators of the terms are greater than `m`.
pub open spec fn gens_above(ts: Seq<Term>, m: nat) -> bool {
    forall|i: int| 0 <= i < ts.len() ==> (#[trigger] ts[i]).gen_index > m
}

/// The total exponent of generator `m` among the terms.
pub open spec fn exp_of(ts: Seq<Term>, m: nat) -> nat
    decreases ts.len(),
{
    if ts.len() == 0 {
        0
    } else {
        exp_of(ts.drop_last(), m) + if ts.last().gen_index == m {
            ts.last().exponent as nat
        } else {
            0
        }
    }
}

/// The number of terms with generator `m`.
pub open spec fn terms_of(ts: Seq<Term>, m: nat) -> nat
    decreases ts.len(),
{
    if ts.len() == 0 {
        0
    } else {
        terms_of(ts.drop_last(), m) + if ts.last().gen_index == m {
            1nat
        } else {
            0
        }
    }
}

/// The sum of the exponents of the generators above `m`.
pub open spec fn weight_above(exps: Seq<u32>, m: nat) -> nat
    decreases exps.len(),
{
    if exps.len() <= m + 1 {
        0
    } else {
        weight_above(exps.drop_last(), m) + exps.last() as nat
    }
}

// ---------------------------------------------------------------------------
// Elementary facts

/// The exponent and term counts are additive over concatenation.
pub proof fn lemma_counts_concat(a: Seq<Term>, b: Seq<Term>, m: nat)
    ensures
        exp_of(a + b, m) == exp_of(a, m) + exp_of(b, m),
        terms_of(a + b, m) == terms_of(a, m) + terms_of(b, m),
    decreases b.len(),
{
    if b.len() == 0 {
        assert(a + b =~= a);
    } else {
        assert((a + b).drop_last() =~= a + b.drop_last());
        lemma_counts_concat(a, b.drop_last(), m);
    }
}

/// Terms with generators above `m` contribute nothing to the counts of `m`.
pub proof fn lemma_counts_above(ts: Seq<Term>, m: nat)
    requires
        gens_above(ts, m),
    ensures
        exp_of(ts, m) == 0,
        terms_of(ts, m) == 0,
    decreases ts.len(),
{
    if ts.len() > 0 {
        assert(gens_above(ts.drop_last(), m)) by {
            assert forall|i: int| 0 <= i < ts.drop_last().len() implies (
            #[trigger] ts.drop_last()[i]).gen_index > m by {
                assert(ts.drop_last()[i] == ts[i]);
            }
        }
        lemma_counts_above(ts.drop_last(), m);
    }
}

/// Repeating terms keeps them above `m` and fitting.
pub proof fn lemma_repeat_props(ts: Seq<Term>, q: nat, m: nat, ro: Seq<u32>)
    requires
        gens_above(ts, m),
        forall|i: int| 0 <= i < ts.len() ==> term_fits(#[trigger] ts[i], ro),
    ensures
        gens_above(repeat(ts, q), m),
        forall|i: int| 0 <= i < repeat(ts, q).len() ==> term_fits(#[trigger] repeat(ts, q)[i], ro),
    decreases q,
{
    if q > 0 {
        lemma_repeat_props(ts, (q - 1) as nat, m, ro);
        let r = repeat(ts, (q - 1) as nat);
        assert forall|i: int| 0 <= i < repeat(ts, q).len() implies (#[trigger] repeat(ts, q)[i]).gen_index
            > m && term_fits(repeat(ts, q)[i], ro) by {
            if i < r.len() {
                assert(repeat(ts, q)[i] == r[i]);
            } else {
                assert(repeat(ts, q)[i] == ts[i - r.len()]);
            }
        }
    }
}

/// `max_active` finds the largest index with a non-zero exponent.
pub proof fn lemma_max_active(exps: Seq<u32>)
    ensures
        max_active(exps) is Some ==> ({
            let k = max_active(exps)->0;
            &&& k < exps.len()
            &&& exps[k as int] > 0
            &&& forall|i: int| k < i < exps.len() ==> exps[i] == 0
        }),
        max_active(exps) is None ==> forall|i: int| 0 <= i < exps.len() ==> exps[i] == 0,
    decreases exps.len(),
{
    if exps.len() > 0 {
        lemma_max_active(exps.drop_last());
        if exps.last() == 0 {
            assert forall|i: int| 0 <= i < exps.len() - 1 implies exps[i] == exps.drop_last()[i] by {}
        }
    }
}

/// `weight_above` is zero exactly when no generator above `m` is active.
pub proof fn lemma_weight_above(exps: Seq<u32>, m: nat)
    ensures
        weight_above(exps, m) == 0 <==> forall|i: int| m < i < exps.len() ==> exps[i] == 0,
    decreases exps.len(),
{
    if exps.len() > m + 1 {
        lemma_weight_above(exps.drop_last(), m);
        assert forall|i: int| m < i < exps.len() - 1 implies exps[i] == exps.drop_last()[i] by {}
    }
}

/// Decrementing an active exponent above `m` lowers the weight above `m` by one.
pub proof fn lemma_weight_decrement(exps: Seq<u32>, m: nat, k: nat)
    requires
        m < k < exps.len(),
        exps[k as int] > 0,
    ensures
        weight_above(exps.update(k as int, (exps[k as int] - 1) as u32), m) + 1 == weight_above(
            exps,
            m,
        ),
    decreases exps.len(),
{
    let u = exps.update(k as int, (exps[k as int] - 1) as u32);
    if k == exps.len() - 1 {
        assert(u.drop_last() =~= exps.drop_last());
    } else {
        assert(u.drop_last() =~= exps.drop_last().update(k as int, (exps[k as int] - 1) as u32));
        lemma_weight_decrement(exps.drop_last(), m, k);
    }
}

// ---------------------------------------------------------------------------
// Iteration

/// Iterating `a` then `b` steps is iterating `a + b` steps.
pub proof fn lemma_iter_compose(pres: Presentation, s: CState, a: nat, b: nat)
    ensures
        iter(pres, iter(pres, s, a), b) == iter(pres, s, a + b),
    decreases a,
{
    if a == 0 {
    } else if s.1.len() == 0 {
        assert(iter(pres, s, a) == s);
        lemma_iter_halted(pres, s, b);
        lemma_iter_halted(pres, s, a + b);
    } else {
        lemma_iter_compose(pres, step(pres, s), (a - 1) as nat, b);
        assert((a + b - 1) as nat == (a - 1) as nat + b);
    }
}

/// A state with an empty stack is fixed by iteration.
pub proof fn lemma_iter_halted(pres: Presentation, s: CState, k: nat)
    requires
        s.1.len() == 0,
    ensures
        iter(pres, s, k) == s,
{
}

/// Once halted, further iteration does nothing; any two halting bounds give the same state.
pub proof fn lemma_halts_unique(pres: Presentation, s: CState, k1: nat, k2: nat)
    requires
        halts(pres, s, k1),
        halts(pres, s, k2),
    ensures
        iter(pres, s, k1) == iter(pres, s, k2),
{
    if k1 <= k2 {
        lemma_iter_compose(pres, s, k1, (k2 - k1) as nat);
        lemma_iter_halted(pres, iter(pres, s, k1), (k2 - k1) as nat);
    } else {
        lemma_iter_compose(pres, s, k2, (k1 - k2) as nat);
        lemma_iter_halted(pres, iter(pres, s, k2), (k1 - k2) as nat);
    }
}

/// If collection halts, `run` gives its final state.
pub proof fn lemma_run_is_iter(pres: Presentation, s: CState, k: nat)
    requires
        halts(pres, s, k),
    ensures
        run(pres, s) == iter(pres, s, k),
        run(pres, s).1.len() == 0,
{
    let c = choose|k: nat| halts(pres, s, k);
    lemma_halts_unique(pres, s, c, k);
}

/// A halting state with a non-empty stack halts one step sooner after a step, with the same result.
pub proof fn lemma_run_step(pres: Presentation, s: CState, k: nat)
    requires
        halts(pres, s, k),
        s.1.len() > 0,
    ensures
        k >= 1,
        halts(pres, step(pres, s), (k - 1) as nat),
        run(pres, step(pres, s)) == run(pres, s),
{
    lemma_run_is_iter(pres, s, k);
    lemma_run_is_iter(pres, step(pres, s), (k - 1) as nat);
}

/// The step on a stack with extra terms below its top only acts on the top part.
pub proof fn lemma_step_frame(pres: Presentation, p: Seq<u32>, low: Seq<Term>, top: Seq<Term>)
    requires
        top.len() > 0,
    ensures
        step(pres, (p, low + top)) == (step(pres, (p, top)).0, low + step(pres, (p, top)).1),
{
    let st = low + top;
    assert(st.last() == top.last());
    assert(st.drop_last() =~= low + top.drop_last());
    let t = top.last();
    let j = t.gen_index;
    let e = t.exponent;
    let ma = max_active(p);
    if e == 0 {
    } else if ma is Some && ma->0 > j {
        let k = ma->0;
        if e > 1 {
            assert(st.drop_last().push(Term { gen_index: j, exponent: (e - 1) as u32 }) =~= low
                + top.drop_last().push(Term { gen_index: j, exponent: (e - 1) as u32 }));
        }
        let kept_top = if e > 1 {
            top.drop_last().push(Term { gen_index: j, exponent: (e - 1) as u32 })
        } else {
            top.drop_last()
        };
        let tail = pres.cm(k as int, j as int).reverse() + seq![
            Term { gen_index: k as usize, exponent: 1 },
            Term { gen_index: j, exponent: 1 },
        ];
        assert((low + kept_top) + pres.cm(k as int, j as int).reverse() + seq![
            Term { gen_index: k as usize, exponent: 1 },
            Term { gen_index: j, exponent: 1 },
        ] =~= low + (kept_top + pres.cm(k as int, j as int).reverse() + seq![
            Term { gen_index: k as usize, exponent: 1 },
            Term { gen_index: j, exponent: 1 },
        ]));
    } else {
        let sum = p[j as int] + e;
        let pp = pres.ro()[j as int];
        if sum >= pp {
            let r = repeat(pres.pw(j as int).reverse(), (sum / (pp as int)) as nat);
            assert(low + top.drop_last() + r =~= low + (top.drop_last() + r));
        }
    }
}

/// Collecting a top segment to completion leaves the terms below it in place.
pub proof fn lemma_iter_frame(pres: Presentation, p: Seq<u32>, low: Seq<Term>, top: Seq<Term>, k: nat)
    requires
        halts(pres, (p, top), k),
    ensures
        exists|k2: nat|
            k2 <= k && #[trigger] iter(pres, (p, low + top), k2) == (iter(pres, (p, top), k).0, low),
    decreases k,
{
    if top.len() == 0 {
        assert(low + top =~= low);
        assert(iter(pres, (p, low + top), 0) == (iter(pres, (p, top), k).0, low));
    } else {
        lemma_step_frame(pres, p, low, top);
        let s1 = step(pres, (p, top));
        lemma_iter_frame(pres, s1.0, low, s1.1, (k - 1) as nat);
        let k3 = choose|k3: nat|
            k3 <= (k - 1) as nat && #[trigger] iter(pres, (s1.0, low + s1.1), k3) == (iter(
                pres,
                (s1.0, s1.1),
                (k - 1) as nat,
            ).0, low);
        assert(iter(pres, (p, low + top), k3 + 1) == (iter(pres, (p, top), k).0, low));
    }
}

// ---------------------------------------------------------------------------
// Validity and termination

/// Reversal keeps terms above `m` and fitting.
pub proof fn lemma_reverse_props(ts: Seq<Term>, m: nat, ro: Seq<u32>)
    requires
        gens_above(ts, m),
        forall|i: int| 0 <= i < ts.len() ==> term_fits(#[trigger] ts[i], ro),
    ensures
        gens_above(ts.reverse(), m),
        forall|i: int| 0 <= i < ts.reverse().len() ==> term_fits(#[trigger] ts.reverse()[i], ro),
{
    assert forall|i: int| 0 <= i < ts.reverse().len() implies (#[trigger] ts.reverse()[i]).gen_index
        > m && term_fits(ts.reverse()[i], ro) by {
        assert(ts.reverse()[i] == ts[ts.len() - 1 - i]);
    }
}

/// The relation words of a collectable presentation, as pushed by a step, are above their bound and fit.
pub proof fn lemma_relation_props(pres: Presentation, i: int, j: int)
    requires
        pres.collectable(),
        0 <= j < i < pres.n(),
    ensures
        gens_above(pres.cm(i, j).reverse(), j as nat),
        forall|k: int|
            0 <= k < pres.cm(i, j).reverse().len() ==> term_fits(
                #[trigger] pres.cm(i, j).reverse()[k],
                pres.ro(),
            ),
        forall|k: int|
            0 <= k < pres.cm(i, j).reverse().len() ==> (#[trigger] pres.cm(i, j).reverse()[k]).gen_index
                < pres.n(),
{
    let c = pres.cm(i, j);
    assert(gens_above(c, j as nat)) by {
        assert forall|k: int| 0 <= k < c.len() implies (#[trigger] c[k]).gen_index > j by {}
    }
    assert forall|k: int| 0 <= k < c.len() implies term_fits(#[trigger] c[k], pres.ro()) by {}
    lemma_reverse_props(c, j as nat, pres.ro());
    assert forall|k: int| 0 <= k < c.reverse().len() implies (#[trigger] c.reverse()[k]).gen_index
        < pres.n() by {
        assert(c.reverse()[k] == c[c.len() - 1 - k]);
    }
}

/// The power words of a collectable presentation, repeated and reversed, are above their generator and fit.
pub proof fn lemma_power_props(pres: Presentation, i: int, q: nat)
    requires
        pres.collectable(),
        0 <= i < pres.n(),
    ensures
        gens_above(repeat(pres.pw(i).reverse(), q), i as nat),
        forall|k: int|
            0 <= k < repeat(pres.pw(i).reverse(), q).len() ==> term_fits(
                #[trigger] repeat(pres.pw(i).reverse(), q)[k],
                pres.ro(),
            ),
{
    let w = pres.pw(i);
    assert(gens_above(w, i as nat)) by {
        assert forall|k: int| 0 <= k < w.len() implies (#[trigger] w[k]).gen_index > i by {}
    }
    assert forall|k: int| 0 <= k < w.len() implies term_fits(#[trigger] w[k], pres.ro()) by {}
    lemma_reverse_props(w, i as nat, pres.ro());
    lemma_repeat_props(w.reverse(), q, i as nat, pres.ro());
}

/// A step keeps a state valid.
pub proof fn lemma_step_valid(pres: Presentation, s: CState)
    requires
        pres.collectable(),
        valid_state(pres, s),
    ensures
        valid_state(pres, step(pres, s)),
{
    if s.1.len() > 0 {
        let (exps, stack) = s;
        let t = stack.last();
        let rest = stack.drop_last();
        let j = t.gen_index;
        let e = t.exponent;
        let ma = max_active(exps);
        assert(term_fits(t, pres.ro()));
        lemma_max_active(exps);
        assert forall|i: int| 0 <= i < rest.len() implies term_fits(#[trigger] rest[i], pres.ro()) by {
            assert(rest[i] == stack[i]);
        }
        if e == 0 {
        } else if ma is Some && ma->0 > j {
            let k = ma->0;
            lemma_relation_props(pres, k as int, j as int);
            let kept = if e > 1 {
                rest.push(Term { gen_index: j, exponent: (e - 1) as u32 })
            } else {
                rest
            };
            assert forall|i: int| 0 <= i < kept.len() implies term_fits(#[trigger] kept[i], pres.ro()) by {
                if i < rest.len() {
                    assert(kept[i] == rest[i]);
                }
            }
            let c = pres.cm(k as int, j as int).reverse();
            let tail = seq![Term { gen_index: k as usize, exponent: 1 }, Term { gen_index: j, exponent: 1 }];
            let ns = kept + c + tail;
            assert forall|i: int| 0 <= i < ns.len() implies term_fits(#[trigger] ns[i], pres.ro()) by {
                if i < kept.len() {
                    assert(ns[i] == kept[i]);
                } else if i < kept.len() + c.len() {
                    assert(ns[i] == c[i - kept.len()]);
                } else {
                    assert(ns[i] == tail[i - kept.len() - c.len()]);
                }
            }
        } else {
            let sum = exps[j as int] + e;
            let p = pres.ro()[j as int];
            assert(p >= 2);
            if sum >= p {
                let r = repeat(pres.pw(j as int).reverse(), (sum / (p as int)) as nat);
                lemma_power_props(pres, j as int, (sum / (p as int)) as nat);
                let ns = rest + r;
                assert forall|i: int| 0 <= i < ns.len() implies term_fits(#[trigger] ns[i], pres.ro()) by {
                    if i < rest.len() {
                        assert(ns[i] == rest[i]);
                    } else {
                        assert(ns[i] == r[i - rest.len()]);
                    }
                }
            }
        }
    }
}

/// Iteration keeps a state valid.
pub proof fn lemma_iter_valid(pres: Presentation, s: CState, k: nat)
    requires
        pres.collectable(),
        valid_state(pres, s),
    ensures
        valid_state(pres, iter(pres, s, k)),
    decreases k,
{
    if k > 0 && s.1.len() > 0 {
        lemma_step_valid(pres, s);
        lemma_iter_valid(pres, step(pres, s), (k - 1) as nat);
    }
}

/// Passing a top term `g_m^e` through the prefix: after finitely many steps, either the whole
/// exponent `e > 0` of generator `m` has been absorbed, or a term with exponent zero was dropped.
pub proof fn lemma_pass(pres: Presentation, s: CState, m: nat) -> (k: nat)
    requires
        pres.collectable(),
        valid_state(pres, s),
        s.1.len() > 0,
        s.1.last().gen_index == m,
        gens_at_least(s.1, m),
    ensures
        k >= 1,
        valid_state(pres, iter(pres, s, k)),
        gens_at_least(iter(pres, s, k).1, m),
        s.1.last().exponent > 0 ==> exp_of(iter(pres, s, k).1, m) < exp_of(s.1, m),
        s.1.last().exponent == 0 ==> exp_of(iter(pres, s, k).1, m) == exp_of(s.1, m) && terms_of(
            iter(pres, s, k).1,
            m,
        ) < terms_of(s.1, m),
    decreases weight_above(s.0, m),
{
    let (exps, stack) = s;
    let t = stack.last();
    let rest = stack.drop_last();
    let e = t.exponent;
    let ma = max_active(exps);
    lemma_max_active(exps);
    lemma_step_valid(pres, s);
    pres.lemma_n_fits();
    let s1 = step(pres, s);
    assert(iter(pres, s1, 0) == s1);
    assert(iter(pres, s, 1) == s1);
    assert(gens_at_least(rest, m)) by {
        assert forall|i: int| 0 <= i < rest.len() implies (#[trigger] rest[i]).gen_index >= m by {
            assert(rest[i] == stack[i]);
        }
    }
    assert(exp_of(stack, m) == exp_of(rest, m) + e);
    assert(terms_of(stack, m) == terms_of(rest, m) + 1);
    if e == 0 {
        1
    } else if ma is Some && ma->0 > m {
        let kk = ma->0;
        lemma_relation_props(pres, kk as int, m as int);
        let kept = if e > 1 {
            rest.push(Term { gen_index: m as usize, exponent: (e - 1) as u32 })
        } else {
            rest
        };
        let c = pres.cm(kk as int, m as int).reverse();
        let tail = seq![Term { gen_index: kk as usize, exponent: 1 }, Term { gen_index: m as usize, exponent: 1 }];
        assert(s1.1 == kept + c + tail);
        assert(exp_of(kept, m) == exp_of(rest, m) + (e - 1)) by {
            if e > 1 {
                assert(kept.drop_last() =~= rest);
            }
        }
        lemma_counts_above(c, m);
        assert(tail.drop_last() =~= seq![Term { gen_index: kk as usize, exponent: 1 }]);
        assert(seq![Term { gen_index: kk as usize, exponent: 1 }].drop_last() =~= Seq::<Term>::empty());
        let one = seq![Term { gen_index: kk as usize, exponent: 1 }];
        assert(one.drop_last() =~= Seq::<Term>::empty());
        assert(exp_of(Seq::<Term>::empty(), m) == 0);
        assert(one.last().gen_index == kk);
        assert(kk != m);
        assert(exp_of(one, m) == exp_of(one.drop_last(), m));
        assert(exp_of(one, m) == 0);
        assert(exp_of(tail, m) == exp_of(one, m) + 1);
        lemma_counts_concat(kept, c, m);
        lemma_counts_concat(kept + c, tail, m);
        assert(exp_of(s1.1, m) == exp_of(stack, m));
        assert(gens_at_least(s1.1, m)) by {
            assert forall|i: int| 0 <= i < s1.1.len() implies (#[trigger] s1.1[i]).gen_index >= m by {
                if i < kept.len() {
                    assert(s1.1[i] == kept[i]);
                    if i < rest.len() {
                        assert(kept[i] == rest[i]);
                    }
                } else if i < kept.len() + c.len() {
                    assert(s1.1[i] == c[i - kept.len()]);
                } else {
                    assert(s1.1[i] == tail[i - kept.len() - c.len()]);
                }
            }
        }
        lemma_weight_decrement(exps, m, kk);
        assert(s1.1.last() == Term { gen_index: m as usize, exponent: 1 });
        let k2 = lemma_pass(pres, s1, m);
        lemma_iter_compose(pres, s, 1, k2);
        1 + k2
    } else {
        let sum = exps[m as int] + e;
        let p = pres.ro()[m as int];
        if sum >= p {
            let r = repeat(pres.pw(m as int).reverse(), (sum / (p as int)) as nat);
            lemma_power_props(pres, m as int, (sum / (p as int)) as nat);
            lemma_counts_above(r, m);
            lemma_counts_concat(rest, r, m);
            assert(gens_at_least(s1.1, m)) by {
                assert forall|i: int| 0 <= i < s1.1.len() implies (#[trigger] s1.1[i]).gen_index >= m by {
                    if i < rest.len() {
                        assert(s1.1[i] == rest[i]);
                    } else {
                        assert(s1.1[i] == r[i - rest.len()]);
                    }
                }
            }
        }
        1
    }
}

/// The index where the maximal suffix of terms with generators above `m` starts.
pub open spec fn top_start(ts: Seq<Term>, m: nat) -> nat
    decreases ts.len(),
{
    if ts.len() == 0 {
        0
    } else if ts.last().gen_index > m {
        top_start(ts.drop_last(), m)
    } else {
        ts.len()
    }
}

/// The suffix from `top_start` is above `m`, and the term just before it is not.
pub proof fn lemma_top_start(ts: Seq<Term>, m: nat)
    ensures
        top_start(ts, m) <= ts.len(),
        gens_above(ts.skip(top_start(ts, m) as int), m),
        top_start(ts, m) > 0 ==> ts[top_start(ts, m) - 1].gen_index <= m,
    decreases ts.len(),
{
    if ts.len() > 0 {
        if ts.last().gen_index > m {
            lemma_top_start(ts.drop_last(), m);
            let i0 = top_start(ts, m) as int;
            assert forall|i: int| 0 <= i < ts.skip(i0).len() implies (#[trigger] ts.skip(i0)[i]).gen_index
                > m by {
                if i0 + i < ts.len() - 1 {
                    assert(ts.skip(i0)[i] == ts.drop_last().skip(i0)[i]);
                }
            }
            if i0 > 0 {
                assert(ts[i0 - 1] == ts.drop_last()[i0 - 1]);
            }
        } else {
            assert(ts.skip(ts.len() as int) =~= Seq::<Term>::empty());
        }
    } else {
        assert(ts.skip(0) =~= Seq::<Term>::empty());
    }
}

/// Collection to the left terminates from every valid state whose stack only holds generators `>= m`.
pub proof fn lemma_halts_from(pres: Presentation, s: CState, m: nat) -> (k: nat)
    requires
        pres.collectable(),
        valid_state(pres, s),
        gens_at_least(s.1, m),
        m <= pres.n(),
    ensures
        halts(pres, s, k),
    decreases pres.n() - m, exp_of(s.1, m), terms_of(s.1, m),
{
    if s.1.len() == 0 {
        0
    } else {
        let ts = s.1;
        lemma_top_start(ts, m);
        let i0 = top_start(ts, m) as int;
        let low = ts.take(i0);
        let top = ts.skip(i0);
        assert(low + top =~= ts);
        lemma_counts_above(top, m);
        lemma_counts_concat(low, top, m);
        assert(gens_at_least(low, m)) by {
            assert forall|i: int| 0 <= i < low.len() implies (#[trigger] low[i]).gen_index >= m by {
                assert(low[i] == ts[i]);
            }
        }
        // Collect the top segment, which only involves generators above `m`.
        let (k1, p1) = if top.len() > 0 {
            assert(m < pres.n()) by {
                assert(term_fits(ts[ts.len() - 1], pres.ro()));
                assert(top[top.len() - 1] == ts[ts.len() - 1]);
            }
            assert(valid_state(pres, (s.0, top))) by {
                assert forall|i: int| 0 <= i < top.len() implies term_fits(#[trigger] top[i], pres.ro()) by {
                    assert(top[i] == ts[i0 + i]);
                }
            }
            assert(gens_at_least(top, m + 1)) by {
                assert forall|i: int| 0 <= i < top.len() implies (#[trigger] top[i]).gen_index >= m + 1 by {}
            }
            let kt = lemma_halts_from(pres, (s.0, top), m + 1);
            lemma_iter_frame(pres, s.0, low, top, kt);
            lemma_iter_valid(pres, (s.0, top), kt);
            let k2 = choose|k2: nat|
                k2 <= kt && #[trigger] iter(pres, (s.0, low + top), k2) == (iter(
                    pres,
                    (s.0, top),
                    kt,
                ).0, low);
            (k2, iter(pres, (s.0, top), kt).0)
        } else {
            assert(iter(pres, s, 0) == (s.0, low));
            (0nat, s.0)
        };
        assert(iter(pres, s, k1) == (p1, low));
        assert(valid_state(pres, (p1, low))) by {
            assert forall|i: int| 0 <= i < low.len() implies term_fits(#[trigger] low[i], pres.ro()) by {
                assert(low[i] == ts[i]);
            }
        }
        if low.len() == 0 {
            k1
        } else {
            assert(low.last() == ts[i0 - 1]);
            let k3 = lemma_pass(pres, (p1, low), m);
            let s3 = iter(pres, (p1, low), k3);
            let k4 = lemma_halts_from(pres, s3, m);
            lemma_iter_compose(pres, (p1, low), k3, k4);
            lemma_iter_compose(pres, s, k1, k3 + k4);
            k1 + k3 + k4
        }
    }
}

/// Collection to the left terminates from every valid state.
pub proof fn lemma_halts(pres: Presentation, s: CState) -> (k: nat)
    requires
        pres.collectable(),
        valid_state(pres, s),
    ensures
        halts(pres, s, k),
        run(pres, s) == iter(pres, s, k),
        valid_state(pres, run(pres, s)),
        run(pres, s).1.len() == 0,
{
    assert(gens_at_least(s.1, 0));
    let k = lemma_halts_from(pres, s, 0);
    lemma_run_is_iter(pres, s, k);
    lemma_iter_valid(pres, s, k);
    k
}

/// Collecting a stack in two parts: first the top part, then the part below it.
pub proof fn lemma_run_concat(pres: Presentation, e: Seq<u32>, low: Seq<Term>, top: Seq<Term>)
    requires
        pres.collectable(),
        valid_state(pres, (e, low + top)),
    ensures
        run(pres, (e, low + top)) == run(pres, (run(pres, (e, top)).0, low)),
        valid_state(pres, (run(pres, (e, top)).0, low)),
{
    let st = low + top;
    assert(valid_state(pres, (e, top))) by {
        assert forall|i: int| 0 <= i < top.len() implies term_fits(#[trigger] top[i], pres.ro()) by {
            assert(top[i] == st[low.len() + i]);
            assert(term_fits((e, st).1[low.len() + i], pres.ro()));
        }
    }
    let kt = lemma_halts(pres, (e, top));
    lemma_iter_frame(pres, e, low, top, kt);
    let p1 = iter(pres, (e, top), kt).0;
    let k2 = choose|k2: nat| k2 <= kt && #[trigger] iter(pres, (e, st), k2) == (p1, low);
    assert(valid_state(pres, (p1, low))) by {
        assert forall|i: int| 0 <= i < low.len() implies term_fits(#[trigger] low[i], pres.ro()) by {
            assert(low[i] == st[i]);
            assert(term_fits((e, st).1[i], pres.ro()));
        }
    }
    let k3 = lemma_halts(pres, (p1, low));
    lemma_iter_compose(pres, (e, st), k2, k3);
    lemma_run_is_iter(pres, (e, st), k2 + k3);
}

// ---------------------------------------------------------------------------
// Valuations

/// The exponent vectors agree below `m`.
pub open spec fn agree_below(a: Seq<u32>, b: Seq<u32>, m: nat) -> bool {
    forall|g: int| 0 <= g < m && g < a.len() ==> a[g] == b[g]
}

/// The exponent of `g_m` in the prefix plus the total exponent of `g_m` on the stack, modulo `p_m`.
pub open spec fn valuation(pres: Presentation, s: CState, m: nat) -> int {
    (s.0[m as int] + exp_of(s.1, m)) % (pres.ro()[m as int] as int)
}

/// Terms above `m` with a term of generator at least `m` on top are still at least `m`.
pub proof fn lemma_gens_at_least_concat(a: Seq<Term>, b: Seq<Term>, m: nat)
    requires
        gens_at_least(a, m),
        gens_at_least(b, m),
    ensures
        gens_at_least(a + b, m),
{
    assert forall|i: int| 0 <= i < (a + b).len() implies (#[trigger] (a + b)[i]).gen_index >= m by {
        if i < a.len() {
            assert((a + b)[i] == a[i]);
        } else {
            assert((a + b)[i] == b[i - a.len()]);
        }
    }
}

/// A step on a stack of generators `>= m` keeps them `>= m`, leaves the prefix below `m` alone and
/// keeps the valuation at `m`.
pub proof fn lemma_step_val(pres: Presentation, s: CState, m: nat)
    requires
        pres.collectable(),
        valid_state(pres, s),
        gens_at_least(s.1, m),
        m < pres.n(),
    ensures
        gens_at_least(step(pres, s).1, m),
        agree_below(s.0, step(pres, s).0, m),
        step(pres, s).0.len() == s.0.len(),
        valuation(pres, step(pres, s), m) == valuation(pres, s, m),
{
    if s.1.len() > 0 {
        let (exps, stack) = s;
        let t = stack.last();
        let rest = stack.drop_last();
        let j = t.gen_index;
        let e = t.exponent;
        let ma = max_active(exps);
        let p = pres.ro()[m as int] as int;
        assert(p >= 2) by {
            assert(spec_is_prime(pres.ro()[m as int] as int));
        }
        assert(term_fits(t, pres.ro()));
        assert(stack[stack.len() - 1] == t);
        assert(j >= m);
        lemma_max_active(exps);
        pres.lemma_n_fits();
        assert(gens_at_least(rest, m)) by {
            assert forall|i: int| 0 <= i < rest.len() implies (#[trigger] rest[i]).gen_index >= m by {
                assert(rest[i] == stack[i]);
            }
        }
        assert(exp_of(stack, m) == exp_of(rest, m) + if j == m { e as nat } else { 0 });
        if e == 0 {
        } else if ma is Some && ma->0 > j {
            let k = ma->0;
            lemma_relation_props(pres, k as int, j as int);
            let kept = if e > 1 {
                rest.push(Term { gen_index: j, exponent: (e - 1) as u32 })
            } else {
                rest
            };
            let c = pres.cm(k as int, j as int).reverse();
            let tail = seq![Term { gen_index: k as usize, exponent: 1 }, Term { gen_index: j, exponent: 1 }];
            assert(gens_at_least(kept, m)) by {
                assert forall|i: int| 0 <= i < kept.len() implies (#[trigger] kept[i]).gen_index >= m by {
                    if i < rest.len() {
                        assert(kept[i] == rest[i]);
                    }
                }
            }
            assert(gens_at_least(c, m)) by {
                assert forall|i: int| 0 <= i < c.len() implies (#[trigger] c[i]).gen_index >= m by {}
            }
            assert(gens_at_least(tail, m)) by {
                assert forall|i: int| 0 <= i < tail.len() implies (#[trigger] tail[i]).gen_index >= m by {}
            }
            lemma_gens_at_least_concat(kept, c, m);
            lemma_gens_at_least_concat(kept + c, tail, m);
            assert(gens_above(c, m)) by {
                assert forall|i: int| 0 <= i < c.len() implies (#[trigger] c[i]).gen_index > m by {}
            }
            lemma_counts_above(c, m);
            lemma_counts_concat(kept, c, m);
            lemma_counts_concat(kept + c, tail, m);
            assert(exp_of(tail, m) == if j == m { 1nat } else { 0 }) by {
                let d = tail.drop_last();
                assert(d =~= seq![Term { gen_index: k as usize, exponent: 1 }]);
                assert(d.drop_last() =~= Seq::<Term>::empty());
                assert(exp_of(d.drop_last(), m) == 0);
                assert(d.last().gen_index == k);
                assert(exp_of(d, m) == 0);
                assert(tail.last() == Term { gen_index: j, exponent: 1 });
            }
            if e > 1 {
                assert(kept.drop_last() == rest);
            }
            assert(exp_of(kept, m) == exp_of(rest, m) + if j == m && e > 1 {
                (e - 1) as nat
            } else {
                0
            });
        } else {
            let sum = exps[j as int] + e;
            let pj = pres.ro()[j as int];
            assert(pj >= 2) by {
                assert(spec_is_prime(pres.ro()[j as int] as int));
            }
            if sum >= pj {
                let q = (sum / (pj as int)) as nat;
                let r = repeat(pres.pw(j as int).reverse(), q);
                lemma_power_props(pres, j as int, q);
                assert(gens_at_least(r, m)) by {
                    assert forall|i: int| 0 <= i < r.len() implies (#[trigger] r[i]).gen_index >= m by {}
                }
                lemma_gens_at_least_concat(rest, r, m);
                assert(gens_above(r, m)) by {
                    assert forall|i: int| 0 <= i < r.len() implies (#[trigger] r[i]).gen_index > m by {}
                }
                lemma_counts_above(r, m);
                lemma_counts_concat(rest, r, m);
                if j == m {
                    let rr = exp_of(rest, m) as int;
                    vstd::arithmetic::div_mod::lemma_add_mod_noop(sum as int, rr, p);
                    vstd::arithmetic::div_mod::lemma_mod_twice(sum as int, p);
                    vstd::arithmetic::div_mod::lemma_add_mod_noop((sum % p) as int, rr, p);
                }
            }
        }
    }
}

/// Iterated steps on a stack of generators `>= m` keep the valuation at `m` and the prefix below `m`.
pub proof fn lemma_iter_val(pres: Presentation, s: CState, m: nat, k: nat)
    requires
        pres.collectable(),
        valid_state(pres, s),
        gens_at_least(s.1, m),
        m < pres.n(),
    ensures
        gens_at_least(iter(pres, s, k).1, m),
        agree_below(s.0, iter(pres, s, k).0, m),
        iter(pres, s, k).0.len() == s.0.len(),
        valuation(pres, iter(pres, s, k), m) == valuation(pres, s, m),
    decreases k,
{
    if k > 0 && s.1.len() > 0 {
        lemma_step_val(pres, s, m);
        lemma_step_valid(pres, s);
        lemma_iter_val(pres, step(pres, s), m, (k - 1) as nat);
    }
}

/// Collecting a stack of generators `>= m` leaves the prefix below `m` alone, and the final exponent
/// of `g_m` is the initial one plus the stack's total exponent of `g_m`, modulo `p_m`.
pub proof fn lemma_run_val(pres: Presentation, s: CState, m: nat)
    requires
        pres.collectable(),
        valid_state(pres, s),
        gens_at_least(s.1, m),
        m < pres.n(),
    ensures
        agree_below(s.0, run(pres, s).0, m),
        run(pres, s).0[m as int] as int == (s.0[m as int] + exp_of(s.1, m)) % (
        pres.ro()[m as int] as int),
{
    let k = lemma_halts(pres, s);
    lemma_iter_val(pres, s, m, k);
    let f = run(pres, s);
    assert(f.1.len() == 0);
    assert(exp_of(f.1, m) == 0);
    assert(f.0[m as int] < pres.ro()[m as int]);
    vstd::arithmetic::div_mod::lemma_small_mod(f.0[m as int] as nat, pres.ro()[m as int] as nat);
}

} // verus!
