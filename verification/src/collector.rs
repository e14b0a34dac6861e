//! Word collection engine for polycyclic (PC) presentations.
//!
//! The collection algorithm rewrites generator words into normal form words using the power and
//! commutator relations of a [`Presentation`].
use vstd::prelude::*;

use crate::collection::{
    halts, iter, lemma_halts, lemma_iter_halted, lemma_max_active, lemma_run_is_iter, lemma_run_step,
    lemma_step_valid, max_active, repeat, run, step, term_fits, valid_state,
};
use crate::presentation::Presentation;
use crate::util::ntheory::spec_is_prime;
use crate::word::{is_normal_terms, strictly_increasing, Term, Word};

verus! {

/// The exponent vector with the exponent of each term's generator overwritten by the term's
/// exponent, in order.
pub open spec fn place_terms(exps: Seq<u32>, ts: Seq<Term>) -> Seq<u32>
    decreases ts.len(),
{
    if ts.len() == 0 {
        exps
    } else {
        place_terms(exps.update(ts[0].gen_index as int, ts[0].exponent), ts.skip(1))
    }
}

/// The exponent vector of the identity: `n` zeros.
pub open spec fn zeros(n: nat) -> Seq<u32> {
    Seq::new(n, |i: int| 0u32)
}

/// The terms `g_i^{e_i}` for the non-zero exponents `e_i`, in increasing order of `i`.
pub open spec fn exps_to_terms(exps: Seq<u32>) -> Seq<Term>
    decreases exps.len(),
{
    if exps.len() == 0 {
        Seq::<Term>::empty()
    } else if exps.last() > 0 {
        exps_to_terms(exps.drop_last()).push(
            Term { gen_index: (exps.len() - 1) as usize, exponent: exps.last() },
        )
    } else {
        exps_to_terms(exps.drop_last())
    }
}

/// All exponents are zero.
pub open spec fn all_zero(exps: Seq<u32>) -> bool {
    forall|i: int| 0 <= i < exps.len() ==> exps[i] == 0
}

/// The normal form terms read off an exponent vector are strictly increasing, with generators
/// below the vector's length and the vector's non-zero exponents.
pub proof fn lemma_exps_to_terms(exps: Seq<u32>)
    requires
        exps.len() <= usize::MAX,
    ensures
        strictly_increasing(exps_to_terms(exps)),
        forall|i: int|
            0 <= i < exps_to_terms(exps).len() ==> (#[trigger] exps_to_terms(exps)[i]).gen_index
                < exps.len() && exps_to_terms(exps)[i].exponent == exps[exps_to_terms(
                exps,
            )[i].gen_index as int] && exps_to_terms(exps)[i].exponent > 0,
    decreases exps.len(),
{
    if exps.len() > 0 {
        let d = exps.drop_last();
        lemma_exps_to_terms(d);
        let r = exps_to_terms(d);
        assert forall|i: int| 0 <= i < r.len() implies (#[trigger] r[i]).gen_index < d.len()
            && r[i].exponent == exps[r[i].gen_index as int] by {
            assert(d[r[i].gen_index as int] == exps[r[i].gen_index as int]);
        }
        if exps.last() > 0 {
            let t = Term { gen_index: (exps.len() - 1) as usize, exponent: exps.last() };
            let r2 = r.push(t);
            assert(exps_to_terms(exps) == r2);
            assert forall|i: int, j: int| 0 <= i < j < r2.len() implies r2[i].gen_index
                < r2[j].gen_index by {
                if j == r.len() {
                    assert(r2[i] == r[i]);
                    assert(r[i].gen_index < d.len());
                } else {
                    assert(r2[i] == r[i] && r2[j] == r[j]);
                }
            }
            assert forall|i: int| 0 <= i < r2.len() implies (#[trigger] r2[i]).gen_index
                < exps.len() && r2[i].exponent == exps[r2[i].gen_index as int] && r2[i].exponent
                > 0 by {
                if i < r.len() {
                    assert(r2[i] == r[i]);
                }
            }
        }
    }
}

/// A reduced exponent vector reads off as a normal form word.
pub proof fn lemma_exps_to_terms_normal(exps: Seq<u32>, ro: Seq<u32>)
    requires
        exps.len() == ro.len(),
        exps.len() <= usize::MAX,
        forall|i: int| 0 <= i < exps.len() ==> #[trigger] exps[i] < ro[i],
    ensures
        is_normal_terms(exps_to_terms(exps), ro),
{
    lemma_exps_to_terms(exps);
}

/// Placing one more term is one more update.
pub proof fn lemma_place_terms_push(exps: Seq<u32>, ts: Seq<Term>, t: Term)
    requires
        t.gen_index < exps.len(),
        forall|i: int| 0 <= i < ts.len() ==> (#[trigger] ts[i]).gen_index < exps.len(),
    ensures
        place_terms(exps, ts.push(t)) == place_terms(exps, ts).update(t.gen_index as int, t.exponent),
        place_terms(exps, ts).len() == exps.len(),
    decreases ts.len(),
{
    if ts.len() == 0 {
        assert(ts.push(t).skip(1) =~= Seq::<Term>::empty());
        assert(ts.push(t)[0] == t);
        assert(place_terms(exps.update(t.gen_index as int, t.exponent), ts.push(t).skip(1))
            == exps.update(t.gen_index as int, t.exponent));
    } else {
        assert(ts.push(t).skip(1) =~= ts.skip(1).push(t));
        assert(ts.push(t)[0] == ts[0]);
        assert forall|i: int| 0 <= i < ts.skip(1).len() implies (#[trigger] ts.skip(1)[i]).gen_index
            < exps.len() by {
            assert(ts.skip(1)[i] == ts[i + 1]);
        }
        let u = exps.update(ts[0].gen_index as int, ts[0].exponent);
        lemma_place_terms_push(u, ts.skip(1), t);
        assert(place_terms(exps, ts.push(t)) == place_terms(u, ts.push(t).skip(1)));
        assert(place_terms(exps, ts) == place_terms(u, ts.skip(1)));
    }
}

/// Reading off terms ignores a tail of zero exponents.
pub proof fn lemma_exps_to_terms_take(e: Seq<u32>, m: nat)
    requires
        m <= e.len(),
        forall|i: int| m <= i < e.len() ==> e[i] == 0,
    ensures
        exps_to_terms(e) == exps_to_terms(e.take(m as int)),
    decreases e.len(),
{
    if e.len() > m {
        assert(e.drop_last().take(m as int) =~= e.take(m as int));
        lemma_exps_to_terms_take(e.drop_last(), m);
    } else {
        assert(e.take(m as int) =~= e);
    }
}

/// Placing the terms of a normal form word on the identity and reading them off again gives the
/// word back.
pub proof fn lemma_place_roundtrip(n: nat, ts: Seq<Term>)
    requires
        strictly_increasing(ts),
        forall|i: int| 0 <= i < ts.len() ==> (#[trigger] ts[i]).gen_index < n && ts[i].exponent > 0,
    ensures
        place_terms(zeros(n), ts).len() == n,
        exps_to_terms(place_terms(zeros(n), ts)) == ts,
        ts.len() == 0 ==> all_zero(place_terms(zeros(n), ts)),
        ts.len() > 0 ==> forall|i: int|
            ts.last().gen_index < i < n ==> place_terms(zeros(n), ts)[i] == 0,
    decreases ts.len(),
{
    let z = zeros(n);
    if ts.len() == 0 {
        assert(exps_to_terms(z) =~= Seq::<Term>::empty()) by {
            lemma_exps_to_terms_take(z, 0);
        }
    } else {
        let d = ts.drop_last();
        let t = ts.last();
        assert(d.push(t) =~= ts);
        assert(strictly_increasing(d));
        assert forall|i: int| 0 <= i < d.len() implies (#[trigger] d[i]).gen_index < n
            && d[i].exponent > 0 by {
            assert(d[i] == ts[i]);
        }
        lemma_place_roundtrip(n, d);
        lemma_place_terms_push(z, d, t);
        let e1 = place_terms(z, d);
        let g = t.gen_index as int;
        let e = e1.update(g, t.exponent);
        assert(forall|i: int| g <= i < n ==> e1[i] == 0) by {
            if d.len() > 0 {
                assert(d.last() == ts[d.len() - 1]);
            }
        }
        lemma_exps_to_terms_take(e1, g as nat);
        lemma_exps_to_terms_take(e, (g + 1) as nat);
        assert(e.take(g + 1).drop_last() =~= e1.take(g));
        assert(e.take(g + 1).last() == t.exponent);
        assert(exps_to_terms(e.take(g + 1)) == exps_to_terms(e1.take(g)).push(
            Term { gen_index: g as usize, exponent: t.exponent },
        ));
    }
}

/// Collecting a normal form word onto an exponent vector that is zero from the word's first
/// generator on just places the word's exponents.
pub proof fn lemma_run_normal(pres: Presentation, e: Seq<u32>, ts: Seq<Term>)
    requires
        pres.collectable(),
        e.len() == pres.n(),
        forall|i: int| 0 <= i < e.len() ==> #[trigger] e[i] < pres.ro()[i],
        is_normal_terms(ts, pres.ro()),
        ts.len() > 0 ==> forall|i: int| ts[0].gen_index <= i < e.len() ==> e[i] == 0,
    ensures
        run(pres, (e, ts.reverse())).0 == place_terms(e, ts),
    decreases ts.len(),
{
    let s = (e, ts.reverse());
    if ts.len() == 0 {
        assert(halts(pres, s, 0));
        lemma_run_is_iter(pres, s, 0);
    } else {
        assert(valid_state(pres, s)) by {
            assert forall|i: int| 0 <= i < ts.reverse().len() implies term_fits(
                #[trigger] ts.reverse()[i],
                pres.ro(),
            ) by {
                let t = ts[ts.len() - 1 - i];
                assert(ts.reverse()[i] == t);
                assert(pres.ro()[t.gen_index as int] <= 0x8000_0000);
            }
        }
        let k = lemma_halts(pres, s);
        lemma_run_step(pres, s, k);
        lemma_max_active(e);
        let t = ts[0];
        let j = t.gen_index;
        assert(ts.reverse().last() == t);
        assert(ts.reverse().drop_last() =~= ts.skip(1).reverse());
        assert(pres.ro()[j as int] <= 0x8000_0000);
        let e1 = e.update(j as int, t.exponent);
        assert(step(pres, s) == (e1, ts.skip(1).reverse()));
        let ts1 = ts.skip(1);
        assert(is_normal_terms(ts1, pres.ro())) by {
            assert forall|a: int, b: int| 0 <= a < b < ts1.len() implies ts1[a].gen_index
                < ts1[b].gen_index by {
                assert(ts1[a] == ts[a + 1] && ts1[b] == ts[b + 1]);
            }
            assert forall|a: int| 0 <= a < ts1.len() implies (#[trigger] ts1[a]).gen_index
                < pres.ro().len() && 0 < ts1[a].exponent < pres.ro()[ts1[a].gen_index as int] by {
                assert(ts1[a] == ts[a + 1]);
            }
        }
        assert(ts1.len() > 0 ==> forall|i: int| ts1[0].gen_index <= i < e1.len() ==> e1[i] == 0)
            by {
            if ts1.len() > 0 {
                assert(ts1[0] == ts[1]);
            }
        }
        lemma_run_normal(pres, e1, ts1);
    }
}

/// Appends the terms of `ts` to `stack` in reverse order.
fn push_reversed(stack: &mut Vec<Term>, ts: &Vec<Term>)
    ensures
        final(stack)@ == old(stack)@ + ts@.reverse(),
{
    let ghost base = stack@;
    let mut idx = ts.len();
    assert(ts@.subrange(idx as int, ts@.len() as int).reverse() =~= Seq::<Term>::empty());
    while idx > 0
        invariant
            idx <= ts@.len(),
            stack@ == base + ts@.subrange(idx as int, ts@.len() as int).reverse(),
        decreases idx,
    {
        idx = idx - 1;
        stack.push(ts[idx]);
        assert(ts@.subrange(idx as int, ts@.len() as int).reverse() =~= ts@.subrange(
            idx as int + 1,
            ts@.len() as int,
        ).reverse().push(ts@[idx as int]));
    }
    assert(ts@.subrange(0, ts@.len() as int) =~= ts@);
}

/// An efficient stack-based word collector for polycyclic presentations.
///
/// The collector keeps a collected prefix as an exponent vector `(e0, ..., e{n-1})` and an
/// uncollected suffix as a stack of [`Term`]s; see [`step`] for one rewriting step.
pub struct Collector<'a> {
    pres: &'a Presentation,
    exponents: Vec<u32>,
    stack: Vec<Term>,
}

impl<'a> Collector<'a> {
    /// The presentation the collector works in.
    pub closed spec fn pres_view(&self) -> Presentation {
        *self.pres
    }

    /// The collected exponent vector.
    pub closed spec fn exps(&self) -> Seq<u32> {
        self.exponents@
    }

    /// Between operations the stack is empty, the exponent vector has one entry per generator,
    /// and for a collectable presentation every exponent is reduced.
    pub closed spec fn wf(&self) -> bool {
        &&& self.pres.wf()
        &&& self.exponents@.len() == self.pres.n()
        &&& self.stack@.len() == 0
        &&& self.pres.collectable() ==> forall|i: int|
            0 <= i < self.exponents@.len() ==> #[trigger] self.exponents@[i] < self.pres.ro()[i]
    }

    /// Initializes a new collector for the given presentation, representing the identity.
    pub fn new(pres: &'a Presentation) -> (c: Self)
        requires
            pres.wf(),
        ensures
            c.wf(),
            c.pres_view() == *pres,
            c.exps() == zeros(pres.n()),
    {
        let n = pres.num_gens();
        let mut exponents: Vec<u32> = Vec::new();
        let mut i: usize = 0;
        while i < n
            invariant
                i <= n,
                exponents@ == Seq::new(i as nat, |k: int| 0u32),
            decreases n - i,
        {
            exponents.push(0);
            i = i + 1;
            assert(exponents@ =~= Seq::new(i as nat, |k: int| 0u32));
        }
        let c = Collector { pres, exponents, stack: Vec::with_capacity(64) };
        proof {
            if pres.collectable() {
                assert forall|k: int| 0 <= k < c.exponents@.len() implies #[trigger] c.exponents@[k]
                    < pres.ro()[k] by {
                    assert(spec_is_prime(pres.ro()[k] as int));
                }
            }
        }
        c
    }

    /// Returns a slice of the collected prefix exponent vector.
    pub fn exponents(&self) -> (e: &[u32])
        ensures
            e@ == self.exps(),
    {
        self.exponents.as_slice()
    }

    /// Returns `true` if the collector currently represents the identity.
    pub fn is_empty(&self) -> (b: bool)
        requires
            self.wf(),
        ensures
            b == all_zero(self.exps()),
    {
        if self.stack.len() != 0 {
            return false;
        }
        let mut i: usize = 0;
        while i < self.exponents.len()
            invariant
                i <= self.exponents@.len(),
                forall|k: int| 0 <= k < i ==> self.exponents@[k] == 0,
            decreases self.exponents@.len() - i,
        {
            if self.exponents[i] != 0 {
                return false;
            }
            i = i + 1;
        }
        true
    }

    /// Clears the collected prefix and stack, resetting the collector for reuse.
    pub fn reset(&mut self)
        requires
            old(self).wf(),
        ensures
            final(self).wf(),
            final(self).pres_view() == old(self).pres_view(),
            final(self).exps() == zeros(old(self).exps().len()),
    {
        let n = self.exponents.len();
        let mut i: usize = 0;
        while i < n
            invariant
                i <= n,
                n == self.exponents@.len(),
                self.pres == old(self).pres,
                self.stack == old(self).stack,
                forall|k: int| 0 <= k < i ==> self.exponents@[k] == 0,
            decreases n - i,
        {
            self.exponents.set(i, 0);
            i = i + 1;
        }
        self.stack.clear();
        assert(self.exponents@ =~= Seq::new(n as nat, |i: int| 0u32));
        proof {
            if self.pres.collectable() {
                assert forall|k: int| 0 <= k < self.exponents@.len() implies #[trigger] self.exponents@[k]
                    < self.pres.ro()[k] by {
                    assert(spec_is_prime(self.pres.ro()[k] as int));
                }
            }
        }
    }

    /// Finds the largest generator index currently active in the collected prefix.
    fn max_active_gen(&self) -> (r: Option<usize>)
        ensures
            r is Some <==> max_active(self.exponents@) is Some,
            r matches Some(k) ==> k == max_active(self.exponents@)->0,
    {
        let mut i = self.exponents.len();
        assert(self.exponents@.take(i as int) =~= self.exponents@);
        while i > 0
            invariant
                i <= self.exponents@.len(),
                max_active(self.exponents@) == max_active(self.exponents@.take(i as int)),
            decreases i,
        {
            assert(self.exponents@.take(i as int).drop_last() =~= self.exponents@.take(i - 1));
            if self.exponents[i - 1] > 0 {
                return Some(i - 1);
            }
            i = i - 1;
        }
        None
    }

    /// Core loop: processes all terms currently on the uncollected stack.
    fn process_stack(&mut self)
        requires
            old(self).pres.collectable(),
            old(self).exponents@.len() == old(self).pres.n(),
            valid_state(*old(self).pres, (old(self).exponents@, old(self).stack@)),
        ensures
            final(self).pres == old(self).pres,
            final(self).stack@.len() == 0,
            final(self).exponents@ == run(
                *old(self).pres,
                (old(self).exponents@, old(self).stack@),
            ).0,
            valid_state(*old(self).pres, (final(self).exponents@, final(self).stack@)),
    {
        let pres = self.pres;
        let ghost pv = *pres;
        let ghost s0 = (self.exponents@, self.stack@);
        let ghost mut fuel: nat = 0;
        proof {
            fuel = lemma_halts(pv, s0);
            lemma_run_is_iter(pv, s0, fuel);
        }
        while self.stack.len() > 0
            invariant
                self.pres == pres,
                pv == *pres,
                pv.collectable(),
                valid_state(pv, (self.exponents@, self.stack@)),
                halts(pv, (self.exponents@, self.stack@), fuel),
                run(pv, (self.exponents@, self.stack@)) == run(pv, s0),
            decreases fuel,
        {
            let ghost cur = (self.exponents@, self.stack@);
            proof {
                lemma_run_step(pv, cur, fuel);
                lemma_step_valid(pv, cur);
                lemma_max_active(cur.0);
                pv.lemma_n_fits();
            }
            let term = self.stack.pop().unwrap();
            assert(term == cur.1.last());
            assert(term_fits(term, pv.ro()));
            let j = term.gen_index;
            let exp = term.exponent;
            if exp != 0 {
                let k_opt = self.max_active_gen();
                let do_commute = match k_opt {
                    Some(k) => k > j,
                    None => false,
                };
                if do_commute {
                    let k = k_opt.unwrap();
                    let ek = self.exponents[k];
                    self.exponents.set(k, ek - 1);
                    if exp > 1 {
                        self.stack.push(Term::new(j, exp - 1));
                    }
                    let tail = pres.commutator(k, j);
                    push_reversed(&mut self.stack, &tail.terms);
                    self.stack.push(Term::new(k, 1));
                    self.stack.push(Term::new(j, 1));
                    proof {
                        let kept = if exp > 1 {
                            cur.1.drop_last().push(Term { gen_index: j, exponent: (exp - 1) as u32 })
                        } else {
                            cur.1.drop_last()
                        };
                        assert(self.stack@ =~= kept + pv.cm(k as int, j as int).reverse() + seq![
                            Term { gen_index: k as usize, exponent: 1 },
                            Term { gen_index: j, exponent: 1 },
                        ]);
                    }
                } else {
                    let p = pres.relative_order(j);
                    let sum = self.exponents[j] + exp;
                    if sum >= p {
                        let q = sum / p;
                        self.exponents.set(j, sum % p);
                        let tail = pres.power(j);
                        let ghost rest = self.stack@;
                        let ghost rev = tail.terms@.reverse();
                        let ghost ex = self.exponents@;
                        if tail.terms.len() != 0 {
                            let mut c: u32 = 0;
                            while c < q
                                invariant
                                    c <= q,
                                    self.pres == pres,
                                    self.exponents@ == ex,
                                    tail.terms@.reverse() == rev,
                                    self.stack@ == rest + repeat(rev, c as nat),
                                decreases q - c,
                            {
                                push_reversed(&mut self.stack, &tail.terms);
                                assert(self.stack@ =~= rest + repeat(rev, (c + 1) as nat));
                                c = c + 1;
                            }
                        } else {
                            proof {
                                lemma_repeat_empty(rev, q as nat);
                                assert(rev =~= Seq::<Term>::empty());
                            }
                            assert(self.stack@ =~= rest + repeat(rev, q as nat));
                        }
                    } else {
                        self.exponents.set(j, sum);
                    }
                }
            }
            assert((self.exponents@, self.stack@) == step(pv, cur));
            proof {
                fuel = (fuel - 1) as nat;
            }
        }
        proof {
            lemma_iter_halted(pv, (self.exponents@, self.stack@), fuel);
            lemma_run_is_iter(pv, (self.exponents@, self.stack@), fuel);
        }
    }

    /// Collects a single generator power `gi^exponent` into the collected prefix.
    pub fn collect_generator(&mut self, gen_index: usize, exponent: u32)
        requires
            old(self).wf(),
            old(self).pres_view().collectable(),
            term_fits(Term { gen_index, exponent }, old(self).pres_view().ro()),
        ensures
            final(self).wf(),
            final(self).pres_view() == old(self).pres_view(),
            final(self).exps() == run(
                old(self).pres_view(),
                (old(self).exps(), seq![Term { gen_index, exponent }]),
            ).0,
    {
        self.collect_term(Term::new(gen_index, exponent));
    }

    /// Collects a single `Term` into the collected prefix.
    pub fn collect_term(&mut self, term: Term)
        requires
            old(self).wf(),
            old(self).pres_view().collectable(),
            term_fits(term, old(self).pres_view().ro()),
        ensures
            final(self).wf(),
            final(self).pres_view() == old(self).pres_view(),
            final(self).exps() == run(old(self).pres_view(), (old(self).exps(), seq![term])).0,
    {
        let ghost s0 = (self.exponents@, seq![term]);
        if term.exponent == 0 {
            proof {
                let s1 = step(*self.pres, s0);
                assert(s1.1 =~= Seq::<Term>::empty());
                assert(iter(*self.pres, s1, 0) == s1);
                assert(halts(*self.pres, s0, 1));
                lemma_run_is_iter(*self.pres, s0, 1);
            }
            return;
        }
        self.stack.push(term);
        assert(self.stack@ =~= seq![term]);
        self.process_stack();
    }

    /// Processes a normal form `Word` and incorporates it into the collected prefix.
    ///
    /// From the identity the word's terms are copied into the exponent vector directly, which is
    /// what collecting them would give.
    pub fn collect(&mut self, word: &Word)
        requires
            old(self).wf(),
            old(self).pres_view().collectable(),
            is_normal_terms(word.terms@, old(self).pres_view().ro()),
        ensures
            final(self).wf(),
            final(self).pres_view() == old(self).pres_view(),
            final(self).exps() == run(
                old(self).pres_view(),
                (old(self).exps(), word.terms@.reverse()),
            ).0,
    {
        let ghost pv = *self.pres;
        let ghost e0 = self.exponents@;
        proof {
            assert forall|k: int| 0 <= k < word.terms@.len() implies term_fits(
                #[trigger] word.terms@[k],
                pv.ro(),
            ) by {
                assert(pv.ro()[word.terms@[k].gen_index as int] <= 0x8000_0000);
            }
        }
        if word.is_identity() {
            proof {
                assert(word.terms@.reverse() =~= Seq::<Term>::empty());
                assert(halts(pv, (e0, word.terms@.reverse()), 0));
                lemma_run_is_iter(pv, (e0, word.terms@.reverse()), 0);
            }
            return;
        }
        if self.is_empty() {
            let mut i: usize = 0;
            while i < word.terms.len()
                invariant
                    i <= word.terms@.len(),
                    self.exponents@ == place_terms(e0, word.terms@.take(i as int)),
                    self.exponents@.len() == self.pres.n(),
                    e0.len() == self.pres.n(),
                    self.pres == old(self).pres,
                    self.stack@.len() == 0,
                    is_normal_terms(word.terms@, self.pres.ro()),
                decreases word.terms@.len() - i,
            {
                let t = word.terms[i];
                proof {
                    assert forall|k: int| 0 <= k < word.terms@.take(i as int).len() implies (
                    #[trigger] word.terms@.take(i as int)[k]).gen_index < e0.len() by {
                        assert(word.terms@.take(i as int)[k] == word.terms@[k]);
                    }
                    lemma_place_terms_push(e0, word.terms@.take(i as int), t);
                    assert(word.terms@.take(i as int + 1) =~= word.terms@.take(i as int).push(t));
                }
                self.exponents.set(t.gen_index, t.exponent);
                i = i + 1;
            }
            proof {
                assert(word.terms@.take(i as int) =~= word.terms@);
                lemma_run_normal(pv, e0, word.terms@);
                assert(valid_state(pv, (e0, word.terms@.reverse()))) by {
                    assert forall|k: int| 0 <= k < word.terms@.reverse().len() implies term_fits(
                        #[trigger] word.terms@.reverse()[k],
                        pv.ro(),
                    ) by {
                        assert(word.terms@.reverse()[k] == word.terms@[word.terms@.len() - 1 - k]);
                    }
                }
                lemma_halts(pv, (e0, word.terms@.reverse()));
            }
            return;
        }
        push_reversed(&mut self.stack, &word.terms);
        assert(self.stack@ =~= word.terms@.reverse());
        assert(valid_state(*self.pres, (self.exponents@, self.stack@))) by {
            assert forall|k: int| 0 <= k < self.stack@.len() implies term_fits(
                #[trigger] self.stack@[k],
                self.pres.ro(),
            ) by {
                assert(self.stack@[k] == word.terms@[word.terms@.len() - 1 - k]);
            }
        }
        self.process_stack();
    }

    /// Converts the current exponent vector back into a collected normal form `Word`.
    pub fn into_word(self) -> (w: Word)
        requires
            self.wf(),
        ensures
            w.terms@ == exps_to_terms(self.exps()),
            self.pres_view().collectable() ==> is_normal_terms(w.terms@, self.pres_view().ro()),
    {
        let ghost e = self.exponents@;
        let mut terms: Vec<Term> = Vec::new();
        let mut g: usize = 0;
        while g < self.exponents.len()
            invariant
                g <= e.len(),
                e == self.exponents@,
                terms@ == exps_to_terms(e.take(g as int)),
            decreases e.len() - g,
        {
            let exp = self.exponents[g];
            assert(e.take(g as int + 1).drop_last() =~= e.take(g as int));
            if exp > 0 {
                terms.push(Term::new(g, exp));
            }
            g = g + 1;
        }
        assert(e.take(g as int) =~= e);
        proof {
            if self.pres.collectable() {
                self.pres.lemma_n_fits();
                lemma_exps_to_terms_normal(e, self.pres.ro());
            }
        }
        Word::new(terms)
    }
}

/// Repeating the empty sequence gives the empty sequence.
pub proof fn lemma_repeat_empty(ts: Seq<Term>, q: nat)
    requires
        ts.len() == 0,
    ensures
        repeat(ts, q) =~= Seq::<Term>::empty(),
    decreases q,
{
    if q > 0 {
        lemma_repeat_empty(ts, (q - 1) as nat);
    }
}

} // verus!
