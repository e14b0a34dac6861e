//! Extensions of polycyclic groups: split extensions (semidirect products) and central
//! extensions.
//!
//! For an extension `1 -> N -> G -> Q -> 1` the generators of `G` are those of `Q`,
//! `g_0, ..., g_{m-1}`, followed by those of `N`, `g_m, ..., g_{m+k-1}`.
use vstd::prelude::*;

use crate::collection::term_fits;
use crate::consistency::ConsistencyError;
use crate::element::{inverse_terms, lemma_normal_form_of_normal, normal_form, power_terms, Element};
use crate::presentation::Presentation;
use crate::text::{decimal, push_decimal, push_str};
use crate::util::ntheory::seq_product;
use crate::word::{is_normal_terms, Term, Word};

verus! {

/// Errors that can occur during the construction of a group extension.
#[derive(Debug, Clone, PartialEq, Eq, Structural)]
pub enum ExtensionError {
    /// The kernel group `N` of a central extension is not abelian.
    NonAbelianKernel,
    /// The action or a list of tails does not have the expected length.
    DimensionMismatch { expected: usize, actual: usize },
    /// An action or tail word names a generator outside `N`.
    GeneratorOutOfBounds { index: usize, max: usize },
    /// The resulting presentation is inconsistent.
    Inconsistent(ConsistencyError),
}

impl ExtensionError {
    /// The human-readable message of the error.
    pub open spec fn spec_text(self) -> Seq<char> {
        match self {
            ExtensionError::NonAbelianKernel => "Central extension requires an abelian kernel group N"@,
            ExtensionError::DimensionMismatch { expected, actual } => "Dimension mismatch: expected "@
                + decimal(expected as nat) + " elements, got "@ + decimal(actual as nat),
            ExtensionError::GeneratorOutOfBounds { index, max } => "Generator index "@ + decimal(
                index as nat,
            ) + " is out of bounds (maximum valid index is "@ + decimal(max as nat) + ")"@,
            ExtensionError::Inconsistent(err) => "Extension presentation is inconsistent: "@
                + err.spec_text(),
        }
    }

    /// Returns the human-readable message of the error.
    pub fn to_string(&self) -> (s: String)
        ensures
            s@ == self.spec_text(),
    {
        let mut s = String::new();
        match self {
            ExtensionError::NonAbelianKernel => {
                push_str(&mut s, "Central extension requires an abelian kernel group N");
            },
            ExtensionError::DimensionMismatch { expected, actual } => {
                push_str(&mut s, "Dimension mismatch: expected ");
                push_decimal(&mut s, *expected as u64);
                push_str(&mut s, " elements, got ");
                push_decimal(&mut s, *actual as u64);
            },
            ExtensionError::GeneratorOutOfBounds { index, max } => {
                push_str(&mut s, "Generator index ");
                push_decimal(&mut s, *index as u64);
                push_str(&mut s, " is out of bounds (maximum valid index is ");
                push_decimal(&mut s, *max as u64);
                push_str(&mut s, ")");
            },
            ExtensionError::Inconsistent(err) => {
                push_str(&mut s, "Extension presentation is inconsistent: ");
                let t = err.to_string();
                s.append(t.as_str());
            },
        }
        s
    }
}

/// The terms with every generator index shifted up by `s`.
pub open spec fn shift_terms(ts: Seq<Term>, s: nat) -> Seq<Term> {
    ts.map_values(|t: Term| Term { gen_index: (t.gen_index + s) as usize, exponent: t.exponent })
}

/// Shifts all generator indices of a word by `shift`.
fn shift_word(word: &Word, shift: usize) -> (w: Word)
    requires
        forall|i: int| 0 <= i < word.terms@.len() ==> (#[trigger] word.terms@[i]).gen_index + shift <= usize::MAX,
    ensures
        w.terms@ == shift_terms(word.terms@, shift as nat),
{
    let mut terms: Vec<Term> = Vec::new();
    let mut i: usize = 0;
    while i < word.terms.len()
        invariant
            i <= word.terms@.len(),
            forall|k: int| 0 <= k < word.terms@.len() ==> (#[trigger] word.terms@[k]).gen_index + shift <= usize::MAX,
            terms@ == shift_terms(word.terms@.take(i as int), shift as nat),
        decreases word.terms@.len() - i,
    {
        let t = word.terms[i];
        terms.push(Term { gen_index: t.gen_index + shift, exponent: t.exponent });
        i = i + 1;
        assert(terms@ =~= shift_terms(word.terms@.take(i as int), shift as nat));
    }
    assert(word.terms@.take(word.terms@.len() as int) =~= word.terms@);
    Word { terms }
}

/// The first generator index at least `k` in the terms, in order.
pub open spec fn first_oob_terms(ts: Seq<Term>, k: nat) -> Option<usize>
    decreases ts.len(),
{
    if ts.len() == 0 {
        None
    } else {
        match first_oob_terms(ts.drop_last(), k) {
            Some(x) => Some(x),
            None => if ts.last().gen_index >= k {
                Some(ts.last().gen_index)
            } else {
                None
            },
        }
    }
}

/// The first generator index at least `k` in the words, in order.
pub open spec fn first_oob_words(ws: Seq<Seq<Term>>, k: nat) -> Option<usize>
    decreases ws.len(),
{
    if ws.len() == 0 {
        None
    } else {
        match first_oob_words(ws.drop_last(), k) {
            Some(x) => Some(x),
            None => first_oob_terms(ws.last(), k),
        }
    }
}

/// The error for the out-of-range generator `index` of a group with `k` generators.
pub open spec fn oob_error(index: usize, k: nat) -> ExtensionError {
    ExtensionError::GeneratorOutOfBounds { index, max: if k >= 1 { (k - 1) as usize } else { 0 } }
}

/// Every generator of the terms is below `k`.
pub open spec fn in_range_terms(ts: Seq<Term>, k: nat) -> bool {
    forall|t: int| 0 <= t < ts.len() ==> #[trigger] ts[t].gen_index < k
}

/// A word of `n` brought to normal form when its generators are in range, and kept as it is
/// otherwise (it is then refused for its first generator out of range).
pub open spec fn tidy_word(n: Presentation, ts: Seq<Term>) -> Seq<Term> {
    if in_range_terms(ts, n.n()) {
        normal_form(n, ts)
    } else {
        ts
    }
}

/// [`tidy_word`] on each word.
pub open spec fn tidy_words(n: Presentation, ws: Seq<Seq<Term>>) -> Seq<Seq<Term>> {
    Seq::new(ws.len(), |i: int| tidy_word(n, ws[i]))
}

/// [`tidy_word`] on each image of an action.
pub open spec fn tidy_action(n: Presentation, acts: Seq<Seq<Seq<Term>>>) -> Seq<Seq<Seq<Term>>> {
    Seq::new(acts.len(), |j: int| tidy_words(n, acts[j]))
}

/// The words whose generators lie in range have terms that fit the relative orders.
pub open spec fn words_fit(n: Presentation, ws: Seq<Seq<Term>>) -> bool {
    forall|i: int, t: int|
        0 <= i < ws.len() && 0 <= t < ws[i].len() && ws[i][t].gen_index < n.n() ==> term_fits(
            #[trigger] ws[i][t],
            n.ro(),
        )
}

/// Terms in range have no generator out of range.
proof fn lemma_no_oob_terms(ts: Seq<Term>, k: nat)
    requires
        in_range_terms(ts, k),
    ensures
        first_oob_terms(ts, k) is None,
    decreases ts.len(),
{
    if ts.len() > 0 {
        assert(in_range_terms(ts.drop_last(), k)) by {
            assert forall|t: int| 0 <= t < ts.drop_last().len() implies #[trigger] ts.drop_last()[t].gen_index < k by {
                assert(ts.drop_last()[t] == ts[t]);
            }
        }
        lemma_no_oob_terms(ts.drop_last(), k);
        assert(ts.last() == ts[ts.len() - 1]);
    }
}

/// Tidying a word keeps its first generator out of range.
proof fn lemma_tidy_word_oob(n: Presentation, ts: Seq<Term>)
    requires
        n.collectable(),
        forall|t: int| 0 <= t < ts.len() && ts[t].gen_index < n.n() ==> term_fits(#[trigger] ts[t], n.ro()),
    ensures
        first_oob_terms(tidy_word(n, ts), n.n()) == first_oob_terms(ts, n.n()),
        in_range_terms(ts, n.n()) ==> is_normal_terms(tidy_word(n, ts), n.ro()),
{
    if in_range_terms(ts, n.n()) {
        assert forall|t: int| 0 <= t < ts.len() implies term_fits(#[trigger] ts[t], n.ro()) by {}
        crate::element::lemma_normal_form_normal(n, ts);
        let w = normal_form(n, ts);
        lemma_no_oob_terms(ts, n.n());
        assert(in_range_terms(w, n.n())) by {
            assert forall|t: int| 0 <= t < w.len() implies #[trigger] w[t].gen_index < n.n() by {}
        }
        lemma_no_oob_terms(w, n.n());
    }
}

/// Tidying the words keeps their first generator out of range.
proof fn lemma_tidy_words_oob(n: Presentation, ws: Seq<Seq<Term>>)
    requires
        n.collectable(),
        words_fit(n, ws),
    ensures
        first_oob_words(tidy_words(n, ws), n.n()) == first_oob_words(ws, n.n()),
        first_oob_words(ws, n.n()) is None ==> forall|i: int|
            0 <= i < ws.len() ==> is_normal_terms(#[trigger] tidy_words(n, ws)[i], n.ro()),
    decreases ws.len(),
{
    if ws.len() > 0 {
        let init = ws.drop_last();
        assert(words_fit(n, init)) by {
            assert forall|i: int, t: int|
                0 <= i < init.len() && 0 <= t < init[i].len() && init[i][t].gen_index < n.n() implies term_fits(
                #[trigger] init[i][t],
                n.ro(),
            ) by {
                assert(init[i] == ws[i]);
            }
        }
        lemma_tidy_words_oob(n, init);
        assert(tidy_words(n, ws).drop_last() =~= tidy_words(n, init));
        assert(tidy_words(n, ws).last() == tidy_word(n, ws.last()));
        lemma_tidy_word_oob(n, ws.last());
        if first_oob_words(ws, n.n()) is None {
            assert forall|i: int| 0 <= i < ws.len() implies is_normal_terms(#[trigger] tidy_words(n, ws)[i], n.ro()) by {
                if i < init.len() {
                    assert(tidy_words(n, ws)[i] == tidy_words(n, init)[i]);
                } else {
                    assert(first_oob_terms(ws.last(), n.n()) is None);
                    if !in_range_terms(ws.last(), n.n()) {
                        let t = choose|t: int| 0 <= t < ws.last().len() && !(ws.last()[t].gen_index < n.n());
                        lemma_oob_found(ws.last(), n.n(), t);
                    }
                }
            }
        }
    }
}

/// A term out of range is found.
proof fn lemma_oob_found(ts: Seq<Term>, k: nat, t: int)
    requires
        0 <= t < ts.len(),
        ts[t].gen_index >= k,
    ensures
        first_oob_terms(ts, k) is Some,
    decreases ts.len(),
{
    if t < ts.len() - 1 {
        assert(ts.drop_last()[t] == ts[t]);
        lemma_oob_found(ts.drop_last(), k, t);
    }
}

/// Tidying an action keeps its first error; without an error, the tidied images are normal.
proof fn lemma_tidy_action(n: Presentation, acts: Seq<Seq<Seq<Term>>>, m: nat)
    requires
        n.collectable(),
        forall|j: int| 0 <= j < acts.len() ==> words_fit(n, #[trigger] acts[j]),
    ensures
        action_violation(tidy_action(n, acts), m, n.n()) == action_violation(acts, m, n.n()),
        action_violation(acts, m, n.n()) is None ==> forall|j: int|
            0 <= j < acts.len() ==> images_normal(n, #[trigger] tidy_action(n, acts)[j]),
{
    lemma_tidy_acts(n, acts);
    if action_violation(acts, m, n.n()) is None && acts.len() > 0 {
        assert forall|j: int| 0 <= j < acts.len() implies images_normal(n, #[trigger] tidy_action(n, acts)[j]) by {
            lemma_acts_ok_at(acts, n.n(), j);
            lemma_tidy_words_oob(n, acts[j]);
        }
    }
}

/// Without an error in the whole action, no list of images has one.
proof fn lemma_acts_ok_at(acts: Seq<Seq<Seq<Term>>>, k: nat, j: int)
    requires
        acts_violation(acts, k) is None,
        0 <= j < acts.len(),
    ensures
        act_violation(acts[j], k) is None,
    decreases acts.len(),
{
    if j < acts.len() - 1 {
        assert(acts.drop_last()[j] == acts[j]);
        lemma_acts_ok_at(acts.drop_last(), k, j);
    }
}

/// Tidying keeps the first error of every list of images.
proof fn lemma_tidy_acts(n: Presentation, acts: Seq<Seq<Seq<Term>>>)
    requires
        n.collectable(),
        forall|j: int| 0 <= j < acts.len() ==> words_fit(n, #[trigger] acts[j]),
    ensures
        acts_violation(tidy_action(n, acts), n.n()) == acts_violation(acts, n.n()),
    decreases acts.len(),
{
    if acts.len() > 0 {
        let init = acts.drop_last();
        assert forall|j: int| 0 <= j < init.len() implies words_fit(n, #[trigger] init[j]) by {
            assert(init[j] == acts[j]);
        }
        lemma_tidy_acts(n, init);
        assert(tidy_action(n, acts).drop_last() =~= tidy_action(n, init));
        lemma_tidy_words_oob(n, acts.last());
        assert(tidy_action(n, acts).last() == tidy_words(n, acts.last()));
    }
}

/// The normal form of a word of `n` whose terms fit, collected term by term.
fn normal_word(n: &Presentation, w: &Word) -> (r: Word)
    requires
        n.collectable(),
        forall|t: int| 0 <= t < w.terms@.len() ==> term_fits(#[trigger] w.terms@[t], n.ro()),
    ensures
        r.terms@ == normal_form(*n, w.terms@),
        is_normal_terms(r.terms@, n.ro()),
{
    let ghost ts = w.terms@;
    let mut c = crate::collector::Collector::new(n);
    proof {
        assert forall|i: int| 0 <= i < n.n() implies #[trigger] crate::collector::zeros(n.n())[i] < n.ro()[i] by {
            assert(crate::util::ntheory::spec_is_prime(n.ro()[i] as int));
        }
        crate::collector::lemma_run_normal(*n, crate::collector::zeros(n.n()), Seq::<Term>::empty());
        assert(Seq::<Term>::empty().reverse() =~= Seq::<Term>::empty());
        assert(ts.take(0) =~= Seq::<Term>::empty());
    }
    let mut i: usize = 0;
    while i < w.terms.len()
        invariant
            i <= ts.len(),
            ts == w.terms@,
            n.collectable(),
            forall|t: int| 0 <= t < ts.len() ==> term_fits(#[trigger] ts[t], n.ro()),
            c.wf(),
            c.pres_view() == *n,
            c.exps() == crate::collection::run(*n, (crate::collector::zeros(n.n()), ts.take(i as int).reverse())).0,
        decreases ts.len() - i,
    {
        let t = w.terms[i];
        c.collect_term(t);
        proof {
            let acc = ts.take(i as int);
            crate::element::lemma_collect_more(*n, acc, seq![t]);
            assert(seq![t].reverse() =~= seq![t]);
            assert(acc + seq![t] =~= ts.take(i + 1));
        }
        i = i + 1;
    }
    proof {
        assert(ts.take(i as int) =~= ts);
        crate::element::lemma_normal_form_normal(*n, ts);
    }
    c.into_word()
}

/// [`tidy_word`] on a word.
fn tidy(n: &Presentation, w: &Word) -> (r: Word)
    requires
        n.collectable(),
        forall|t: int| 0 <= t < w.terms@.len() && w.terms@[t].gen_index < n.n() ==> term_fits(#[trigger] w.terms@[t], n.ro()),
    ensures
        r.terms@ == tidy_word(*n, w.terms@),
{
    let k = n.num_gens();
    let mut t: usize = 0;
    while t < w.terms.len()
        invariant
            t <= w.terms@.len(),
            k == n.n(),
            forall|s: int| 0 <= s < t ==> #[trigger] w.terms@[s].gen_index < k,
        decreases w.terms@.len() - t,
    {
        if w.terms[t].gen_index >= k {
            return w.duplicate();
        }
        t = t + 1;
    }
    normal_word(n, w)
}

/// [`tidy_word`] on each word of a list.
fn tidy_list(n: &Presentation, ws: &[Word]) -> (r: Vec<Word>)
    requires
        n.collectable(),
        words_fit(*n, words_terms(ws@)),
    ensures
        words_terms(r@) == tidy_words(*n, words_terms(ws@)),
{
    let mut r: Vec<Word> = Vec::new();
    let mut i: usize = 0;
    while i < ws.len()
        invariant
            i <= ws@.len(),
            n.collectable(),
            words_fit(*n, words_terms(ws@)),
            r@.len() == i,
            forall|j: int| 0 <= j < i ==> (#[trigger] r@[j]).terms@ == tidy_word(*n, ws@[j].terms@),
        decreases ws@.len() - i,
    {
        proof {
            assert forall|t: int| 0 <= t < ws@[i as int].terms@.len() && ws@[i as int].terms@[t].gen_index < n.n() implies term_fits(
                #[trigger] ws@[i as int].terms@[t],
                n.ro(),
            ) by {
                assert(words_terms(ws@)[i as int] == ws@[i as int].terms@);
                assert(words_terms(ws@)[i as int][t] == ws@[i as int].terms@[t]);
            }
        }
        r.push(tidy(n, &ws[i]));
        i = i + 1;
    }
    assert(words_terms(r@) =~= tidy_words(*n, words_terms(ws@)));
    r
}

/// The first error in the images of one generator of `Q`: a wrong count, or a generator out of
/// range.
pub open spec fn act_violation(act: Seq<Seq<Term>>, k: nat) -> Option<ExtensionError> {
    if act.len() != k {
        Some(ExtensionError::DimensionMismatch { expected: k as usize, actual: act.len() as usize })
    } else {
        match first_oob_words(act, k) {
            Some(x) => Some(oob_error(x, k)),
            None => None,
        }
    }
}

/// The first error in the images of the generators of `Q`, in order.
pub open spec fn acts_violation(acts: Seq<Seq<Seq<Term>>>, k: nat) -> Option<ExtensionError>
    decreases acts.len(),
{
    if acts.len() == 0 {
        None
    } else {
        match acts_violation(acts.drop_last(), k) {
            Some(e) => Some(e),
            None => act_violation(acts.last(), k),
        }
    }
}

/// The first error in an action of a group with `m` generators on one with `k`: an action that
/// is not empty must have `m` lists of `k` images in range.
pub open spec fn action_violation(acts: Seq<Seq<Seq<Term>>>, m: nat, k: nat) -> Option<ExtensionError> {
    if acts.len() == 0 {
        None
    } else if acts.len() != m {
        Some(ExtensionError::DimensionMismatch { expected: m as usize, actual: acts.len() as usize })
    } else {
        acts_violation(acts, k)
    }
}

/// The terms of the words of an action.
pub open spec fn action_terms(action: Seq<Vec<Word>>) -> Seq<Seq<Seq<Term>>> {
    action.map_values(|v: Vec<Word>| v@.map_values(|w: Word| w.terms@))
}

/// Once a prefix has an out-of-range generator, the whole sequence has the same first one.
proof fn lemma_oob_terms_prefix(ts: Seq<Term>, i: int, k: nat)
    requires
        0 <= i <= ts.len(),
        first_oob_terms(ts.take(i), k) is Some,
    ensures
        first_oob_terms(ts, k) == first_oob_terms(ts.take(i), k),
    decreases ts.len() - i,
{
    if i < ts.len() {
        assert(ts.take(i + 1).drop_last() =~= ts.take(i));
        lemma_oob_terms_prefix(ts, i + 1, k);
    } else {
        assert(ts.take(i) =~= ts);
    }
}

/// Once a prefix of the words has an out-of-range generator, all of them have the same first one.
proof fn lemma_oob_words_prefix(ws: Seq<Seq<Term>>, i: int, k: nat)
    requires
        0 <= i <= ws.len(),
        first_oob_words(ws.take(i), k) is Some,
    ensures
        first_oob_words(ws, k) == first_oob_words(ws.take(i), k),
    decreases ws.len() - i,
{
    if i < ws.len() {
        assert(ws.take(i + 1).drop_last() =~= ws.take(i));
        lemma_oob_words_prefix(ws, i + 1, k);
    } else {
        assert(ws.take(i) =~= ws);
    }
}

/// Once a prefix of the action has an error, the whole action has the same first one.
proof fn lemma_acts_prefix(acts: Seq<Seq<Seq<Term>>>, i: int, k: nat)
    requires
        0 <= i <= acts.len(),
        acts_violation(acts.take(i), k) is Some,
    ensures
        acts_violation(acts, k) == acts_violation(acts.take(i), k),
    decreases acts.len() - i,
{
    if i < acts.len() {
        assert(acts.take(i + 1).drop_last() =~= acts.take(i));
        lemma_acts_prefix(acts, i + 1, k);
    } else {
        assert(acts.take(i) =~= acts);
    }
}

/// Finds the first generator index at least `k` in the words, in order.
fn find_oob(ws: &[Word], k: usize) -> (r: Option<usize>)
    ensures
        r == first_oob_words(ws@.map_values(|w: Word| w.terms@), k as nat),
{
    let ghost vs = ws@.map_values(|w: Word| w.terms@);
    let mut wi: usize = 0;
    while wi < ws.len()
        invariant
            wi <= ws@.len(),
            vs == ws@.map_values(|w: Word| w.terms@),
            first_oob_words(vs.take(wi as int), k as nat) is None,
        decreases ws@.len() - wi,
    {
        let word = &ws[wi];
        let ghost wt = vs[wi as int];
        assert(wt == word.terms@);
        let mut ti: usize = 0;
        while ti < word.terms.len()
            invariant
                ti <= wt.len(),
                wt == word.terms@,
                wi < ws@.len(),
                vs == ws@.map_values(|w: Word| w.terms@),
                wt == vs[wi as int],
                first_oob_words(vs.take(wi as int), k as nat) is None,
                first_oob_terms(wt.take(ti as int), k as nat) is None,
            decreases wt.len() - ti,
        {
            let g = word.terms[ti].gen_index;
            assert(wt.take(ti + 1).drop_last() =~= wt.take(ti as int));
            if g >= k {
                proof {
                    lemma_oob_terms_prefix(wt, ti + 1, k as nat);
                    assert(vs.take(wi + 1).drop_last() =~= vs.take(wi as int));
                    lemma_oob_words_prefix(vs, wi + 1, k as nat);
                }
                return Some(g);
            }
            ti = ti + 1;
        }
        proof {
            assert(wt.take(wt.len() as int) =~= wt);
            assert(vs.take(wi + 1).drop_last() =~= vs.take(wi as int));
        }
        wi = wi + 1;
    }
    assert(vs.take(vs.len() as int) =~= vs);
    None
}

/// Checks an action of a group with `m` generators on one with `k` generators.
fn check_action(action: &[Vec<Word>], m: usize, k: usize) -> (r: Option<ExtensionError>)
    ensures
        r == action_violation(action_terms(action@), m as nat, k as nat),
{
    let ghost acts = action_terms(action@);
    if action.len() == 0 {
        return None;
    }
    if action.len() != m {
        return Some(ExtensionError::DimensionMismatch { expected: m, actual: action.len() });
    }
    let mut a: usize = 0;
    while a < action.len()
        invariant
            a <= action@.len(),
            action@.len() == m,
            m > 0,
            acts.len() == action@.len(),
            acts == action_terms(action@),
            acts_violation(acts.take(a as int), k as nat) is None,
        decreases action@.len() - a,
    {
        let q_act = &action[a];
        assert(acts[a as int] == q_act@.map_values(|w: Word| w.terms@));
        assert(acts.take(a + 1).drop_last() =~= acts.take(a as int));
        if q_act.len() != k {
            proof {
                assert(acts_violation(acts.take(a + 1), k as nat) == act_violation(acts[a as int], k as nat));
                lemma_acts_prefix(acts, a + 1, k as nat);
            }
            return Some(ExtensionError::DimensionMismatch { expected: k, actual: q_act.len() });
        }
        match find_oob(q_act.as_slice(), k) {
            Some(index) => {
                let max: usize = if k >= 1 {
                    k - 1
                } else {
                    0
                };
                proof {
                    assert(acts_violation(acts.take(a + 1), k as nat) == act_violation(acts[a as int], k as nat));
                    lemma_acts_prefix(acts, a + 1, k as nat);
                }
                return Some(ExtensionError::GeneratorOutOfBounds { index, max });
            },
            None => {},
        }
        a = a + 1;
    }
    assert(acts.take(acts.len() as int) =~= acts);
    None
}

/// The image of a word under the endomorphism of `n` that sends generator `g` to `images[g]`:
/// the product of the images raised to the exponents, collected into normal form.
pub open spec fn hom_image(n: Presentation, ts: Seq<Term>, images: Seq<Seq<Term>>) -> Seq<Term>
    decreases ts.len(),
{
    if ts.len() == 0 {
        Seq::empty()
    } else {
        normal_form(
            n,
            hom_image(n, ts.drop_last(), images) + power_terms(
                n,
                images[ts.last().gen_index as int],
                ts.last().exponent as nat,
            ),
        )
    }
}

/// Every image is a normal word of `n`, one for each generator.
pub open spec fn images_normal(n: Presentation, images: Seq<Seq<Term>>) -> bool {
    &&& images.len() == n.n()
    &&& forall|g: int| 0 <= g < images.len() ==> is_normal_terms(#[trigger] images[g], n.ro())
}

/// Evaluates the endomorphism given by the generator images on a normal word of `n`.
fn eval_hom(word: &Word, images: &Vec<Word>, n: &Presentation) -> (w: Word)
    requires
        n.collectable(),
        is_normal_terms(word.terms@, n.ro()),
        images_normal(*n, images@.map_values(|v: Word| v.terms@)),
    ensures
        w.terms@ == hom_image(*n, word.terms@, images@.map_values(|v: Word| v.terms@)),
        is_normal_terms(w.terms@, n.ro()),
{
    let ghost imgs = images@.map_values(|v: Word| v.terms@);
    let mut res = Element::identity(n);
    let mut i: usize = 0;
    while i < word.terms.len()
        invariant
            i <= word.terms@.len(),
            n.collectable(),
            is_normal_terms(word.terms@, n.ro()),
            imgs == images@.map_values(|v: Word| v.terms@),
            images_normal(*n, imgs),
            res.pres == n,
            res.valid(),
            res.word.terms@ == hom_image(*n, word.terms@.take(i as int), imgs),
        decreases word.terms@.len() - i,
    {
        let t = word.terms[i];
        proof {
            assert(imgs[t.gen_index as int] == images@[t.gen_index as int].terms@);
        }
        let img = Element::new(images[t.gen_index].duplicate(), n);
        let pw = img.pow(t.exponent);
        res = res.product(&pw);
        proof {
            let pre = word.terms@.take(i + 1);
            assert(pre.drop_last() =~= word.terms@.take(i as int));
            assert(pre.last() == t);
        }
        i = i + 1;
    }
    assert(word.terms@.take(word.terms@.len() as int) =~= word.terms@);
    res.word
}

/// The word of `g_i` after `t` applications of the endomorphism.
pub open spec fn hom_orbit(n: Presentation, images: Seq<Seq<Term>>, i: nat, t: nat) -> Seq<Term>
    decreases t,
{
    if t == 0 {
        seq![Term { gen_index: i as usize, exponent: 1 }]
    } else {
        hom_image(n, hom_orbit(n, images, i, (t - 1) as nat), images)
    }
}

/// The first `t` in `start..bound` whose orbit word maps back to `g_i`.
pub open spec fn first_return(n: Presentation, images: Seq<Seq<Term>>, i: nat, start: nat, bound: nat) -> Option<nat>
    decreases bound - start,
{
    if start >= bound {
        None
    } else if hom_image(n, hom_orbit(n, images, i, start), images) == seq![
        Term { gen_index: i as usize, exponent: 1 },
    ] {
        Some(start)
    } else {
        first_return(n, images, i, start + 1, bound)
    }
}

/// The number of steps tried when inverting an automorphism of `n`: the group order, and at
/// least one.
pub open spec fn inversion_bound(n: Presentation) -> nat {
    let o = seq_product(n.ro()) as usize;
    if o >= 1 {
        o as nat
    } else {
        1
    }
}

/// The preimage of `g_i` under the automorphism, found by iterating it on `g_i` until it
/// returns: the word `w` with `phi(w) = g_i`.
pub open spec fn preimage(n: Presentation, images: Seq<Seq<Term>>, i: nat) -> Option<Seq<Term>> {
    match first_return(n, images, i, 0, inversion_bound(n)) {
        Some(t) => Some(hom_orbit(n, images, i, t)),
        None => None,
    }
}


/// The orbit word at which the iteration returns maps to `g_i`.
proof fn lemma_first_return_maps(n: Presentation, images: Seq<Seq<Term>>, i: nat, start: nat, bound: nat)
    ensures
        first_return(n, images, i, start, bound) matches Some(t) ==> hom_image(n, hom_orbit(n, images, i, t), images)
            == seq![Term { gen_index: i as usize, exponent: 1 }],
    decreases bound - start,
{
    if start < bound && hom_image(n, hom_orbit(n, images, i, start), images) != seq![
        Term { gen_index: i as usize, exponent: 1 },
    ] {
        lemma_first_return_maps(n, images, i, start + 1, bound);
    }
}

/// A preimage found for `g_i` is mapped to `g_i` by the automorphism.
pub proof fn lemma_preimage_maps(n: Presentation, images: Seq<Seq<Term>>, i: nat)
    ensures
        preimage(n, images, i) matches Some(x) ==> hom_image(n, x, images) == seq![Term { gen_index: i as usize, exponent: 1 }],
{
    lemma_first_return_maps(n, images, i, 0, inversion_bound(n));
}

/// Without a missing preimage among the first `k` generators, all of them have one.
proof fn lemma_missing_in_act_none(n: Presentation, images: Seq<Seq<Term>>, k: nat)
    requires
        missing_in_act(n, images, k) is None,
    ensures
        forall|i: nat| i < k ==> #[trigger] preimage(n, images, i) is Some,
    decreases k,
{
    if k > 0 {
        lemma_missing_in_act_none(n, images, (k - 1) as nat);
    }
}

/// Without a missing preimage for any generator of `Q`, every image list has all of them.
proof fn lemma_missing_inverse_none(n: Presentation, acts: Seq<Seq<Seq<Term>>>, k: nat)
    requires
        missing_inverse(n, acts, k) is None,
    ensures
        forall|j: int, i: nat| 0 <= j < acts.len() && i < k ==> #[trigger] preimage(n, acts[j], i) is Some,
    decreases acts.len(),
{
    if acts.len() > 0 {
        lemma_missing_inverse_none(n, acts.drop_last(), k);
        lemma_missing_in_act_none(n, acts.last(), k);
        assert forall|j: int, i: nat| 0 <= j < acts.len() && i < k implies #[trigger] preimage(n, acts[j], i) is Some by {
            if j < acts.len() - 1 {
                assert(acts[j] == acts.drop_last()[j]);
            }
        }
    }
}

/// In a split extension whose action has every preimage, the cross relation `[g_{m+i}, g_j]` is
/// `n_i^-1 x` (shifted past the generators of `Q`) for the word `x` found as preimage, which the
/// action of `q_j` maps to `n_i`: conjugation by `q_j` acts on `N` as the given images say.
pub proof fn lemma_split_cross_relations(n: Presentation, q: Presentation, acts: Seq<Seq<Seq<Term>>>, p: Presentation)
    requires
        is_split_extension(p, n, q, acts),
        acts.len() == q.n(),
        acts.len() > 0,
        missing_inverse(n, acts, n.n()) is None,
    ensures
        forall|i: nat, j: int|
            #![trigger preimage(n, acts[j], i)]
            0 <= j < q.n() && i < n.n() ==> hom_image(n, preimage(n, acts[j], i)->0, acts[j]) == seq![Term { gen_index: i as usize, exponent: 1 }] && p.cm((q.n() + i) as int, j) == shift_terms(
                normal_form(n, inverse_terms(n, seq![Term { gen_index: i as usize, exponent: 1 }]) + preimage(n, acts[j], i)->0),
                q.n(),
            ),
{
    lemma_missing_inverse_none(n, acts, n.n());
    assert forall|i: nat, j: int|
            #![trigger preimage(n, acts[j], i)]
            0 <= j < q.n() && i < n.n() implies hom_image(n, preimage(n, acts[j], i)->0, acts[j]) == seq![Term { gen_index: i as usize, exponent: 1 }] && p.cm((q.n() + i) as int, j) == shift_terms(
                normal_form(n, inverse_terms(n, seq![Term { gen_index: i as usize, exponent: 1 }]) + preimage(n, acts[j], i)->0),
                q.n(),
            ) by {
        assert(preimage(n, acts[j], i) is Some);
        lemma_preimage_maps(n, acts[j], i);
        assert(p.cm((q.n() + i) as int, j) == shift_terms(cross_word(n, acts[j], i), q.n()));
    }
}

/// The group order of `n` and the partial products of its relative orders fit in a `u128`.
pub open spec fn order_fits(n: Presentation) -> bool {
    forall|t: int| 0 <= t <= n.n() ==> #[trigger] seq_product(n.ro().take(t)) <= u128::MAX
}

/// Whether two words have the same terms.
fn same_terms(a: &Word, b: &Word) -> (r: bool)
    ensures
        r == (a.terms@ == b.terms@),
{
    if a.terms.len() != b.terms.len() {
        return false;
    }
    let mut i: usize = 0;
    while i < a.terms.len()
        invariant
            i <= a.terms@.len(),
            a.terms@.len() == b.terms@.len(),
            forall|k: int| 0 <= k < i ==> a.terms@[k] == b.terms@[k],
        decreases a.terms@.len() - i,
    {
        if a.terms[i] != b.terms[i] {
            return false;
        }
        i = i + 1;
    }
    assert(a.terms@ =~= b.terms@);
    true
}

/// Computes the preimage of generator `g_i` under an automorphism of `n` by applying it to `g_i`
/// repeatedly (at most the group order times) until the image returns to `g_i`.
fn invert_automorphism_on_generator(gen_idx: usize, images: &Vec<Word>, n: &Presentation) -> (r: Result<
    Word,
    ExtensionError,
>)
    requires
        n.collectable(),
        order_fits(*n),
        gen_idx < n.n(),
        images_normal(*n, images@.map_values(|v: Word| v.terms@)),
    ensures
        match preimage(*n, images@.map_values(|v: Word| v.terms@), gen_idx as nat) {
            Some(w) => r matches Ok(x) && x.terms@ == w,
            None => r == Err::<Word, ExtensionError>(
                ExtensionError::Inconsistent(ConsistencyError::PowerAndItself { i: gen_idx }),
            ),
        },
        r matches Ok(x) ==> is_normal_terms(x.terms@, n.ro()),
{
    let ghost imgs = images@.map_values(|v: Word| v.terms@);
    let initial = Word::from_term(gen_idx, 1);
    let mut current = initial.duplicate();
    let order = n.order();
    let max_iter = order as usize;
    let bound: usize = if max_iter >= 1 {
        max_iter
    } else {
        1
    };
    proof {
        assert(bound == inversion_bound(*n));
        assert(crate::util::ntheory::spec_is_prime(n.ro()[gen_idx as int] as int));
        assert(current.terms@ == hom_orbit(*n, imgs, gen_idx as nat, 0));
    }
    let mut t: usize = 0;
    while t < bound
        invariant
            t <= bound,
            bound == inversion_bound(*n),
            n.collectable(),
            gen_idx < n.n(),
            imgs == images@.map_values(|v: Word| v.terms@),
            images_normal(*n, imgs),
            initial.terms@ == seq![Term { gen_index: gen_idx, exponent: 1 }],
            current.terms@ == hom_orbit(*n, imgs, gen_idx as nat, t as nat),
            is_normal_terms(current.terms@, n.ro()),
            first_return(*n, imgs, gen_idx as nat, 0, bound as nat) == first_return(
                *n,
                imgs,
                gen_idx as nat,
                t as nat,
                bound as nat,
            ),
        decreases bound - t,
    {
        let next = eval_hom(&current, images, n);
        if same_terms(&next, &initial) {
            return Ok(current);
        }
        current = next;
        t = t + 1;
    }
    Err(ExtensionError::Inconsistent(ConsistencyError::PowerAndItself { i: gen_idx }))
}


/// A normal word for the relative orders `ro` stays normal when more generators follow.
proof fn lemma_normal_extend(ts: Seq<Term>, ro: Seq<u32>, more: Seq<u32>)
    requires
        is_normal_terms(ts, ro),
    ensures
        is_normal_terms(ts, ro + more),
{
    assert forall|i: int| 0 <= i < ts.len() implies (#[trigger] ts[i]).gen_index < (ro + more).len() && 0
        < ts[i].exponent < (ro + more)[ts[i].gen_index as int] by {
        assert((ro + more)[ts[i].gen_index as int] == ro[ts[i].gen_index as int]);
    }
}

/// A normal word of the second group, shifted past the generators of the first, is normal for
/// the concatenated relative orders.
proof fn lemma_normal_shift(ts: Seq<Term>, ro_q: Seq<u32>, ro_n: Seq<u32>)
    requires
        is_normal_terms(ts, ro_n),
        ro_q.len() + ro_n.len() <= usize::MAX,
    ensures
        is_normal_terms(shift_terms(ts, ro_q.len()), ro_q + ro_n),
        forall|i: int| 0 <= i < ts.len() ==> #[trigger] shift_terms(ts, ro_q.len())[i].gen_index >= ro_q.len(),
{
    let st = shift_terms(ts, ro_q.len());
    assert forall|i: int| 0 <= i < st.len() implies #[trigger] st[i].gen_index == ts[i].gen_index + ro_q.len() by {}
    assert forall|i: int| 0 <= i < st.len() implies (#[trigger] st[i]).gen_index < (ro_q + ro_n).len() && 0
        < st[i].exponent < (ro_q + ro_n)[st[i].gen_index as int] by {
        assert((ro_q + ro_n)[st[i].gen_index as int] == ro_n[ts[i].gen_index as int]);
    }
    assert forall|i: int, j: int| 0 <= i < j < st.len() implies st[i].gen_index < st[j].gen_index by {
        assert(ts[i].gen_index < ts[j].gen_index);
    }
}

/// Builds the presentation with the given relative orders and relation tables: `pws[g]` for
/// `g^{p_g}` and `cms[a][b]` for `[g_a, g_b]`, `b < a`.
pub(crate) fn assemble(ro: Vec<u32>, pws: &Vec<Word>, cms: &Vec<Vec<Word>>) -> (p: Presentation)
    requires
        ro@.len() * (ro@.len() - 1) <= usize::MAX,
        forall|g: int| 0 <= g < ro@.len() ==> crate::util::ntheory::spec_is_prime(#[trigger] ro@[g] as int),
        pws@.len() == ro@.len(),
        cms@.len() == ro@.len(),
        forall|a: int| 0 <= a < cms@.len() ==> (#[trigger] cms@[a])@.len() == a,
        forall|g: int, t: int|
            0 <= g < ro@.len() && 0 <= t < pws@[g].terms@.len() ==> g < (#[trigger] pws@[g].terms@[t]).gen_index
                < ro@.len(),
        forall|a: int, b: int, t: int|
            0 <= b < a < ro@.len() && 0 <= t < cms@[a]@[b].terms@.len() ==> b < (
            #[trigger] cms@[a]@[b].terms@[t]).gen_index < ro@.len(),
    ensures
        p.wf(),
        p.is_pc(),
        p.ro() == ro@,
        forall|g: int| 0 <= g < ro@.len() ==> #[trigger] p.pw(g) == pws@[g].terms@,
        forall|a: int, b: int| 0 <= b < a < ro@.len() ==> #[trigger] p.cm(a, b) == cms@[a]@[b].terms@,
{
    let total = ro.len();
    let ghost r = ro@;
    proof {
        crate::builder::lemma_primes_accepted(ro@);
    }
    let mut builder = crate::builder::Builder::new(ro).expect("prime relative orders are accepted");
    let mut g: usize = 0;
    while g < total
        invariant
            g <= total,
            total == builder.n(),
            builder.wf(),
            builder.ro() == r,
            r.len() == total,
            pws@.len() == total,
            forall|h: int, t: int|
                0 <= h < total && 0 <= t < pws@[h].terms@.len() ==> h < (#[trigger] pws@[h].terms@[t]).gen_index
                    < total,
            forall|h: int| 0 <= h < total ==> #[trigger] builder.pw(h) == if h < g {
                pws@[h].terms@
            } else {
                Seq::<Term>::empty()
            },
            forall|a: int, b: int| 0 <= b < a < total ==> #[trigger] builder.cm(a, b).len() == 0,
        decreases total - g,
    {
        let w = pws[g].duplicate();
        let ghost old_b = builder;
        proof {
            crate::builder::lemma_valid_word(w.terms@, total as nat, g as nat);
        }
        builder = builder.add_power(g, w).expect("valid power relation");
        proof {
            assert forall|h: int| 0 <= h < total implies #[trigger] builder.pw(h) == if h < g + 1 {
                pws@[h].terms@
            } else {
                Seq::<Term>::empty()
            } by {
                if h != g {
                    assert(builder.pw(h) == old_b.pw(h));
                }
            }
            assert forall|a: int, b: int| 0 <= b < a < total implies #[trigger] builder.cm(a, b).len() == 0 by {
                assert(builder.cm(a, b) == old_b.cm(a, b));
            }
        }
        g = g + 1;
    }
    let mut a: usize = 1;
    while a < total
        invariant
            1 <= a,
            a <= total || total == 0,
            total == builder.n(),
            builder.wf(),
            builder.ro() == r,
            cms@.len() == total,
            forall|x: int| 0 <= x < cms@.len() ==> (#[trigger] cms@[x])@.len() == x,
            forall|x: int, y: int, t: int|
                0 <= y < x < total && 0 <= t < cms@[x]@[y].terms@.len() ==> y < (
                #[trigger] cms@[x]@[y].terms@[t]).gen_index < total,
            forall|h: int| 0 <= h < total ==> #[trigger] builder.pw(h) == pws@[h].terms@,
            forall|x: int, y: int| 0 <= y < x < total ==> #[trigger] builder.cm(x, y) == if x < a {
                cms@[x]@[y].terms@
            } else {
                Seq::<Term>::empty()
            },
        decreases total - a,
    {
        let mut b: usize = 0;
        while b < a
            invariant
                1 <= a < total,
                b <= a,
                total == builder.n(),
                builder.wf(),
                builder.ro() == r,
                cms@.len() == total,
                forall|x: int| 0 <= x < cms@.len() ==> (#[trigger] cms@[x])@.len() == x,
                forall|x: int, y: int, t: int|
                    0 <= y < x < total && 0 <= t < cms@[x]@[y].terms@.len() ==> y < (
                    #[trigger] cms@[x]@[y].terms@[t]).gen_index < total,
                forall|h: int| 0 <= h < total ==> #[trigger] builder.pw(h) == pws@[h].terms@,
                forall|x: int, y: int| 0 <= y < x < total ==> #[trigger] builder.cm(x, y) == if x < a || (x == a
                    && y < b) {
                    cms@[x]@[y].terms@
                } else {
                    Seq::<Term>::empty()
                },
            decreases a - b,
        {
            let w = cms[a][b].duplicate();
            let ghost old_b = builder;
            proof {
                crate::builder::lemma_valid_word(w.terms@, total as nat, b as nat);
            }
            builder = builder.add_commutator(a, b, w).expect("valid commutator relation");
            proof {
                assert forall|h: int| 0 <= h < total implies #[trigger] builder.pw(h) == pws@[h].terms@ by {
                    assert(builder.pw(h) == old_b.pw(h));
                }
                assert forall|x: int, y: int| 0 <= y < x < total implies #[trigger] builder.cm(x, y) == if x < a
                    || (x == a && y < b + 1) {
                    cms@[x]@[y].terms@
                } else {
                    Seq::<Term>::empty()
                } by {
                    if x != a || y != b {
                        assert(builder.cm(x, y) == old_b.cm(x, y));
                    }
                }
            }
            b = b + 1;
        }
        a = a + 1;
    }
    let pres = builder.build();
    proof {
        assert forall|h: int| 0 <= h < r.len() implies #[trigger] pres.pw(h) == pws@[h].terms@ by {
            assert(pres.pw(h) == builder.pw(h));
        }
        assert forall|x: int, y: int| 0 <= y < x < r.len() implies #[trigger] pres.cm(x, y) == cms@[x]@[y].terms@ by {
            assert(pres.cm(x, y) == builder.cm(x, y));
        }
    }
    pres
}


/// The word of the cross relation `[g_{m+i}, g_j]` of a split extension: `n_i^-1 psi(n_i)`,
/// where `psi` is the inverse of the automorphism by which `q_j` acts.
pub open spec fn cross_word(n: Presentation, images: Seq<Seq<Term>>, i: nat) -> Seq<Term> {
    normal_form(
        n,
        inverse_terms(n, seq![Term { gen_index: i as usize, exponent: 1 }]) + preimage(n, images, i)->0,
    )
}

/// The first generator among the first `k` whose preimage is not found.
pub open spec fn missing_in_act(n: Presentation, images: Seq<Seq<Term>>, k: nat) -> Option<nat>
    decreases k,
{
    if k == 0 {
        None
    } else {
        match missing_in_act(n, images, (k - 1) as nat) {
            Some(x) => Some(x),
            None => if preimage(n, images, (k - 1) as nat) is None {
                Some((k - 1) as nat)
            } else {
                None
            },
        }
    }
}

/// The first generator, over the generators of `Q` in order, whose preimage is not found.
pub open spec fn missing_inverse(n: Presentation, acts: Seq<Seq<Seq<Term>>>, k: nat) -> Option<nat>
    decreases acts.len(),
{
    if acts.len() == 0 {
        None
    } else {
        match missing_inverse(n, acts.drop_last(), k) {
            Some(x) => Some(x),
            None => missing_in_act(n, acts.last(), k),
        }
    }
}

proof fn lemma_missing_in_act_prefix(n: Presentation, images: Seq<Seq<Term>>, i: nat, k: nat)
    requires
        i <= k,
        missing_in_act(n, images, i) is Some,
    ensures
        missing_in_act(n, images, k) == missing_in_act(n, images, i),
    decreases k - i,
{
    if i < k {
        lemma_missing_in_act_prefix(n, images, i, (k - 1) as nat);
    }
}

proof fn lemma_missing_inverse_prefix(n: Presentation, acts: Seq<Seq<Seq<Term>>>, j: int, k: nat)
    requires
        0 <= j <= acts.len(),
        missing_inverse(n, acts.take(j), k) is Some,
    ensures
        missing_inverse(n, acts, k) == missing_inverse(n, acts.take(j), k),
    decreases acts.len() - j,
{
    if j < acts.len() {
        assert(acts.take(j + 1).drop_last() =~= acts.take(j));
        lemma_missing_inverse_prefix(n, acts, j + 1, k);
    } else {
        assert(acts.take(j) =~= acts);
    }
}

/// `p` is the split extension of `n` by `q` under the action: the relative orders of `q` and
/// then `n`, the relations of `q` unchanged, those of `n` shifted by `m`, and the cross relations
/// `[g_{m+i}, g_j]` trivial for the empty action and given by [`cross_word`] otherwise.
pub open spec fn is_split_extension(p: Presentation, n: Presentation, q: Presentation, acts: Seq<Seq<Seq<Term>>>) -> bool {
    let m = q.n();
    let total = q.n() + n.n();
    &&& p.ro() == q.ro() + n.ro()
    &&& forall|g: int| 0 <= g < m ==> #[trigger] p.pw(g) == q.pw(g)
    &&& forall|g: int| m <= g < total ==> #[trigger] p.pw(g) == shift_terms(n.pw(g - m), m)
    &&& forall|a: int, b: int| 0 <= b < a < m ==> #[trigger] p.cm(a, b) == q.cm(a, b)
    &&& forall|a: int, b: int|
        m <= b < a < total ==> #[trigger] p.cm(a, b) == shift_terms(n.cm(a - m, b - m), m)
    &&& forall|a: int, b: int|
        0 <= b < m <= a < total ==> #[trigger] p.cm(a, b) == if acts.len() == 0 {
            Seq::<Term>::empty()
        } else {
            shift_terms(cross_word(n, acts[b], (a - m) as nat), m)
        }
}

/// [`split_extension`] for an action whose images are, where the action is valid, in normal
/// form.
fn split_extension_normal(n: &Presentation, q: &Presentation, action: &[Vec<Word>]) -> (res: Result<
    Presentation,
    ExtensionError,
>)
    requires
        n.collectable(),
        q.collectable(),
        n.relations_normal(),
        q.relations_normal(),
        order_fits(*n),
        (q.n() + n.n()) * (q.n() + n.n() - 1) <= usize::MAX,
        action_violation(action_terms(action@), q.n(), n.n()) is None ==> forall|j: int|
            0 <= j < action@.len() ==> images_normal(*n, #[trigger] action_terms(action@)[j]),
    ensures
        action_violation(action_terms(action@), q.n(), n.n()) matches Some(e) ==> res == Err::<
            Presentation,
            ExtensionError,
        >(e),
        action_violation(action_terms(action@), q.n(), n.n()) is None && action@.len() > 0 ==> (missing_inverse(
            *n,
            action_terms(action@),
            n.n(),
        ) matches Some(i) ==> res == Err::<Presentation, ExtensionError>(
            ExtensionError::Inconsistent(ConsistencyError::PowerAndItself { i: i as usize }),
        )),
        action_violation(action_terms(action@), q.n(), n.n()) is None && (action@.len() == 0
            || missing_inverse(*n, action_terms(action@), n.n()) is None) ==> exists|p: Presentation|
            #[trigger] is_split_extension(p, *n, *q, action_terms(action@)) && p.collectable()
                && p.relations_normal() && (res is Ok <==> crate::consistency::consistent(p)) && (res matches Ok(
                x,
            ) ==> x == p) && (res matches Err(e) ==> (e matches ExtensionError::Inconsistent(c)
                && crate::consistency::first_failure(p, c))),
{
    let ghost acts = action_terms(action@);
    let m = q.num_gens();
    let k = n.num_gens();
    match check_action(action, m, k) {
        Some(e) => {
            return Err(e);
        },
        None => {},
    }
    let mut cross: Vec<Vec<Word>> = Vec::new();
    if action.len() > 0 {
        let mut j: usize = 0;
        while j < m
            invariant
                j <= m,
                m == q.n(),
                k == n.n(),
                action@.len() == m,
                acts == action_terms(action@),
                n.collectable(),
                order_fits(*n),
                action_violation(acts, m as nat, k as nat) is None,
                forall|jj: int| 0 <= jj < action@.len() ==> images_normal(*n, #[trigger] acts[jj]),
                missing_inverse(*n, acts.take(j as int), k as nat) is None,
                cross@.len() == j,
                forall|jj: int| 0 <= jj < j ==> (#[trigger] cross@[jj])@.len() == k,
                forall|jj: int, ii: int|
                    0 <= jj < j && 0 <= ii < k ==> #[trigger] cross@[jj]@[ii].terms@ == cross_word(
                        *n,
                        acts[jj],
                        ii as nat,
                    ) && is_normal_terms(cross@[jj]@[ii].terms@, n.ro()),
            decreases m - j,
        {
            let mut row: Vec<Word> = Vec::new();
            let mut i: usize = 0;
            proof {
                assert(acts[j as int] == action@[j as int]@.map_values(|v: Word| v.terms@));
            }
            while i < k
                invariant
                    i <= k,
                    j < m,
                    m == q.n(),
                    k == n.n(),
                    action@.len() == m,
                    acts == action_terms(action@),
                    acts[j as int] == action@[j as int]@.map_values(|v: Word| v.terms@),
                    n.collectable(),
                    order_fits(*n),
                    action_violation(acts, m as nat, k as nat) is None,
                    images_normal(*n, acts[j as int]),
                    missing_inverse(*n, acts.take(j as int), k as nat) is None,
                    missing_in_act(*n, acts[j as int], i as nat) is None,
                    row@.len() == i,
                    forall|ii: int| 0 <= ii < i ==> #[trigger] row@[ii].terms@ == cross_word(*n, acts[j as int], ii as nat)
                        && is_normal_terms(row@[ii].terms@, n.ro()),
                decreases k - i,
            {
                let inv_img = match invert_automorphism_on_generator(i, &action[j], n) {
                    Ok(w) => w,
                    Err(e) => {
                        proof {
                            assert(missing_in_act(*n, acts[j as int], (i + 1) as nat) == Some(i as nat));
                            lemma_missing_in_act_prefix(*n, acts[j as int], (i + 1) as nat, k as nat);
                            assert(acts.take(j + 1).drop_last() =~= acts.take(j as int));
                            assert(acts.take(j + 1).last() == acts[j as int]);
                            lemma_missing_inverse_prefix(*n, acts, j + 1, k as nat);
                        }
                        return Err(e);
                    },
                };
                proof {
                    assert(crate::util::ntheory::spec_is_prime(n.ro()[i as int] as int));
                    lemma_normal_form_of_normal(*n, seq![Term { gen_index: i, exponent: 1 }]);
                }
                let n_i = Element::from_generator(i, 1, n);
                let inv_elem = Element::new(inv_img, n);
                let comm = n_i.inverse().product(&inv_elem);
                row.push(comm.word);
                i = i + 1;
            }
            let ghost before = cross@;
            cross.push(row);
            proof {
                assert(acts.take(j + 1).drop_last() =~= acts.take(j as int));
                assert(acts.take(j + 1).last() == acts[j as int]);
                assert forall|jj: int, ii: int|
                    0 <= jj < j + 1 && 0 <= ii < k implies #[trigger] cross@[jj]@[ii].terms@ == cross_word(
                        *n,
                        acts[jj],
                        ii as nat,
                    ) && is_normal_terms(cross@[jj]@[ii].terms@, n.ro()) by {
                    if jj < j {
                        assert(cross@[jj] == before[jj]);
                    }
                }
                assert forall|jj: int| 0 <= jj < j + 1 implies (#[trigger] cross@[jj])@.len() == k by {
                    if jj < j {
                        assert(cross@[jj] == before[jj]);
                    }
                }
            }
            j = j + 1;
        }
        proof {
            assert(acts.take(m as int) =~= acts);
        }
    }
    proof {
        let t = q.n() + n.n();
        if t >= 2 {
            assert(t <= t * (t - 1)) by (nonlinear_arith)
                requires
                    t >= 2,
            ;
        }
    }
    let total = m + k;
    let mut ro: Vec<u32> = Vec::new();
    let mut pws: Vec<Word> = Vec::new();
    let mut g: usize = 0;
    while g < total
        invariant
            g <= total,
            total == m + k,
            m == q.n(),
            k == n.n(),
            ro@ == (q.ro() + n.ro()).take(g as int),
            pws@.len() == g,
            forall|h: int| 0 <= h < g && h < m ==> #[trigger] pws@[h].terms@ == q.pw(h),
            forall|h: int| m <= h < g ==> #[trigger] pws@[h].terms@ == shift_terms(n.pw(h - m), m as nat),
            q.wf(),
            n.wf(),
            n.is_pc(),
        decreases total - g,
    {
        if g < m {
            ro.push(q.relative_order(g));
            pws.push(q.power(g).duplicate());
        } else {
            ro.push(n.relative_order(g - m));
            proof {
                assert forall|t: int| 0 <= t < n.pw((g - m) as int).len() implies (#[trigger] n.pw((g - m) as int)[t]).gen_index
                    + m <= usize::MAX by {}
            }
            pws.push(shift_word(n.power(g - m), m));
        }
        assert(ro@ =~= (q.ro() + n.ro()).take(g + 1));
        g = g + 1;
    }
    assert(ro@ =~= q.ro() + n.ro());
    let mut cms: Vec<Vec<Word>> = Vec::new();
    let mut a: usize = 0;
    while a < total
        invariant
            a <= total,
            total == m + k,
            m == q.n(),
            k == n.n(),
            q.wf(),
            n.wf(),
            n.is_pc(),
            cms@.len() == a,
            action@.len() > 0 ==> cross@.len() == m,
            action@.len() > 0 ==> forall|jj: int| 0 <= jj < m ==> (#[trigger] cross@[jj])@.len() == k,
            action@.len() > 0 ==> forall|jj: int, ii: int|
                0 <= jj < m && 0 <= ii < k ==> is_normal_terms(#[trigger] cross@[jj]@[ii].terms@, n.ro()),
            forall|x: int| 0 <= x < a ==> (#[trigger] cms@[x])@.len() == x,
            forall|x: int, y: int| 0 <= y < x < a ==> #[trigger] cms@[x]@[y].terms@ == if x < m {
                q.cm(x, y)
            } else if y >= m {
                shift_terms(n.cm(x - m, y - m), m as nat)
            } else if action@.len() == 0 {
                Seq::<Term>::empty()
            } else {
                shift_terms(cross@[y]@[x - m].terms@, m as nat)
            },
        decreases total - a,
    {
        let mut row: Vec<Word> = Vec::new();
        let mut b: usize = 0;
        while b < a
            invariant
                b <= a < total,
                total == m + k,
                m == q.n(),
                k == n.n(),
                q.wf(),
                n.wf(),
                n.is_pc(),
                action@.len() > 0 ==> cross@.len() == m,
                action@.len() > 0 ==> forall|jj: int| 0 <= jj < m ==> (#[trigger] cross@[jj])@.len() == k,
                action@.len() > 0 ==> forall|jj: int, ii: int|
                    0 <= jj < m && 0 <= ii < k ==> is_normal_terms(#[trigger] cross@[jj]@[ii].terms@, n.ro()),
                row@.len() == b,
                forall|y: int| 0 <= y < b ==> #[trigger] row@[y].terms@ == if a < m {
                    q.cm(a as int, y)
                } else if y >= m {
                    shift_terms(n.cm(a - m, y - m), m as nat)
                } else if action@.len() == 0 {
                    Seq::<Term>::empty()
                } else {
                    shift_terms(cross@[y]@[a - m].terms@, m as nat)
                },
            decreases a - b,
        {
            if a < m {
                row.push(q.commutator(a, b).duplicate());
            } else if b >= m {
                proof {
                    assert forall|t: int| 0 <= t < n.cm((a - m) as int, (b - m) as int).len() implies (#[trigger] n.cm(
                        (a - m) as int,
                        (b - m) as int,
                    )[t]).gen_index + m <= usize::MAX by {}
                }
                row.push(shift_word(n.commutator(a - m, b - m), m));
            } else if action.len() == 0 {
                row.push(Word::identity());
            } else {
                proof {
                    assert(cross@[b as int]@.len() == k);
                    assert(is_normal_terms(cross@[b as int]@[a - m].terms@, n.ro()));
                }
                row.push(shift_word(&cross[b][a - m], m));
            }
            b = b + 1;
        }
        cms.push(row);
        proof {
            assert forall|x: int| 0 <= x < a + 1 implies (#[trigger] cms@[x])@.len() == x by {}
        }
        a = a + 1;
    }
    let ghost rov = ro@;
    proof {
        assert forall|h: int| 0 <= h < total implies crate::util::ntheory::spec_is_prime(#[trigger] rov[h] as int) by {
            if h < m {
                assert(rov[h] == q.ro()[h]);
            } else {
                assert(rov[h] == n.ro()[h - m]);
            }
        }
        assert forall|h: int, t: int|
            0 <= h < total && 0 <= t < pws@[h].terms@.len() implies h < (#[trigger] pws@[h].terms@[t]).gen_index
                < total by {
            if h >= m {
                assert(pws@[h].terms@ == shift_terms(n.pw(h - m), m as nat));
                assert(pws@[h].terms@[t].gen_index == n.pw(h - m)[t].gen_index + m);
            }
        }
        assert forall|x: int, y: int, t: int|
            0 <= y < x < total && 0 <= t < cms@[x]@[y].terms@.len() implies y < (#[trigger] cms@[x]@[y].terms@[t]).gen_index
                < total by {
            if x >= m && y >= m {
                assert(cms@[x]@[y].terms@[t].gen_index == n.cm(x - m, y - m)[t].gen_index + m);
            } else if x >= m && action@.len() > 0 {
                let cw = cross@[y]@[x - m].terms@;
                assert(is_normal_terms(cw, n.ro()));
                assert(cms@[x]@[y].terms@[t].gen_index == cw[t].gen_index + m);
            }
        }
    }
    let pres = assemble(ro, &pws, &cms);
    proof {
        let qr = q.ro();
        let nr = n.ro();
        assert forall|h: int| 0 <= h < total implies is_normal_terms(#[trigger] pres.pw(h), pres.ro()) by {
            if h < m {
                lemma_normal_extend(q.pw(h), qr, nr);
            } else {
                lemma_normal_shift(n.pw(h - m), qr, nr);
            }
        }
        assert forall|x: int, y: int| 0 <= y < x < total implies is_normal_terms(#[trigger] pres.cm(x, y), pres.ro()) by {
            if x < m {
                lemma_normal_extend(q.cm(x, y), qr, nr);
            } else if y >= m {
                lemma_normal_shift(n.cm(x - m, y - m), qr, nr);
            } else if action@.len() > 0 {
                lemma_normal_shift(cross@[y]@[x - m].terms@, qr, nr);
            }
        }
        assert(pres.relations_normal());
        assert forall|h: int| 0 <= h < pres.n() implies #[trigger] pres.ro()[h] <= 0x8000_0000 by {
            if h < m {
                assert(pres.ro()[h] == qr[h]);
            } else {
                assert(pres.ro()[h] == nr[h - m]);
            }
        }
        assert forall|h: int, t: int| 0 <= h < pres.n() && 0 <= t < pres.pw(h).len() implies term_fits(
            #[trigger] pres.pw(h)[t],
            pres.ro(),
        ) by {
            assert(is_normal_terms(pres.pw(h), pres.ro()));
        }
        assert forall|x: int, y: int, t: int| 0 <= y < x < pres.n() && 0 <= t < pres.cm(x, y).len() implies term_fits(
            #[trigger] pres.cm(x, y)[t],
            pres.ro(),
        ) by {
            assert(is_normal_terms(pres.cm(x, y), pres.ro()));
        }
        assert(pres.collectable());
        if action@.len() > 0 {
            assert forall|x: int, y: int| 0 <= y < m <= x < total implies #[trigger] pres.cm(x, y)
                == shift_terms(cross_word(*n, acts[y], (x - m) as nat), m as nat) by {
                assert(cross@[y]@[x - m].terms@ == cross_word(*n, acts[y], (x - m) as nat));
            }
        }
        assert(is_split_extension(pres, *n, *q, acts));
    }
    match crate::consistency::verify_consistency(&pres) {
        Ok(()) => Ok(pres),
        Err(c) => Err(ExtensionError::Inconsistent(c)),
    }
}

/// Constructs the split extension (semidirect product) `N x| Q`.
///
/// `action[j]` lists the images `q_j n_i q_j^-1` of the generators of `N`, as any words of `N`;
/// an empty action gives the direct product. Each image is brought to normal form (see
/// [`tidy_word`]). The cross relation `[g_{m+i}, g_j]` is `n_i^-1 psi_j(n_i)` with `psi_j` the
/// inverse of the action of `q_j`, found by iterating it. The result is checked for consistency.
pub fn split_extension(n: &Presentation, q: &Presentation, action: &[Vec<Word>]) -> (res: Result<
    Presentation,
    ExtensionError,
>)
    requires
        n.collectable(),
        q.collectable(),
        n.relations_normal(),
        q.relations_normal(),
        order_fits(*n),
        (q.n() + n.n()) * (q.n() + n.n() - 1) <= usize::MAX,
        forall|j: int| 0 <= j < action@.len() ==> words_fit(*n, #[trigger] action_terms(action@)[j]),
    ensures
        action_violation(action_terms(action@), q.n(), n.n()) matches Some(e) ==> res == Err::<
            Presentation,
            ExtensionError,
        >(e),
        action_violation(action_terms(action@), q.n(), n.n()) is None && action@.len() > 0 ==> (missing_inverse(
            *n,
            tidy_action(*n, action_terms(action@)),
            n.n(),
        ) matches Some(i) ==> res == Err::<Presentation, ExtensionError>(
            ExtensionError::Inconsistent(ConsistencyError::PowerAndItself { i: i as usize }),
        )),
        action_violation(action_terms(action@), q.n(), n.n()) is None && (action@.len() == 0
            || missing_inverse(*n, tidy_action(*n, action_terms(action@)), n.n()) is None) ==> exists|p: Presentation|
            #[trigger] is_split_extension(p, *n, *q, tidy_action(*n, action_terms(action@))) && p.collectable()
                && p.relations_normal() && (res is Ok <==> crate::consistency::consistent(p)) && (res matches Ok(
                x,
            ) ==> x == p) && (res matches Err(e) ==> (e matches ExtensionError::Inconsistent(c)
                && crate::consistency::first_failure(p, c))),
        res matches Ok(p) ==> (action@.len() > 0 ==> forall|i: nat, j: int|
                #![trigger preimage(*n, tidy_action(*n, action_terms(action@))[j], i)]
                0 <= j < q.n() && i < n.n() ==> hom_image(*n, preimage(*n, tidy_action(*n, action_terms(action@))[j], i)->0, tidy_action(*n, action_terms(action@))[j]) == seq![Term { gen_index: i as usize, exponent: 1 }] && p.cm((q.n() + i) as int, j) == shift_terms(
                    normal_form(*n, inverse_terms(*n, seq![Term { gen_index: i as usize, exponent: 1 }]) + preimage(*n, tidy_action(*n, action_terms(action@))[j], i)->0),
                    q.n(),
                )),
{
    let ghost acts = action_terms(action@);
    let mut tidied: Vec<Vec<Word>> = Vec::new();
    let mut j: usize = 0;
    while j < action.len()
        invariant
            j <= action@.len(),
            acts == action_terms(action@),
            n.collectable(),
            forall|jj: int| 0 <= jj < action@.len() ==> words_fit(*n, #[trigger] acts[jj]),
            tidied@.len() == j,
            forall|jj: int| 0 <= jj < j ==> words_terms((#[trigger] tidied@[jj])@) == tidy_words(*n, acts[jj]),
        decreases action@.len() - j,
    {
        proof {
            assert(acts[j as int] =~= words_terms(action@[j as int]@));
        }
        let row = tidy_list(n, action[j].as_slice());
        tidied.push(row);
        j = j + 1;
    }
    proof {
        assert(action_terms(tidied@) =~= tidy_action(*n, acts)) by {
            assert forall|jj: int| 0 <= jj < tidied@.len() implies action_terms(tidied@)[jj] == tidy_action(*n, acts)[jj] by {
                assert(action_terms(tidied@)[jj] =~= words_terms(tidied@[jj]@));
            }
        }
        lemma_tidy_action(*n, acts, q.n());
    }
    let res = split_extension_normal(n, q, tidied.as_slice());
    proof {
        if res is Ok && action@.len() > 0 {
            assert(action_violation(acts, q.n(), n.n()) is None);
            lemma_split_cross_relations(*n, *q, tidy_action(*n, action_terms(action@)), res->Ok_0);
        }
    }
    res
}


/// The first error in the tails for the relations of `Q`: a wrong count, or a generator out of
/// range. No tails at all is accepted.
pub open spec fn tails_violation(tails: Seq<Seq<Term>>, expected: nat, k: nat) -> Option<ExtensionError> {
    if tails.len() == 0 {
        None
    } else if tails.len() != expected {
        Some(ExtensionError::DimensionMismatch { expected: expected as usize, actual: tails.len() as usize })
    } else {
        match first_oob_words(tails, k) {
            Some(x) => Some(oob_error(x, k)),
            None => None,
        }
    }
}

/// The first error of a central extension: a non-abelian kernel, then the power tails, then the
/// commutator tails.
pub open spec fn central_violation(n: Presentation, q: Presentation, pt: Seq<Seq<Term>>, ct: Seq<Seq<Term>>) -> Option<
    ExtensionError,
> {
    if !crate::series::commutators_trivial(
        n,
        crate::generating_sequence::generator_words(n),
        crate::generating_sequence::generator_words(n),
    ) {
        Some(ExtensionError::NonAbelianKernel)
    } else {
        match tails_violation(pt, q.n(), n.n()) {
            Some(e) => Some(e),
            None => tails_violation(ct, crate::presentation::spec_num_commutators(q.n()), n.n()),
        }
    }
}

/// The terms of a list of words.
pub open spec fn words_terms(ws: Seq<Word>) -> Seq<Seq<Term>> {
    ws.map_values(|w: Word| w.terms@)
}

/// `p` is the central extension of `n` by `q` with the tails: the relative orders of `q` and then
/// `n`, the relations of `q` followed by their shifted tails, the relations of `n` shifted by `m`,
/// and trivial cross relations.
pub open spec fn is_central_extension(
    p: Presentation,
    n: Presentation,
    q: Presentation,
    pt: Seq<Seq<Term>>,
    ct: Seq<Seq<Term>>,
) -> bool {
    let m = q.n();
    let total = q.n() + n.n();
    &&& p.ro() == q.ro() + n.ro()
    &&& forall|g: int| 0 <= g < m ==> #[trigger] p.pw(g) == q.pw(g) + if pt.len() == 0 {
        Seq::<Term>::empty()
    } else {
        shift_terms(pt[g], m)
    }
    &&& forall|g: int| m <= g < total ==> #[trigger] p.pw(g) == shift_terms(n.pw(g - m), m)
    &&& forall|a: int, b: int| 0 <= b < a < m ==> #[trigger] p.cm(a, b) == q.cm(a, b) + if ct.len() == 0 {
        Seq::<Term>::empty()
    } else {
        shift_terms(ct[crate::presentation::spec_commutator_index(a as nat, b as nat) as int], m)
    }
    &&& forall|a: int, b: int|
        m <= b < a < total ==> #[trigger] p.cm(a, b) == shift_terms(n.cm(a - m, b - m), m)
    &&& forall|a: int, b: int| 0 <= b < m <= a < total ==> #[trigger] p.cm(a, b).len() == 0
}

/// The concatenation of two words.
fn concat_words(a: &Word, b: &Word) -> (w: Word)
    ensures
        w.terms@ == a.terms@ + b.terms@,
{
    let mut terms = a.duplicate().terms;
    let mut i: usize = 0;
    while i < b.terms.len()
        invariant
            i <= b.terms@.len(),
            terms@ == a.terms@ + b.terms@.take(i as int),
        decreases b.terms@.len() - i,
    {
        terms.push(b.terms[i]);
        i = i + 1;
        assert(terms@ =~= a.terms@ + b.terms@.take(i as int));
    }
    assert(b.terms@.take(b.terms@.len() as int) =~= b.terms@);
    Word { terms }
}

/// Checks a list of tails against the expected count and the generators of `N`.
fn check_tails(tails: &[Word], expected: usize, k: usize) -> (r: Option<ExtensionError>)
    ensures
        r == tails_violation(words_terms(tails@), expected as nat, k as nat),
{
    if tails.len() == 0 {
        return None;
    }
    if tails.len() != expected {
        return Some(ExtensionError::DimensionMismatch { expected, actual: tails.len() });
    }
    match find_oob(tails, k) {
        Some(index) => {
            let max: usize = if k >= 1 {
                k - 1
            } else {
                0
            };
            Some(ExtensionError::GeneratorOutOfBounds { index, max })
        },
        None => None,
    }
}

/// A word of the first group followed by a shifted word of the second is normal.
proof fn lemma_normal_concat(a: Seq<Term>, b: Seq<Term>, ro_q: Seq<u32>, ro_n: Seq<u32>)
    requires
        is_normal_terms(a, ro_q),
        is_normal_terms(b, ro_n),
        ro_q.len() + ro_n.len() <= usize::MAX,
    ensures
        is_normal_terms(a + shift_terms(b, ro_q.len()), ro_q + ro_n),
{
    lemma_normal_extend(a, ro_q, ro_n);
    lemma_normal_shift(b, ro_q, ro_n);
    let sb = shift_terms(b, ro_q.len());
    let c = a + sb;
    assert forall|i: int, j: int| 0 <= i < j < c.len() implies c[i].gen_index < c[j].gen_index by {
        if j >= a.len() && i < a.len() {
            assert(c[j] == sb[j - a.len()]);
            assert(sb[j - a.len()].gen_index >= ro_q.len());
        } else if i >= a.len() {
            assert(c[i] == sb[i - a.len()]);
            assert(c[j] == sb[j - a.len()]);
        }
    }
    assert forall|i: int| 0 <= i < c.len() implies (#[trigger] c[i]).gen_index < (ro_q + ro_n).len() && 0
        < c[i].exponent < (ro_q + ro_n)[c[i].gen_index as int] by {
        if i >= a.len() {
            assert(c[i] == sb[i - a.len()]);
        } else {
            assert(c[i] == a[i]);
        }
    }
}

/// [`central_extension`] for tails that are, where they are valid, in normal form.
fn central_extension_normal(
    n: &Presentation,
    q: &Presentation,
    power_tails: &[Word],
    commutator_tails: &[Word],
) -> (res: Result<Presentation, ExtensionError>)
    requires
        n.collectable(),
        q.collectable(),
        n.relations_normal(),
        q.relations_normal(),
        (q.n() + n.n()) * (q.n() + n.n() - 1) <= usize::MAX,
        central_violation(*n, *q, words_terms(power_tails@), words_terms(commutator_tails@)) is None ==> (forall|
            j: int,
        | 0 <= j < power_tails@.len() ==> is_normal_terms(#[trigger] power_tails@[j].terms@, n.ro())) && (forall|
            j: int,
        | 0 <= j < commutator_tails@.len() ==> is_normal_terms(#[trigger] commutator_tails@[j].terms@, n.ro())),
    ensures
        central_violation(*n, *q, words_terms(power_tails@), words_terms(commutator_tails@)) matches Some(e) ==> res
            == Err::<Presentation, ExtensionError>(e),
        central_violation(*n, *q, words_terms(power_tails@), words_terms(commutator_tails@)) is None ==> exists|
            p: Presentation,
        |
            #[trigger] is_central_extension(p, *n, *q, words_terms(power_tails@), words_terms(commutator_tails@))
                && p.collectable() && p.relations_normal() && (res is Ok <==> crate::consistency::consistent(p))
                && (res matches Ok(x) ==> x == p) && (res matches Err(e) ==> (e matches ExtensionError::Inconsistent(
                c,
            ) && crate::consistency::first_failure(p, c))),
{
    let ghost pt = words_terms(power_tails@);
    let ghost ct = words_terms(commutator_tails@);
    if !crate::series::is_abelian(n) {
        return Err(ExtensionError::NonAbelianKernel);
    }
    let m = q.num_gens();
    let k = n.num_gens();
    proof {
        let t = q.n() + n.n();
        if t >= 2 {
            assert(t <= t * (t - 1)) by (nonlinear_arith)
                requires
                    t >= 2,
            ;
        }
        assert(q.n() * (if q.n() >= 1 { q.n() - 1 } else { 0int }) <= t * (t - 1)) by (nonlinear_arith)
            requires
                q.n() <= t,
        ;
    }
    let num_q_comms = Presentation::num_commutators(m);
    match check_tails(power_tails, m, k) {
        Some(e) => {
            return Err(e);
        },
        None => {},
    }
    match check_tails(commutator_tails, num_q_comms, k) {
        Some(e) => {
            return Err(e);
        },
        None => {},
    }
    let total = m + k;
    let mut ro: Vec<u32> = Vec::new();
    let mut pws: Vec<Word> = Vec::new();
    let mut g: usize = 0;
    while g < total
        invariant
            g <= total,
            total == m + k,
            m == q.n(),
            k == n.n(),
            ro@ == (q.ro() + n.ro()).take(g as int),
            pws@.len() == g,
            pt == words_terms(power_tails@),
            pt.len() == 0 || pt.len() == m,
            tails_violation(pt, m as nat, k as nat) is None,
            forall|j: int| 0 <= j < power_tails@.len() ==> is_normal_terms(#[trigger] power_tails@[j].terms@, n.ro()),
            forall|h: int| 0 <= h < g && h < m ==> #[trigger] pws@[h].terms@ == q.pw(h) + if pt.len() == 0 {
                Seq::<Term>::empty()
            } else {
                shift_terms(pt[h], m as nat)
            },
            forall|h: int| m <= h < g ==> #[trigger] pws@[h].terms@ == shift_terms(n.pw(h - m), m as nat),
            q.wf(),
            n.wf(),
            n.is_pc(),
        decreases total - g,
    {
        if g < m {
            ro.push(q.relative_order(g));
            if power_tails.len() > 0 {
                proof {
                    assert(pt[g as int] == power_tails@[g as int].terms@);
                    assert(is_normal_terms(pt[g as int], n.ro()));
                }
                let tail = shift_word(&power_tails[g], m);
                pws.push(concat_words(q.power(g), &tail));
            } else {
                let w = q.power(g).duplicate();
                assert(w.terms@ == q.pw(g as int) + Seq::<Term>::empty());
                pws.push(w);
            }
        } else {
            ro.push(n.relative_order(g - m));
            proof {
                assert forall|t: int| 0 <= t < n.pw((g - m) as int).len() implies (#[trigger] n.pw((g - m) as int)[t]).gen_index
                    + m <= usize::MAX by {}
            }
            pws.push(shift_word(n.power(g - m), m));
        }
        assert(ro@ =~= (q.ro() + n.ro()).take(g + 1));
        g = g + 1;
    }
    assert(ro@ =~= q.ro() + n.ro());
    let mut cms: Vec<Vec<Word>> = Vec::new();
    let mut a: usize = 0;
    while a < total
        invariant
            a <= total,
            total == m + k,
            m == q.n(),
            k == n.n(),
            m * (if m >= 1 { m - 1 } else { 0int }) <= usize::MAX,
            num_q_comms == crate::presentation::spec_num_commutators(m as nat),
            q.wf(),
            n.wf(),
            n.is_pc(),
            ct == words_terms(commutator_tails@),
            ct.len() == 0 || ct.len() == num_q_comms,
            forall|j: int| 0 <= j < commutator_tails@.len() ==> is_normal_terms(#[trigger] commutator_tails@[j].terms@, n.ro()),
            cms@.len() == a,
            forall|x: int| 0 <= x < a ==> (#[trigger] cms@[x])@.len() == x,
            forall|x: int, y: int| 0 <= y < x < a ==> #[trigger] cms@[x]@[y].terms@ == if x < m {
                q.cm(x, y) + if ct.len() == 0 {
                    Seq::<Term>::empty()
                } else {
                    shift_terms(ct[crate::presentation::spec_commutator_index(x as nat, y as nat) as int], m as nat)
                }
            } else if y >= m {
                shift_terms(n.cm(x - m, y - m), m as nat)
            } else {
                Seq::<Term>::empty()
            },
        decreases total - a,
    {
        let mut row: Vec<Word> = Vec::new();
        let mut b: usize = 0;
        while b < a
            invariant
                b <= a < total,
                total == m + k,
                m == q.n(),
                k == n.n(),
                m * (if m >= 1 { m - 1 } else { 0int }) <= usize::MAX,
                num_q_comms == crate::presentation::spec_num_commutators(m as nat),
                q.wf(),
                n.wf(),
                n.is_pc(),
                ct == words_terms(commutator_tails@),
                ct.len() == 0 || ct.len() == num_q_comms,
                forall|j: int| 0 <= j < commutator_tails@.len() ==> is_normal_terms(#[trigger] commutator_tails@[j].terms@, n.ro()),
                row@.len() == b,
                forall|y: int| 0 <= y < b ==> #[trigger] row@[y].terms@ == if a < m {
                    q.cm(a as int, y) + if ct.len() == 0 {
                        Seq::<Term>::empty()
                    } else {
                        shift_terms(ct[crate::presentation::spec_commutator_index(a as nat, y as nat) as int], m as nat)
                    }
                } else if y >= m {
                    shift_terms(n.cm(a - m, y - m), m as nat)
                } else {
                    Seq::<Term>::empty()
                },
            decreases a - b,
        {
            if a < m {
                if commutator_tails.len() > 0 {
                    proof {
                        crate::presentation::lemma_commutator_index_bounds(a as nat, b as nat, m as nat);
                        assert(a * (a - 1) <= m * (m - 1)) by (nonlinear_arith)
                            requires
                                a < m,
                        ;
                    }
                    let idx = Presentation::commutator_index(a, b);
                    proof {
                        assert(ct[idx as int] == commutator_tails@[idx as int].terms@);
                        assert(is_normal_terms(ct[idx as int], n.ro()));
                    }
                    let tail = shift_word(&commutator_tails[idx], m);
                    row.push(concat_words(q.commutator(a, b), &tail));
                } else {
                    let w = q.commutator(a, b).duplicate();
                    assert(w.terms@ == q.cm(a as int, b as int) + Seq::<Term>::empty());
                    row.push(w);
                }
            } else if b >= m {
                proof {
                    assert forall|t: int| 0 <= t < n.cm((a - m) as int, (b - m) as int).len() implies (#[trigger] n.cm(
                        (a - m) as int,
                        (b - m) as int,
                    )[t]).gen_index + m <= usize::MAX by {}
                }
                row.push(shift_word(n.commutator(a - m, b - m), m));
            } else {
                row.push(Word::identity());
            }
            b = b + 1;
        }
        cms.push(row);
        proof {
            assert forall|x: int| 0 <= x < a + 1 implies (#[trigger] cms@[x])@.len() == x by {}
        }
        a = a + 1;
    }
    let ghost rov = ro@;
    proof {
        assert forall|h: int| 0 <= h < total implies crate::util::ntheory::spec_is_prime(#[trigger] rov[h] as int) by {
            if h < m {
                assert(rov[h] == q.ro()[h]);
            } else {
                assert(rov[h] == n.ro()[h - m]);
            }
        }
        assert forall|h: int, t: int|
            0 <= h < total && 0 <= t < pws@[h].terms@.len() implies h < (#[trigger] pws@[h].terms@[t]).gen_index
                < total by {
            if h >= m {
                assert(pws@[h].terms@[t].gen_index == n.pw(h - m)[t].gen_index + m);
            } else if pt.len() > 0 && t >= q.pw(h).len() {
                let tl = pt[h];
                assert(is_normal_terms(tl, n.ro()));
                assert(pws@[h].terms@[t] == shift_terms(tl, m as nat)[t - q.pw(h).len()]);
            } else {
                assert(pws@[h].terms@[t] == q.pw(h)[t]);
            }
        }
        assert forall|x: int, y: int, t: int|
            0 <= y < x < total && 0 <= t < cms@[x]@[y].terms@.len() implies y < (#[trigger] cms@[x]@[y].terms@[t]).gen_index
                < total by {
            if x >= m && y >= m {
                assert(cms@[x]@[y].terms@[t].gen_index == n.cm(x - m, y - m)[t].gen_index + m);
            } else if x < m {
                if ct.len() > 0 && t >= q.cm(x, y).len() {
                    crate::presentation::lemma_commutator_index_bounds(x as nat, y as nat, m as nat);
                    let tl = ct[crate::presentation::spec_commutator_index(x as nat, y as nat) as int];
                    assert(is_normal_terms(tl, n.ro()));
                    assert(cms@[x]@[y].terms@[t] == shift_terms(tl, m as nat)[t - q.cm(x, y).len()]);
                } else {
                    assert(cms@[x]@[y].terms@[t] == q.cm(x, y)[t]);
                }
            }
        }
    }
    let pres = assemble(ro, &pws, &cms);
    proof {
        let qr = q.ro();
        let nr = n.ro();
        assert forall|h: int| 0 <= h < total implies is_normal_terms(#[trigger] pres.pw(h), pres.ro()) by {
            if h < m {
                if pt.len() > 0 {
                    lemma_normal_concat(q.pw(h), pt[h], qr, nr);
                } else {
                    assert(q.pw(h) + Seq::<Term>::empty() == q.pw(h));
                    lemma_normal_extend(q.pw(h), qr, nr);
                }
            } else {
                lemma_normal_shift(n.pw(h - m), qr, nr);
            }
        }
        assert forall|x: int, y: int| 0 <= y < x < total implies is_normal_terms(#[trigger] pres.cm(x, y), pres.ro()) by {
            if x < m {
                if ct.len() > 0 {
                    crate::presentation::lemma_commutator_index_bounds(x as nat, y as nat, m as nat);
                    lemma_normal_concat(
                        q.cm(x, y),
                        ct[crate::presentation::spec_commutator_index(x as nat, y as nat) as int],
                        qr,
                        nr,
                    );
                } else {
                    assert(q.cm(x, y) + Seq::<Term>::empty() == q.cm(x, y));
                    lemma_normal_extend(q.cm(x, y), qr, nr);
                }
            } else if y >= m {
                lemma_normal_shift(n.cm(x - m, y - m), qr, nr);
            }
        }
        assert(pres.relations_normal());
        assert forall|h: int| 0 <= h < pres.n() implies #[trigger] pres.ro()[h] <= 0x8000_0000 by {
            if h < m {
                assert(pres.ro()[h] == qr[h]);
            } else {
                assert(pres.ro()[h] == nr[h - m]);
            }
        }
        assert forall|h: int, t: int| 0 <= h < pres.n() && 0 <= t < pres.pw(h).len() implies term_fits(
            #[trigger] pres.pw(h)[t],
            pres.ro(),
        ) by {
            assert(is_normal_terms(pres.pw(h), pres.ro()));
        }
        assert forall|x: int, y: int, t: int| 0 <= y < x < pres.n() && 0 <= t < pres.cm(x, y).len() implies term_fits(
            #[trigger] pres.cm(x, y)[t],
            pres.ro(),
        ) by {
            assert(is_normal_terms(pres.cm(x, y), pres.ro()));
        }
        assert(pres.collectable());
        assert(is_central_extension(pres, *n, *q, pt, ct));
    }
    match crate::consistency::verify_consistency(&pres) {
        Ok(()) => Ok(pres),
        Err(c) => Err(ExtensionError::Inconsistent(c)),
    }
}

/// Constructs the central extension of the abelian group `N` by `Q`.
///
/// The generators of `N` commute with those of `Q`; the power and commutator relations of `Q`
/// are extended by the given tails in `N` (shifted to the generators of `N` in the extension). An
/// empty list of tails leaves the relations unchanged. The tails may be any words of `N`; each is
/// brought to normal form (see [`tidy_word`]). The result is checked for consistency.
pub fn central_extension(
    n: &Presentation,
    q: &Presentation,
    power_tails: &[Word],
    commutator_tails: &[Word],
) -> (res: Result<Presentation, ExtensionError>)
    requires
        n.collectable(),
        q.collectable(),
        n.relations_normal(),
        q.relations_normal(),
        (q.n() + n.n()) * (q.n() + n.n() - 1) <= usize::MAX,
        words_fit(*n, words_terms(power_tails@)),
        words_fit(*n, words_terms(commutator_tails@)),
    ensures
        central_violation(*n, *q, words_terms(power_tails@), words_terms(commutator_tails@)) matches Some(e) ==> res
            == Err::<Presentation, ExtensionError>(e),
        central_violation(*n, *q, words_terms(power_tails@), words_terms(commutator_tails@)) is None ==> exists|
            p: Presentation,
        |
            #[trigger] is_central_extension(
                p,
                *n,
                *q,
                tidy_words(*n, words_terms(power_tails@)),
                tidy_words(*n, words_terms(commutator_tails@)),
            ) && p.collectable() && p.relations_normal() && (res is Ok <==> crate::consistency::consistent(p))
                && (res matches Ok(x) ==> x == p) && (res matches Err(e) ==> (e matches ExtensionError::Inconsistent(
                c,
            ) && crate::consistency::first_failure(p, c))),
{
    let pt = tidy_list(n, power_tails);
    let ct = tidy_list(n, commutator_tails);
    proof {
        lemma_tidy_words_oob(*n, words_terms(power_tails@));
        lemma_tidy_words_oob(*n, words_terms(commutator_tails@));
        let tp = words_terms(pt@);
        let tc = words_terms(ct@);
        assert(central_violation(*n, *q, tp, tc) == central_violation(
            *n,
            *q,
            words_terms(power_tails@),
            words_terms(commutator_tails@),
        ));
        if central_violation(*n, *q, tp, tc) is None {
            assert forall|j: int| 0 <= j < pt@.len() implies is_normal_terms(#[trigger] pt@[j].terms@, n.ro()) by {
                assert(tp[j] == pt@[j].terms@);
            }
            assert forall|j: int| 0 <= j < ct@.len() implies is_normal_terms(#[trigger] ct@[j].terms@, n.ro()) by {
                assert(tc[j] == ct@[j].terms@);
            }
        }
    }
    central_extension_normal(n, q, pt.as_slice(), ct.as_slice())
}

} // verus!
