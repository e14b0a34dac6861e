//! Subgroup series and structural property checks for polycyclic groups: commutator subgroups,
//! the lower central series, abelianity and nilpotency.
use vstd::prelude::*;

use crate::collection::term_fits;
use crate::element::{inverse_terms, normal_form, power_terms, Element};
use crate::generating_sequence::{
    closed, echelon, find_lead, generator_words, lemma_word_in_range, normal_closed, reduce_all, reduced, sift_terms, GeneratingSequence,
};
use crate::presentation::Presentation;
use crate::span::{all_in_span, in_span, lemma_span_base, lemma_span_insert, lemma_span_sub};
use crate::util::linalg::modular_matrix::{acts_on, composition_series, is_increasing_chain, ModularMatrix};
use crate::util::ntheory::spec_is_prime;
use crate::word::{is_normal_terms, Term};

verus! {

/// The commutator `[h, k] = h^-1 k^-1 h k` as computed here: `((h^-1 k^-1) h) k`.
pub open spec fn group_comm_terms(pres: Presentation, h: Seq<Term>, k: Seq<Term>) -> Seq<Term> {
    normal_form(
        pres,
        normal_form(pres, normal_form(pres, inverse_terms(pres, h) + inverse_terms(pres, k)) + h) + k,
    )
}

/// Every commutator of a word of `hs` with a word of `ks` is the identity.
pub open spec fn commutators_trivial(pres: Presentation, hs: Seq<Seq<Term>>, ks: Seq<Seq<Term>>) -> bool {
    forall|a: int, b: int|
        0 <= a < hs.len() && 0 <= b < ks.len() ==> #[trigger] group_comm_terms(pres, hs[a], ks[b]).len()
            == 0
}

/// The words of the given elements.
pub open spec fn element_words<'a>(es: Seq<Element<'a>>) -> Seq<Seq<Term>> {
    es.map_values(|e: Element<'a>| e.word.terms@)
}

/// The elements belong to the presentation and are in normal form.
pub open spec fn elements_in<'a>(pres: Presentation, es: Seq<Element<'a>>) -> bool {
    forall|i: int|
        0 <= i < es.len() ==> (#[trigger] es[i]).pres == pres && is_normal_terms(es[i].word.terms@, pres.ro())
}

/// `next` is a possible commutator subgroup of `prev` and `other` closed under conjugation by
/// `gs`: the canonical form of words in echelon form closed under powers, commutators and
/// conjugation by `gs` through which every commutator of a word of `prev` with a word of
/// `other` sifts to the identity, whose words all lie in the subgroup generated by those
/// commutators and their conjugates by `gs`, trivial exactly when every commutator of a word of `prev` with a word
/// of `other` is the identity.
#[verifier::opaque]
pub open spec fn commutator_step(
    pres: Presentation,
    prev: Seq<Seq<Term>>,
    other: Seq<Seq<Term>>,
    gs: Seq<Seq<Term>>,
    next: Seq<Seq<Term>>,
) -> bool {
    &&& reduced(next)
    &&& exists|c: Seq<Seq<Term>>|
        #![trigger reduce_all(pres, c, 0, c.len())]
        {
            &&& echelon(pres, c)
            &&& closed(pres, c)
            &&& normal_closed(pres, c, gs)
            &&& forall|a: int, b: int|
                0 <= a < prev.len() && 0 <= b < other.len() ==> #[trigger] sift_terms(pres, c, group_comm_terms(pres, prev[a], other[b])).len() == 0
            &&& next == reduce_all(pres, c, 0, c.len())
        }
    &&& all_in_span(pres, commutator_set(pres, prev, other), gs, next)
    &&& (next.len() == 0 <==> commutators_trivial(pres, prev, other))
}

/// The commutators `[h, k]` of a word `h` of `hs` with a word `k` of `ks`.
pub open spec fn commutator_set(pres: Presentation, hs: Seq<Seq<Term>>, ks: Seq<Seq<Term>>) -> Set<Seq<Term>> {
    Set::new(|w: Seq<Term>| exists|a: int, b: int| 0 <= a < hs.len() && 0 <= b < ks.len() && w == #[trigger] group_comm_terms(pres, hs[a], ks[b]))
}

/// Computes the commutator subgroup `[h_group, k_group]` closed under conjugation by
/// `group_gens`: the commutators `[h, k]` of the generators are inserted, then the normal closure
/// is taken.
///
/// The result is trivial exactly when all these commutators are the identity.
#[verifier::spinoff_prover]
#[verifier::rlimit(60)]
pub fn commutator_subgroup<'a>(
    h_group: &GeneratingSequence<'a>,
    k_group: &GeneratingSequence<'a>,
    group_gens: &[Element<'a>],
) -> (c: GeneratingSequence<'a>)
    requires
        h_group.wf(),
        k_group.wf(),
        k_group.pres_view() == h_group.pres_view(),
        elements_in(h_group.pres_view(), group_gens@),
    ensures
        c.wf(),
        c.pres_view() == h_group.pres_view(),
        commutator_step(
            h_group.pres_view(),
            h_group.words(),
            k_group.words(),
            element_words(group_gens@),
            c.words(),
        ),
{
    let ghost pv = h_group.pres_view();
    let ghost hs = h_group.words();
    let ghost ks = k_group.words();
    proof {
        h_group.lemma_wf();
        k_group.lemma_wf();
    }
    let mut c = GeneratingSequence::empty(h_group.presentation());
    let mut comms: Vec<Element<'a>> = Vec::new();
    let hes = h_group.elements();
    let kes = k_group.elements();
    let mut a: usize = 0;
    while a < hes.len()
        invariant
            a <= hes@.len(),
            element_words(hes@) == hs,
            element_words(kes@) == ks,
            forall|i: int| 0 <= i < hes@.len() ==> (#[trigger] hes@[i]).pres == pv,
            forall|i: int| 0 <= i < kes@.len() ==> (#[trigger] kes@[i]).pres == pv,
            h_group.wf(),
            k_group.wf(),
            hs == h_group.words(),
            ks == k_group.words(),
            pv == h_group.pres_view(),
            pv == k_group.pres_view(),
            pv.collectable(),
            c.wf(),
            c.pres_view() == pv,
            c.words().len() == 0 <==> forall|x: int, y: int|
                0 <= x < a && 0 <= y < ks.len() ==> #[trigger] group_comm_terms(pv, hs[x], ks[y]).len() == 0,
            elements_in(pv, comms@),
            c.words().len() == 0 ==> forall|i: int| 0 <= i < comms@.len() ==> (#[trigger] comms@[i]).word.terms@.len() == 0,
            all_in_span(pv, commutator_set(pv, hs, ks), element_words(group_gens@), c.words()),
            forall|i: int| 0 <= i < comms@.len() ==> commutator_set(pv, hs, ks).contains(#[trigger] comms@[i].word.terms@),
            forall|x: int, y: int|
                #![trigger group_comm_terms(pv, hs[x], ks[y])]
                0 <= x < a && 0 <= y < ks.len() ==> exists|i: int| 0 <= i < comms@.len() && (#[trigger] comms@[i]).word.terms@ == group_comm_terms(pv, hs[x], ks[y]),
        decreases hes@.len() - a,
    {
        let h = &hes[a];
        proof {
            assert(hs[a as int] == h.word.terms@);
            h_group.lemma_wf();
            lemma_word_in_range(pv, hs, a as int);
        }
        let h_inv = h.inverse();
        let mut b: usize = 0;
        while b < kes.len()
            invariant
                b <= kes@.len(),
                a < hes@.len(),
                element_words(hes@) == hs,
                element_words(kes@) == ks,
                forall|i: int| 0 <= i < kes@.len() ==> (#[trigger] kes@[i]).pres == pv,
                h_group.wf(),
                k_group.wf(),
                hs == h_group.words(),
                ks == k_group.words(),
                pv == h_group.pres_view(),
                pv == k_group.pres_view(),
                pv.collectable(),
                is_normal_terms(hs[a as int], pv.ro()),
                h.word.terms@ == hs[a as int],
                h.pres == pv,
                h_inv.pres == pv,
                h_inv.valid(),
                h_inv.word.terms@ == inverse_terms(pv, hs[a as int]),
                c.wf(),
                c.pres_view() == pv,
                c.words().len() == 0 <==> (forall|x: int, y: int|
                    0 <= x < a && 0 <= y < ks.len() ==> #[trigger] group_comm_terms(pv, hs[x], ks[y]).len()
                        == 0) && (forall|y: int|
                    0 <= y < b ==> #[trigger] group_comm_terms(pv, hs[a as int], ks[y]).len() == 0),
                elements_in(pv, comms@),
                c.words().len() == 0 ==> forall|i: int| 0 <= i < comms@.len() ==> (#[trigger] comms@[i]).word.terms@.len() == 0,
                all_in_span(pv, commutator_set(pv, hs, ks), element_words(group_gens@), c.words()),
                forall|i: int| 0 <= i < comms@.len() ==> commutator_set(pv, hs, ks).contains(#[trigger] comms@[i].word.terms@),
                forall|x: int, y: int|
                    #![trigger group_comm_terms(pv, hs[x], ks[y])]
                    0 <= x < a && 0 <= y < ks.len() ==> exists|i: int| 0 <= i < comms@.len() && (#[trigger] comms@[i]).word.terms@ == group_comm_terms(pv, hs[x], ks[y]),
                forall|y: int|
                    #![trigger group_comm_terms(pv, hs[a as int], ks[y])]
                    0 <= y < b ==> exists|i: int| 0 <= i < comms@.len() && (#[trigger] comms@[i]).word.terms@ == group_comm_terms(pv, hs[a as int], ks[y]),
            decreases kes@.len() - b,
        {
            let k = &kes[b];
            proof {
                assert(ks[b as int] == k.word.terms@);
                k_group.lemma_wf();
                lemma_word_in_range(pv, ks, b as int);
                assert(is_normal_terms(h.word.terms@, pv.ro()));
            }
            let k_inv = k.inverse();
            let comm = h_inv.product(&k_inv).product(h).product(k);
            let ghost before = c.words();
            let ghost before_comms = comms@;
            proof {
                let w = group_comm_terms(pv, hs[a as int], ks[b as int]);
                assert(commutator_set(pv, hs, ks).contains(w));
                lemma_span_base(pv, commutator_set(pv, hs, ks), element_words(group_gens@), comm.word.terms@);
            }
            comms.push(comm.duplicate());
            let ghost cw = comm.word.terms@;
            let grew = c.insert(comm);
            proof {
                lemma_span_insert(pv, commutator_set(pv, hs, ks), element_words(group_gens@), before, cw, c.words(), grew);
                assert forall|i: int| 0 <= i < comms@.len() implies commutator_set(pv, hs, ks).contains(#[trigger] comms@[i].word.terms@) by {
                    if i < before_comms.len() {
                        assert(comms@[i] == before_comms[i]);
                    }
                }
            }
            proof {
                let w = group_comm_terms(pv, hs[a as int], ks[b as int]);
                assert(comm.word.terms@ == w);
                if before.len() == 0 {
                    lemma_sift_empty(pv, before, w);
                }
                assert(c.words().len() == 0 <==> (before.len() == 0 && w.len() == 0));
                let last = before_comms.len() as int;
                assert(comms@[last].word.terms@ == w);
                assert forall|i: int| 0 <= i < comms@.len() implies (#[trigger] comms@[i]).pres == pv && is_normal_terms(
                    comms@[i].word.terms@,
                    pv.ro(),
                ) by {
                    if i < last {
                        assert(comms@[i] == before_comms[i]);
                    }
                }
                assert(c.words().len() == 0 ==> forall|i: int| 0 <= i < comms@.len() ==> (#[trigger] comms@[i]).word.terms@.len() == 0) by {
                    if c.words().len() == 0 {
                        assert forall|i: int| 0 <= i < comms@.len() implies (#[trigger] comms@[i]).word.terms@.len() == 0 by {
                            if i < last {
                                assert(comms@[i] == before_comms[i]);
                            }
                        }
                    }
                }
                assert forall|x: int, y: int|
                    #![trigger group_comm_terms(pv, hs[x], ks[y])]
                    0 <= x < a && 0 <= y < ks.len() implies exists|i: int| 0 <= i < comms@.len() && (#[trigger] comms@[i]).word.terms@ == group_comm_terms(pv, hs[x], ks[y]) by {
                    let i0 = choose|i: int| 0 <= i < before_comms.len() && (#[trigger] before_comms[i]).word.terms@ == group_comm_terms(pv, hs[x], ks[y]);
                    assert(comms@[i0] == before_comms[i0]);
                }
                assert forall|y: int|
                    #![trigger group_comm_terms(pv, hs[a as int], ks[y])]
                    0 <= y < b + 1 implies exists|i: int| 0 <= i < comms@.len() && (#[trigger] comms@[i]).word.terms@ == group_comm_terms(pv, hs[a as int], ks[y]) by {
                    if y < b {
                        let i0 = choose|i: int| 0 <= i < before_comms.len() && (#[trigger] before_comms[i]).word.terms@ == group_comm_terms(pv, hs[a as int], ks[y]);
                        assert(comms@[i0] == before_comms[i0]);
                    } else {
                        assert(comms@[last].word.terms@ == group_comm_terms(pv, hs[a as int], ks[y]));
                    }
                }
            }
            b = b + 1;
        }
        a = a + 1;
    }
    proof {
        assert(element_words(group_gens@) == group_gens@.map_values(|e: Element<'a>| e.word.terms@));
    }
    let ghost cwords = c.words();
    let r = GeneratingSequence::normal_closure_with(c, &comms, group_gens);
    proof {
        reveal(commutator_step);
        let cs = commutator_set(pv, hs, ks);
        let gsw = element_words(group_gens@);
        assert(group_gens@.map_values(|e: Element<'a>| e.word.terms@) == gsw);
        let g1 = cwords.to_set() + comms@.map_values(|e: Element<'a>| e.word.terms@).to_set();
        assert forall|x: Seq<Term>| #[trigger] g1.contains(x) implies in_span(pv, cs, gsw, x) by {
            if cwords.to_set().contains(x) {
                let i = choose|i: int| 0 <= i < cwords.len() && #[trigger] cwords[i] == x;
                assert(in_span(pv, cs, gsw, cwords[i]));
            } else {
                let cm = comms@.map_values(|e: Element<'a>| e.word.terms@);
                assert(cm.to_set().contains(x));
                let i = choose|i: int| 0 <= i < cm.len() && #[trigger] cm[i] == x;
                assert(cm[i] == comms@[i].word.terms@);
                assert(cs.contains(comms@[i].word.terms@));
                lemma_span_base(pv, cs, gsw, x);
            }
        }
        assert forall|a: int| 0 <= a < r.words().len() implies #[trigger] in_span(pv, cs, gsw, r.words()[a]) by {
            lemma_span_sub(pv, g1, cs, gsw, r.words()[a]);
        }
        let gs = group_gens@.map_values(|e: Element<'a>| e.word.terms@);
        let cc = choose|cc: Seq<Seq<Term>>|
            #![trigger reduce_all(pv, cc, 0, cc.len())]
            {
                &&& echelon(pv, cc)
                &&& closed(pv, cc)
                &&& normal_closed(pv, cc, gs)
                &&& forall|i: int| 0 <= i < comms@.len() ==> #[trigger] sift_terms(pv, cc, comms@[i].word.terms@).len() == 0
                &&& r.words() == reduce_all(pv, cc, 0, cc.len())
            };
        assert forall|x: int, y: int|
            0 <= x < hs.len() && 0 <= y < ks.len() implies #[trigger] sift_terms(pv, cc, group_comm_terms(pv, hs[x], ks[y])).len() == 0 by {
            let i0 = choose|i: int| 0 <= i < comms@.len() && (#[trigger] comms@[i]).word.terms@ == group_comm_terms(pv, hs[x], ks[y]);
            assert(sift_terms(pv, cc, comms@[i0].word.terms@).len() == 0);
        }
    }
    r
}

/// The elements of a well-formed generating sequence belong to its presentation and are in
/// normal form.
pub proof fn lemma_elements_in<'a>(s: GeneratingSequence<'a>, es: Seq<Element<'a>>)
    requires
        s.wf(),
        element_words(es) == s.words(),
        forall|i: int| 0 <= i < es.len() ==> (#[trigger] es[i]).pres == s.pres_view(),
    ensures
        elements_in(s.pres_view(), es),
{
    s.lemma_wf();
    assert forall|i: int| 0 <= i < es.len() implies is_normal_terms(
        (#[trigger] es[i]).word.terms@,
        s.pres_view().ro(),
    ) by {
        assert(element_words(es)[i] == es[i].word.terms@);
        lemma_word_in_range(s.pres_view(), s.words(), i);
    }
}

/// Returns `true` if the subgroup is abelian: its commutator subgroup `[H, H]`, closed under
/// `group_gens`, is trivial.
pub fn is_abelian_subgroup<'a>(group: &GeneratingSequence<'a>, group_gens: &[Element<'a>]) -> (b: bool)
    requires
        group.wf(),
        elements_in(group.pres_view(), group_gens@),
    ensures
        b == commutators_trivial(group.pres_view(), group.words(), group.words()),
{
    let c = commutator_subgroup(group, group, group_gens);
    proof {
        reveal(commutator_step);
    }
    c.is_trivial()
}

/// Returns `true` if the group of the presentation is abelian.
pub fn is_abelian(pres: &Presentation) -> (b: bool)
    requires
        pres.collectable(),
    ensures
        b == commutators_trivial(*pres, generator_words(*pres), generator_words(*pres)),
{
    let full = GeneratingSequence::full_group(pres);
    let gens = full.elements();
    proof {
        lemma_elements_in(full, gens@);
    }
    is_abelian_subgroup(&full, gens)
}

/// `ser` is a descending series that starts at `group` and steps by taking commutators with
/// `group` closed under conjugation by `gs`: every step changes the subgroup and stays inside
/// the previous term, only the last term may be trivial, and the series ends at the trivial
/// group, at a subgroup that the step leaves unchanged, after `pres.n() + 1` terms, or where the
/// step would leave the last term.
pub open spec fn lower_central_shape(
    pres: Presentation,
    group: Seq<Seq<Term>>,
    gs: Seq<Seq<Term>>,
    ser: Seq<Seq<Seq<Term>>>,
) -> bool {
    &&& ser.len() >= 1
    &&& ser[0] == group
    &&& forall|i: int|
        0 < i < ser.len() ==> commutator_step(pres, ser[i - 1], group, gs, #[trigger] ser[i]) && ser[i]
            != ser[i - 1]
    &&& forall|i: int| 0 <= i < ser.len() - 1 ==> (#[trigger] ser[i]).len() > 0
    &&& forall|i: int| 0 < i < ser.len() ==> nested_in(pres, #[trigger] ser[i], ser[i - 1])
    &&& ser.last().len() == 0 || commutator_step(pres, ser.last(), group, gs, ser.last()) || ser.len()
        > pres.n() || exists|next: Seq<Seq<Term>>|
        #[trigger] commutator_step(pres, ser.last(), group, gs, next) && !nested_in(pres, next, ser.last())
}

/// Every word of `inner` sifts to the identity through `outer`.
pub open spec fn nested_in(pres: Presentation, inner: Seq<Seq<Term>>, outer: Seq<Seq<Term>>) -> bool {
    forall|a: int| 0 <= a < inner.len() ==> #[trigger] sift_terms(pres, outer, inner[a]).len() == 0
}


/// The words of each subgroup of a series.
pub open spec fn series_words<'a>(ser: Seq<GeneratingSequence<'a>>) -> Seq<Seq<Seq<Term>>> {
    ser.map_values(|x: GeneratingSequence<'a>| x.words())
}

/// Computes the lower central series `gamma_1 = group`, `gamma_{i+1} = [gamma_i, group]` (closed
/// under `group_gens`), stopping when a term is trivial or the step leaves it unchanged.
pub fn lower_central_series<'a>(group: &GeneratingSequence<'a>, group_gens: &[Element<'a>]) -> (ser: Vec<
    GeneratingSequence<'a>,
>)
    requires
        group.wf(),
        elements_in(group.pres_view(), group_gens@),
    ensures
        forall|i: int|
            0 <= i < ser@.len() ==> (#[trigger] ser@[i]).wf() && ser@[i].pres_view() == group.pres_view(),
        lower_central_shape(
            group.pres_view(),
            group.words(),
            element_words(group_gens@),
            series_words(ser@),
        ),
{
    let ghost pv = group.pres_view();
    let ghost gw = group.words();
    let ghost gs = element_words(group_gens@);
    let n = group.presentation().num_gens();
    let mut ser: Vec<GeneratingSequence<'a>> = Vec::new();
    ser.push(group.duplicate());
    let mut steps: usize = 0;
    let ghost mut sw: Seq<Seq<Seq<Term>>> = seq![gw];
    proof {
        assert(series_words(ser@) =~= sw);
    }
    loop
        invariant_except_break
            ser@.len() == steps + 1,
        invariant
            group.wf(),
            elements_in(pv, group_gens@),
            pv == group.pres_view(),
            gw == group.words(),
            gs == element_words(group_gens@),
            n == pv.n(),
            steps <= n,
            sw == series_words(ser@),
            forall|i: int| 0 <= i < ser@.len() ==> (#[trigger] ser@[i]).wf() && ser@[i].pres_view() == pv,
            sw.len() >= 1,
            sw[0] == gw,
            forall|i: int|
                0 < i < sw.len() ==> commutator_step(pv, sw[i - 1], gw, gs, #[trigger] sw[i]) && sw[i]
                    != sw[i - 1],
            forall|i: int| 0 <= i < sw.len() - 1 ==> (#[trigger] sw[i]).len() > 0,
            forall|i: int| 0 < i < sw.len() ==> nested_in(pv, #[trigger] sw[i], sw[i - 1]),
        ensures
            lower_central_shape(pv, gw, gs, sw),
            sw == series_words(ser@),
            forall|i: int| 0 <= i < ser@.len() ==> (#[trigger] ser@[i]).wf() && ser@[i].pres_view() == pv,
        decreases n - steps,
    {
        let last = ser.len() - 1;
        proof {
            assert(sw[last as int] == ser@[last as int].words());
        }
        if ser[last].is_trivial() {
            break;
        }
        if steps >= n {
            break;
        }
        let next = commutator_subgroup(&ser[last], group, group_gens);
        if next == ser[last] {
            break;
        }
        if !is_nested_in(&next, &ser[last]) {
            proof {
                assert(commutator_step(pv, sw.last(), gw, gs, next.words()) && !nested_in(pv, next.words(), sw.last()));
            }
            break;
        }
        let is_triv = next.is_trivial();
        let ghost before = ser@;
        ser.push(next);
        steps = steps + 1;
        proof {
            sw = sw.push(next.words());
            assert(series_words(ser@) =~= sw) by {
                assert forall|i: int| 0 <= i < ser@.len() implies #[trigger] series_words(ser@)[i]
                    == sw[i] by {
                    if i < before.len() {
                        assert(ser@[i] == before[i]);
                    }
                }
            }
        }
        if is_triv {
            break;
        }
    }
    ser
}

/// Returns `true` if every member of `inner` sifts to the identity through `outer`.
fn is_nested_in<'a>(inner: &GeneratingSequence<'a>, outer: &GeneratingSequence<'a>) -> (b: bool)
    requires
        inner.wf(),
        outer.wf(),
        inner.pres_view() == outer.pres_view(),
    ensures
        b == nested_in(outer.pres_view(), inner.words(), outer.words()),
{
    let es = inner.elements();
    proof {
        lemma_elements_in(*inner, es@);
    }
    let mut a: usize = 0;
    while a < es.len()
        invariant
            a <= es@.len(),
            element_words(es@) == inner.words(),
            elements_in(outer.pres_view(), es@),
            outer.wf(),
            forall|k: int| 0 <= k < a ==> #[trigger] sift_terms(outer.pres_view(), outer.words(), inner.words()[k]).len() == 0,
        decreases es@.len() - a,
    {
        proof {
            assert(element_words(es@)[a as int] == es@[a as int].word.terms@);
        }
        if !outer.contains(&es[a]) {
            return false;
        }
        a = a + 1;
    }
    true
}

/// `r` is the nilpotency class that a lower central series `ser` shows: the number of steps to
/// the trivial group when the series reaches it, and `None` otherwise.
pub open spec fn class_of_series(ser: Seq<Seq<Seq<Term>>>) -> Option<usize> {
    if ser.last().len() == 0 {
        Some((ser.len() - 1) as usize)
    } else {
        None
    }
}

/// Computes the nilpotency class of the subgroup: `Some(c)` when its lower central series reaches
/// the trivial group in `c` steps (`0` for the trivial group, `1` for a non-trivial abelian group),
/// and `None` when the series stops at a non-trivial subgroup.
pub fn nilpotency_class_subgroup<'a>(group: &GeneratingSequence<'a>, group_gens: &[Element<'a>]) -> (r:
    Option<usize>)
    requires
        group.wf(),
        elements_in(group.pres_view(), group_gens@),
    ensures
        exists|ser: Seq<Seq<Seq<Term>>>|
            lower_central_shape(group.pres_view(), group.words(), element_words(group_gens@), ser) && r
                == #[trigger] class_of_series(ser),
        group.words().len() == 0 ==> r == Some(0usize),
        group.words().len() > 0 ==> (r == Some(1usize) <==> commutators_trivial(
            group.pres_view(),
            group.words(),
            group.words(),
        )),
{
    let lcs = lower_central_series(group, group_gens);
    let ghost ser = series_words(lcs@);
    let k = lcs.len() - 1;
    proof {
        assert(ser.last() == lcs@[k as int].words());
        group.lemma_wf();
        crate::generating_sequence::lemma_echelon_len(group.pres_view(), group.words());
        reveal(commutator_step);
        if group.words().len() > 0 {
            if k >= 1 {
                assert(commutator_step(
                    group.pres_view(),
                    ser[0],
                    group.words(),
                    element_words(group_gens@),
                    ser[1],
                ));
            }
        }
    }
    let r = if lcs[k].is_trivial() {
        Some(k)
    } else {
        None
    };
    assert(r == class_of_series(ser));
    r
}

/// Returns `true` if the subgroup is nilpotent: its lower central series reaches the trivial
/// group.
pub fn is_nilpotent_subgroup<'a>(group: &GeneratingSequence<'a>, group_gens: &[Element<'a>]) -> (b: bool)
    requires
        group.wf(),
        elements_in(group.pres_view(), group_gens@),
    ensures
        exists|ser: Seq<Seq<Seq<Term>>>|
            lower_central_shape(group.pres_view(), group.words(), element_words(group_gens@), ser) && b
                == (#[trigger] class_of_series(ser)) is Some,
        commutators_trivial(group.pres_view(), group.words(), group.words()) ==> b,
{
    nilpotency_class_subgroup(group, group_gens).is_some()
}

/// Computes the nilpotency class of the group of the presentation (see
/// [`nilpotency_class_subgroup`]).
pub fn nilpotency_class(pres: &Presentation) -> (r: Option<usize>)
    requires
        pres.collectable(),
    ensures
        exists|ser: Seq<Seq<Seq<Term>>>|
            lower_central_shape(*pres, generator_words(*pres), generator_words(*pres), ser) && r
                == #[trigger] class_of_series(ser),
        pres.n() == 0 ==> r == Some(0usize),
        pres.n() > 0 ==> (r == Some(1usize) <==> commutators_trivial(
            *pres,
            generator_words(*pres),
            generator_words(*pres),
        )),
{
    let full = GeneratingSequence::full_group(pres);
    let gens = full.elements();
    proof {
        lemma_elements_in(full, gens@);
        assert(element_words(gens@) == generator_words(*pres));
    }
    nilpotency_class_subgroup(&full, gens)
}

/// Returns `true` if the group of the presentation is nilpotent.
pub fn is_nilpotent(pres: &Presentation) -> (b: bool)
    requires
        pres.collectable(),
    ensures
        exists|ser: Seq<Seq<Seq<Term>>>|
            lower_central_shape(*pres, generator_words(*pres), generator_words(*pres), ser) && b
                == (#[trigger] class_of_series(ser)) is Some,
        commutators_trivial(*pres, generator_words(*pres), generator_words(*pres)) ==> b,
{
    nilpotency_class(pres).is_some()
}

/// Sifting through no words leaves the terms unchanged.
pub proof fn lemma_sift_empty(pres: Presentation, ws: Seq<Seq<Term>>, ts: Seq<Term>)
    requires
        ws.len() == 0,
    ensures
        sift_terms(pres, ws, ts) == ts,
{
    if ts.len() > 0 {
        assert(find_lead(ws, ts[0].gen_index as nat, 0) is None);
    }
}


/// The words of `n_i` that do not sift to the identity through `n_next`: the basis of the section
/// `n_i / n_next`.
pub open spec fn section_basis(pres: Presentation, n_i: Seq<Seq<Term>>, n_next: Seq<Seq<Term>>) -> Seq<Seq<Term>> {
    n_i.filter(|w: Seq<Term>| sift_terms(pres, n_next, w).len() > 0)
}

/// The conjugate `g^-1 b g`, multiplied out left to right.
pub open spec fn conjugate_terms(pres: Presentation, b: Seq<Term>, g: Seq<Term>) -> Seq<Term> {
    normal_form(pres, normal_form(pres, inverse_terms(pres, g) + b) + g)
}

/// The coordinates, from position `k` of the section basis `basis` on, of `rem` modulo the
/// subgroup with words `lower`: where the basis element leads with the leading generator of what
/// remains, its coordinate is the quotient of the two leading exponents modulo `p`, and that power
/// of the basis element is divided out of what remains, which is sifted through `lower` again;
/// elsewhere the coordinate is 0.
pub open spec fn section_coords(
    pres: Presentation,
    lower: Seq<Seq<Term>>,
    basis: Seq<Seq<Term>>,
    p: u32,
    rem: Seq<Term>,
    k: int,
) -> Seq<u32>
    decreases basis.len() - k,
{
    if k < 0 || k >= basis.len() {
        Seq::empty()
    } else if rem.len() > 0 && basis[k].len() > 0 && rem[0].gen_index == basis[k][0].gen_index {
        let coeff = (rem[0].exponent / basis[k][0].exponent) % p;
        let next = if coeff > 0 {
            sift_terms(pres, lower, normal_form(pres, power_terms(pres, inverse_terms(pres, basis[k]), coeff as nat) + rem))
        } else {
            rem
        };
        seq![coeff] + section_coords(pres, lower, basis, p, next, k + 1)
    } else {
        seq![0u32] + section_coords(pres, lower, basis, p, rem, k + 1)
    }
}

/// Nothing left has all coordinates 0.
proof fn lemma_section_coords_empty(
    pres: Presentation,
    lower: Seq<Seq<Term>>,
    basis: Seq<Seq<Term>>,
    p: u32,
    k: int,
)
    requires
        0 <= k <= basis.len(),
    ensures
        section_coords(pres, lower, basis, p, Seq::empty(), k) =~= Seq::new((basis.len() - k) as nat, |i: int| 0u32),
    decreases basis.len() - k,
{
    if k < basis.len() {
        lemma_section_coords_empty(pres, lower, basis, p, k + 1);
    }
}

/// Computes the action by conjugation of `group_gens` on the section `V = n_i / n_next`.
///
/// Returns `(p, d, matrices, basis)`: the basis elements of `n_i` outside `n_next`, their
/// number `d`, the relative order `p` of the leading generator of the first one, and for each
/// group generator `g` the `d x d` matrix over `F_p` whose column `j` holds the coordinates of
/// `g^-1 b_j g` modulo `n_next`, read off by successive leading-term division. When the section
/// is trivial the result is `(2, 0, [], [])`.
pub(crate) fn module_representation<'a>(
    n_i: &GeneratingSequence<'a>,
    n_next: &GeneratingSequence<'a>,
    group_gens: &[Element<'a>],
) -> (r: (u32, usize, Vec<ModularMatrix>, Vec<Element<'a>>))
    requires
        n_i.wf(),
        n_next.wf(),
        n_next.pres_view() == n_i.pres_view(),
        elements_in(n_i.pres_view(), group_gens@),
    ensures
        r.1 == r.3@.len(),
        element_words(r.3@) == section_basis(n_i.pres_view(), n_i.words(), n_next.words()),
        elements_in(n_i.pres_view(), r.3@),
        r.1 == 0 ==> r.0 == 2 && r.2@.len() == 0,
        r.1 > 0 ==> {
            &&& r.0 == n_i.pres_view().ro()[r.3@[0].word.terms@[0].gen_index as int]
            &&& spec_is_prime(r.0 as int)
            &&& r.2@.len() == group_gens@.len()
            &&& acts_on(r.2@, r.1 as nat, r.0 as nat)
            &&& forall|i: int, row: int, col: int|
                0 <= i < group_gens@.len() && 0 <= row < r.1 && 0 <= col < r.1 ==> #[trigger] r.2@[i].at(row, col)
                    == section_coords(
                    n_i.pres_view(),
                    n_next.words(),
                    element_words(r.3@),
                    r.0,
                    sift_terms(n_i.pres_view(), n_next.words(), conjugate_terms(n_i.pres_view(), element_words(r.3@)[col], group_gens@[i].word.terms@)),
                    0,
                )[row]
        },
{
    let ghost pv = n_i.pres_view();
    let ghost ni = n_i.words();
    let ghost nn = n_next.words();
    let ghost pred = |w: Seq<Term>| sift_terms(pv, nn, w).len() > 0;
    proof {
        n_i.lemma_wf();
        n_next.lemma_wf();
    }
    let elems = n_i.elements();
    let mut basis: Vec<Element<'a>> = Vec::new();
    let mut t: usize = 0;
    while t < elems.len()
        invariant
            t <= elems@.len(),
            n_i.wf(),
            n_next.wf(),
            pv == n_i.pres_view(),
            pv == n_next.pres_view(),
            ni == n_i.words(),
            nn == n_next.words(),
            pred == (|w: Seq<Term>| sift_terms(pv, nn, w).len() > 0),
            element_words(elems@) == ni,
            forall|k: int| 0 <= k < elems@.len() ==> (#[trigger] elems@[k]).pres == pv,
            element_words(basis@) == ni.take(t as int).filter(pred),
            elements_in(pv, basis@),
            echelon(pv, ni),
        decreases elems@.len() - t,
    {
        proof {
            assert(element_words(elems@)[t as int] == elems@[t as int].word.terms@);
            lemma_word_in_range(pv, ni, t as int);
        }
        let rem = n_next.sift(elems[t].duplicate());
        let ghost before = basis@;
        let keep = !rem.is_identity();
        if keep {
            basis.push(elems[t].duplicate());
        }
        proof {
            assert(ni.take(t + 1).drop_last() =~= ni.take(t as int));
            assert(ni.take(t + 1).last() == ni[t as int]);
            assert(elems@[t as int].word.terms@ == ni[t as int]);
            assert(pred(ni[t as int]) == keep);
            assert(ni.len() == elems@.len());
            assert(ni.take(t + 1).len() == t + 1);
            reveal_with_fuel(Seq::filter, 2);
            let sub = ni.take(t + 1).drop_last().filter(pred);
            assert(ni.take(t + 1).filter(pred) == if pred(ni.take(t + 1).last()) {
                sub.push(ni.take(t + 1).last())
            } else {
                sub
            });
            assert(element_words(basis@) =~= ni.take(t + 1).filter(pred)) by {
                if keep {
                    assert(element_words(basis@) =~= element_words(before).push(ni[t as int]));
                } else {
                    assert(basis@ == before);
                }
            }
            assert forall|k: int| 0 <= k < basis@.len() implies (#[trigger] basis@[k]).pres == pv
                && is_normal_terms(basis@[k].word.terms@, pv.ro()) by {
                if k < before.len() {
                    assert(basis@[k] == before[k]);
                }
            }
        }
        t = t + 1;
    }
    proof {
        assert(ni.take(elems@.len() as int) =~= ni);
    }
    let d = basis.len();
    if d == 0 {
        return (2, 0, Vec::new(), basis);
    }
    let pres = n_i.presentation();
    proof {
        assert(element_words(basis@)[0] == basis@[0].word.terms@);
        assert(ni.filter(pred).contains(basis@[0].word.terms@));
        assert(basis@[0].word.terms@.len() > 0) by {
            let w = basis@[0].word.terms@;
            if w.len() == 0 {
                lemma_sift_empty_word(pv, nn);
                assert(pred(w));
            }
        }
    }
    let lead_gen = basis[0].leading_generator().unwrap();
    let p = pres.relative_order(lead_gen);
    proof {
        assert(spec_is_prime(pv.ro()[lead_gen as int] as int));
    }
    let ghost bw = element_words(basis@);
    let mut matrices: Vec<ModularMatrix> = Vec::new();
    let mut gi: usize = 0;
    while gi < group_gens.len()
        invariant
            gi <= group_gens@.len(),
            n_next.wf(),
            pv == n_next.pres_view(),
            pv.collectable(),
            *pres == pv,
            elements_in(pv, group_gens@),
            elements_in(pv, basis@),
            d == basis@.len(),
            d > 0,
            spec_is_prime(p as int),
            matrices@.len() == gi,
            acts_on(matrices@, d as nat, p as nat),
            bw == element_words(basis@),
            nn == n_next.words(),
            forall|i: int, row: int, col: int|
                0 <= i < gi && 0 <= row < d && 0 <= col < d ==> #[trigger] matrices@[i].at(row, col) == section_coords(
                    pv,
                    nn,
                    bw,
                    p,
                    sift_terms(pv, nn, conjugate_terms(pv, bw[col], group_gens@[i].word.terms@)),
                    0,
                )[row],
        decreases group_gens@.len() - gi,
    {
        let g = &group_gens[gi];
        let g_inv = g.inverse();
        let mut columns: Vec<Vec<u32>> = Vec::new();
        let mut j: usize = 0;
        while j < d
            invariant
                j <= d,
                d == basis@.len(),
                n_next.wf(),
                pv == n_next.pres_view(),
                pv.collectable(),
                elements_in(pv, basis@),
                g.pres == pv,
                g_inv.pres == pv,
                g_inv.valid(),
                is_normal_terms(g.word.terms@, pv.ro()),
                spec_is_prime(p as int),
                columns@.len() == j,
                forall|c: int| 0 <= c < j ==> (#[trigger] columns@[c])@.len() == d,
                forall|c: int, k: int| 0 <= c < j && 0 <= k < d ==> #[trigger] columns@[c]@[k] < p,
                bw == element_words(basis@),
                nn == n_next.words(),
                g_inv.word.terms@ == inverse_terms(pv, g.word.terms@),
                forall|c: int| 0 <= c < j ==> (#[trigger] columns@[c])@ == section_coords(
                    pv,
                    nn,
                    bw,
                    p,
                    sift_terms(pv, nn, conjugate_terms(pv, bw[c], g.word.terms@)),
                    0,
                ),
            decreases d - j,
        {
            let w = g_inv.product(&basis[j]).product(g);
            let mut rem = n_next.sift(w);
            proof {
                assert(bw[j as int] == basis@[j as int].word.terms@);
            }
            let ghost rem0 = rem.word.terms@;
            let mut col: Vec<u32> = zero_coeffs(d);
            let mut k: usize = 0;
            while k < d && !rem.is_identity()
                invariant
                    k <= d,
                    d == basis@.len(),
                    n_next.wf(),
                    pv == n_next.pres_view(),
                    pv.collectable(),
                    elements_in(pv, basis@),
                    spec_is_prime(p as int),
                    rem.pres == pv,
                    rem.valid(),
                    col@.len() == d,
                    forall|c: int| 0 <= c < d ==> #[trigger] col@[c] < p,
                    bw == element_words(basis@),
                    nn == n_next.words(),
                    forall|c: int| k <= c < d ==> #[trigger] col@[c] == 0,
                    col@.subrange(0, k as int) + section_coords(pv, nn, bw, p, rem.word.terms@, k as int) == section_coords(
                        pv,
                        nn,
                        bw,
                        p,
                        rem0,
                        0,
                    ),
                decreases d - k,
            {
                let ghost col_before = col@;
                let ghost rem_before = rem.word.terms@;
                proof {
                    assert(bw[k as int] == basis@[k as int].word.terms@);
                }
                let b_k = &basis[k];
                if b_k.word.terms.len() > 0 && rem.leading_generator() == b_k.leading_generator() {
                    let exp_rem = rem.leading_exponent().unwrap();
                    let exp_b = b_k.leading_exponent().unwrap();
                    proof {
                        assert(is_normal_terms(b_k.word.terms@, pv.ro()));
                        assert(b_k.word.terms@[0].exponent > 0);
                    }
                    let coeff = (exp_rem / exp_b) % p;
                    col.set(k, coeff);
                    if coeff > 0 {
                        let b_inv_c = b_k.inverse().pow(coeff);
                        let moved = b_inv_c.product(&rem);
                        rem = n_next.sift(moved);
                    }
                }
                proof {
                    assert(col@.subrange(0, k + 1) =~= col_before.subrange(0, k as int).push(col@[k as int]));
                    assert(section_coords(pv, nn, bw, p, rem_before, k as int) =~= seq![col@[k as int]] + section_coords(
                        pv,
                        nn,
                        bw,
                        p,
                        rem.word.terms@,
                        k + 1,
                    ));
                    assert(col@.subrange(0, k + 1) + section_coords(pv, nn, bw, p, rem.word.terms@, k + 1) =~= col_before.subrange(0, k as int)
                        + section_coords(pv, nn, bw, p, rem_before, k as int));
                }
                k = k + 1;
            }
            proof {
                if k < d {
                    lemma_section_coords_empty(pv, nn, bw, p, k as int);
                    assert(rem.word.terms@ =~= Seq::<Term>::empty());
                }
                assert(col@ =~= section_coords(pv, nn, bw, p, rem0, 0));
            }
            let ghost before_cols = columns@;
            columns.push(col);
            proof {
                assert forall|c: int| 0 <= c < j + 1 implies (#[trigger] columns@[c])@ == section_coords(
                    pv,
                    nn,
                    bw,
                    p,
                    sift_terms(pv, nn, conjugate_terms(pv, bw[c], g.word.terms@)),
                    0,
                ) by {
                    if c < j {
                        assert(columns@[c] == before_cols[c]);
                    }
                }
            }
            j = j + 1;
        }
        let m = ModularMatrix::from_columns(&columns, p);
        proof {
            assert(m.rows == d);
            assert forall|r: int, c: int| 0 <= r < d && 0 <= c < d implies #[trigger] m.at(r, c) < p by {}
        }
        let ghost before = matrices@;
        matrices.push(m);
        proof {
            assert forall|i: int| 0 <= i < matrices@.len() implies (#[trigger] matrices@[i]).wf() && matrices@[i].rows == d
                && matrices@[i].cols == d && matrices@[i].p == p by {
                if i < before.len() {
                    assert(matrices@[i] == before[i]);
                }
            }
            assert forall|i: int, row: int, col: int|
                0 <= i < gi + 1 && 0 <= row < d && 0 <= col < d implies #[trigger] matrices@[i].at(row, col) == section_coords(
                    pv,
                    nn,
                    bw,
                    p,
                    sift_terms(pv, nn, conjugate_terms(pv, bw[col], group_gens@[i].word.terms@)),
                    0,
                )[row] by {
                if i < before.len() {
                    assert(matrices@[i] == before[i]);
                } else {
                    assert(matrices@[i] == m);
                    assert(m.rows == d && m.cols == d);
                    assert(columns@[col]@.len() == d);
                    assert(columns@[col]@[row] < p);
                    vstd::arithmetic::div_mod::lemma_small_mod(columns@[col]@[row] as nat, p as nat);
                    assert(m.at(row, col) == columns@[col]@[row]);
                }
            }
        }
        gi = gi + 1;
    }
    (p, d, matrices, basis)
}

/// `d` zero coefficients.
fn zero_coeffs(d: usize) -> (v: Vec<u32>)
    ensures
        v@.len() == d,
        forall|i: int| 0 <= i < d ==> #[trigger] v@[i] == 0,
{
    let mut v: Vec<u32> = Vec::new();
    let mut i: usize = 0;
    while i < d
        invariant
            i <= d,
            v@.len() == i,
            forall|k: int| 0 <= k < i ==> #[trigger] v@[k] == 0,
        decreases d - i,
    {
        v.push(0);
        i = i + 1;
    }
    v
}

/// The empty word sifts to itself.
pub proof fn lemma_sift_empty_word(pres: Presentation, ws: Seq<Seq<Term>>)
    ensures
        sift_terms(pres, ws, Seq::<Term>::empty()).len() == 0,
{
}


/// `ws` is the canonical form of words in echelon form closed under powers, commutators and
/// conjugation by `gs`.
pub open spec fn normal_subgroup_words(pres: Presentation, ws: Seq<Seq<Term>>, gs: Seq<Seq<Term>>) -> bool {
    exists|c: Seq<Seq<Term>>|
        #![trigger reduce_all(pres, c, 0, c.len())]
        {
            &&& echelon(pres, c)
            &&& closed(pres, c)
            &&& normal_closed(pres, c, gs)
            &&& ws == reduce_all(pres, c, 0, c.len())
        }
}

/// The subgroup generated by `gens` closed under conjugation by `group_gens`, in canonical form.
fn normal_subgroup_from<'a>(pres: &'a Presentation, gens: &[Element<'a>], group_gens: &[Element<'a>]) -> (s:
    GeneratingSequence<'a>)
    requires
        pres.collectable(),
        elements_in(*pres, gens@),
        elements_in(*pres, group_gens@),
    ensures
        s.wf(),
        s.pres_view() == *pres,
        normal_subgroup_words(*pres, s.words(), element_words(group_gens@)),
{
    let start = GeneratingSequence::empty(pres);
    let s = GeneratingSequence::normal_closure_with(start, gens, group_gens);
    proof {
        assert(element_words(group_gens@) == group_gens@.map_values(|e: Element<'a>| e.word.terms@));
    }
    s
}

/// The shape of a chief series of the group of `pres`: it starts at the whole group, every
/// member is in echelon form, every later member is the canonical form of a sequence closed
/// under powers, commutators and conjugation by the generators and has fewer words than the one
/// before, and it ends at the trivial group or at a subgroup whose
/// commutator subgroup is not smaller.
pub open spec fn chief_shape(pres: Presentation, ser: Seq<Seq<Seq<Term>>>) -> bool {
    &&& ser.len() >= 1
    &&& ser[0] == generator_words(pres)
    &&& forall|i: int| 0 <= i < ser.len() ==> echelon(pres, #[trigger] ser[i])
    &&& forall|i: int| 0 < i < ser.len() ==> normal_subgroup_words(pres, #[trigger] ser[i], generator_words(pres))
    &&& forall|i: int| 0 < i < ser.len() ==> (#[trigger] ser[i]).len() < ser[i - 1].len()
    &&& ser.last().len() == 0 || exists|w: Seq<Seq<Term>>|
        #[trigger] commutator_step(pres, ser.last(), ser.last(), generator_words(pres), w) && w.len()
            >= ser.last().len()
}

/// Copies of the elements.
fn copy_elements<'a>(es: &[Element<'a>]) -> (out: Vec<Element<'a>>)
    ensures
        element_words(out@) == element_words(es@),
        forall|i: int| 0 <= i < out@.len() ==> (#[trigger] out@[i]).pres == es@[i].pres,
        out@.len() == es@.len(),
        forall|q: Presentation| elements_in(q, es@) ==> #[trigger] elements_in(q, out@),
{
    let mut out: Vec<Element<'a>> = Vec::new();
    let mut i: usize = 0;
    while i < es.len()
        invariant
            i <= es@.len(),
            out@.len() == i,
            forall|k: int| 0 <= k < i ==> (#[trigger] out@[k]).pres == es@[k].pres && out@[k].word.terms@
                == es@[k].word.terms@,
        decreases es@.len() - i,
    {
        out.push(es[i].duplicate());
        i = i + 1;
    }
    assert(element_words(out@) =~= element_words(es@));
    assert forall|q: Presentation| elements_in(q, es@) implies #[trigger] elements_in(q, out@) by {
        assert forall|i: int| 0 <= i < out@.len() implies (#[trigger] out@[i]).pres == q && is_normal_terms(
            out@[i].word.terms@,
            q.ro(),
        ) by {
            assert(es@[i].pres == q);
        }
    }
    out
}

/// Computes a chief series `G = N_0 > N_1 > ... > N_m = {1}` of the group of the presentation.
///
/// First a series with elementary abelian factors is built: each step takes the commutator
/// subgroup `[N, N]`, and where it is smaller, the subgroup `N^p [N, N]` for the prime `p` of the
/// top factor. Each factor `N_i / N_{i+1}` is then refined along a composition series of the
/// module given by the conjugation action of the generators on it. Every subgroup is taken
/// closed under conjugation by the generators, and a refining subgroup that does not lie strictly
/// between its neighbours in size is left out.
pub fn chief_series<'a>(pres: &'a Presentation) -> (chief: Vec<GeneratingSequence<'a>>)
    requires
        pres.collectable(),
    ensures
        forall|i: int| 0 <= i < chief@.len() ==> (#[trigger] chief@[i]).wf() && chief@[i].pres_view() == *pres,
        chief_shape(*pres, series_words(chief@)),
{
    let ghost pv = *pres;
    let ghost gw = generator_words(pv);
    let g = GeneratingSequence::full_group(pres);
    let group_gens = g.elements();
    proof {
        lemma_elements_in(g, group_gens@);
    }
    let mut elem_series: Vec<GeneratingSequence<'a>> = Vec::new();
    elem_series.push(g.duplicate());
    let mut current = g.duplicate();
    let ghost mut dw: Seq<Seq<Term>> = Seq::empty();
    loop
        invariant
            pres.collectable(),
            pv == *pres,
            gw == generator_words(pv),
            element_words(group_gens@) == gw,
            elements_in(pv, group_gens@),
            current.wf(),
            current.pres_view() == pv,
            elem_series@.len() >= 1,
            series_words(elem_series@)[0] == gw,
            forall|i: int| 0 <= i < elem_series@.len() ==> (#[trigger] elem_series@[i]).wf()
                && elem_series@[i].pres_view() == pv,
            forall|i: int| 0 <= i < elem_series@.len() - 1 ==> (#[trigger] elem_series@[i + 1]).words().len()
                < elem_series@[i].words().len(),
            elem_series@[elem_series@.len() - 1].words() == current.words(),
            forall|i: int| 0 < i < elem_series@.len() ==> normal_subgroup_words(pv, (#[trigger] elem_series@[i]).words(), gw),
        ensures
            current.words().len() == 0 || (commutator_step(pv, current.words(), current.words(), gw, dw)
                && dw.len() >= current.words().len()),
        decreases current.words().len(),
    {
        if current.is_trivial() {
            break;
        }
        let derived = commutator_subgroup(&current, &current, group_gens);
        proof {
            reveal(commutator_step);
            assert(normal_subgroup_words(pv, derived.words(), gw));
        }
        let mut next_sub = derived.duplicate();
        if derived.len() < current.len() {
            let elems = current.elements();
            proof {
                lemma_elements_in(current, elems@);
            }
            let mut found_prime: Option<u32> = None;
            let mut t: usize = 0;
            while t < elems.len()
                invariant
                    t <= elems@.len(),
                    derived.wf(),
                    derived.pres_view() == pv,
                    pres.collectable(),
                    pv == *pres,
                    elements_in(pv, elems@),
                    found_prime matches Some(q) ==> spec_is_prime(q as int),
                decreases elems@.len() - t,
            {
                if !derived.contains(&elems[t]) {
                    proof {
                        if elems@[t as int].word.terms@.len() == 0 {
                            lemma_sift_empty_word(pv, derived.words());
                        }
                        assert(spec_is_prime(pv.ro()[elems@[t as int].word.terms@[0].gen_index as int] as int));
                    }
                    let lead = elems[t].leading_generator().unwrap();
                    found_prime = Some(pres.relative_order(lead));
                    break;
                }
                t = t + 1;
            }
            if let Some(p) = found_prime {
                let des = derived.elements();
                proof {
                    lemma_elements_in(derived, des@);
                }
                let mut gens_p = copy_elements(des);
                let mut e: usize = 0;
                while e < elems.len()
                    invariant
                        e <= elems@.len(),
                        pres.collectable(),
                        pv == *pres,
                        elements_in(pv, elems@),
                        elements_in(pv, gens_p@),
                    decreases elems@.len() - e,
                {
                    let pw = elems[e].pow(p);
                    let ghost before = gens_p@;
                    gens_p.push(pw);
                    proof {
                        assert forall|i: int| 0 <= i < gens_p@.len() implies (#[trigger] gens_p@[i]).pres == pv
                            && is_normal_terms(gens_p@[i].word.terms@, pv.ro()) by {
                            if i < before.len() {
                                assert(gens_p@[i] == before[i]);
                            }
                        }
                    }
                    e = e + 1;
                }
                let cand = normal_subgroup_from(pres, &gens_p, group_gens);
                if cand.len() < current.len() {
                    next_sub = cand;
                }
            }
        }
        if next_sub.len() >= current.len() {
            if derived.len() < current.len() {
                next_sub = derived;
            } else {
                proof {
                    dw = derived.words();
                }
                break;
            }
        }
        let ghost before = elem_series@;
        proof {
            assert(normal_subgroup_words(pv, next_sub.words(), gw));
        }
        elem_series.push(next_sub.duplicate());
        proof {
            assert forall|i: int| 0 < i < elem_series@.len() implies normal_subgroup_words(pv, (#[trigger] elem_series@[i]).words(), gw) by {
                if i < before.len() {
                    assert(elem_series@[i] == before[i]);
                }
            }
            assert forall|i: int| 0 <= i < elem_series@.len() implies (#[trigger] elem_series@[i]).wf()
                && elem_series@[i].pres_view() == pv by {
                if i < before.len() {
                    assert(elem_series@[i] == before[i]);
                }
            }
            assert forall|i: int| 0 <= i < elem_series@.len() - 1 implies (#[trigger] elem_series@[i + 1]).words().len()
                < elem_series@[i].words().len() by {
                assert(elem_series@[i] == before[i]);
                if i + 1 < before.len() {
                    assert(elem_series@[i + 1] == before[i + 1]);
                }
            }
            assert(series_words(elem_series@)[0] == series_words(before)[0]) by {
                assert(elem_series@[0] == before[0]);
            }
        }
        current = next_sub;
    }
    let mut chief: Vec<GeneratingSequence<'a>> = Vec::new();
    chief.push(elem_series[0].duplicate());
    let mut w: usize = 0;
    while w < elem_series.len() - 1
        invariant
            pres.collectable(),
            pv == *pres,
            gw == generator_words(pv),
            elements_in(pv, group_gens@),
            elem_series@.len() >= 1,
            w < elem_series@.len(),
            forall|i: int| 0 <= i < elem_series@.len() ==> (#[trigger] elem_series@[i]).wf()
                && elem_series@[i].pres_view() == pv,
            forall|i: int| 0 <= i < elem_series@.len() - 1 ==> (#[trigger] elem_series@[i + 1]).words().len()
                < elem_series@[i].words().len(),
            chief@.len() >= 1,
            series_words(chief@)[0] == gw,
            forall|i: int| 0 <= i < chief@.len() ==> (#[trigger] chief@[i]).wf() && chief@[i].pres_view() == pv,
            chief@[chief@.len() - 1].words() == elem_series@[w as int].words(),
            element_words(group_gens@) == gw,
            forall|i: int| 0 < i < elem_series@.len() ==> normal_subgroup_words(pv, (#[trigger] elem_series@[i]).words(), gw),
            forall|i: int| 0 < i < chief@.len() ==> normal_subgroup_words(pv, (#[trigger] chief@[i]).words(), gw),
            forall|i: int| 0 < i < chief@.len() ==> (#[trigger] chief@[i]).words().len() < chief@[i - 1].words().len(),
        decreases elem_series@.len() - w,
    {
        let n_i = &elem_series[w];
        let n_next = &elem_series[w + 1];
        proof {
            assert(elem_series@[w + 1].words().len() < elem_series@[w as int].words().len());
        }
        let ghost c0 = chief@;
        if n_i.len() != n_next.len() {
            let (p, d, matrices, basis) = module_representation(n_i, n_next, group_gens);
            if d > 1 {
                let chain = composition_series(&matrices, p, d);
                let mut ci: usize = chain.len() - 1;
                while ci > 1
                    invariant
                        ci < chain@.len(),
                        is_increasing_chain(chain@, d as nat, p as nat),
                        d == basis@.len(),
                        pres.collectable(),
                        pv == *pres,
                        n_next.wf(),
                        n_next.pres_view() == pv,
                        elements_in(pv, basis@),
                        chief@.len() >= c0.len(),
                        forall|i: int| 0 <= i < c0.len() ==> chief@[i] == c0[i],
                        forall|i: int| 0 <= i < chief@.len() ==> (#[trigger] chief@[i]).wf() && chief@[i].pres_view() == pv,
                        elements_in(pv, group_gens@),
                        element_words(group_gens@) == gw,
                        gw == generator_words(pv),
                        forall|i: int| 0 < i < chief@.len() ==> normal_subgroup_words(pv, (#[trigger] chief@[i]).words(), gw),
                        forall|i: int| 0 < i < chief@.len() ==> (#[trigger] chief@[i]).words().len() < chief@[i - 1].words().len(),
                        chief@.len() >= 1,
                        chief@[chief@.len() - 1].words().len() > n_next.words().len(),
                    decreases ci,
                {
                    ci = ci - 1;
                    let subspace = &chain[ci];
                    let nes = n_next.elements();
                    proof {
                        lemma_elements_in(*n_next, nes@);
                    }
                    let mut sub_gens = copy_elements(nes);
                    let mut bi: usize = 0;
                    while bi < subspace.basis.len()
                        invariant
                            pres.collectable(),
                            pv == *pres,
                            subspace.wf(),
                            subspace.d == d,
                            d == basis@.len(),
                            elements_in(pv, basis@),
                            elements_in(pv, sub_gens@),
                        decreases subspace.basis@.len() - bi,
                    {
                        let sub_b = &subspace.basis[bi];
                        proof {
                            assert(subspace.basis_view()[bi as int] == sub_b@);
                        }
                        let mut grp_elem = Element::identity(pres);
                        let mut k: usize = 0;
                        while k < sub_b.len()
                            invariant
                                k <= sub_b@.len(),
                                sub_b@.len() == d,
                                d == basis@.len(),
                                pres.collectable(),
                                pv == *pres,
                                elements_in(pv, basis@),
                                grp_elem.pres == pres,
                                grp_elem.valid(),
                            decreases sub_b@.len() - k,
                        {
                            let coeff = sub_b[k];
                            if coeff > 0 {
                                let pw = basis[k].pow(coeff);
                                grp_elem = grp_elem.product(&pw);
                            }
                            k = k + 1;
                        }
                        let ghost before = sub_gens@;
                        sub_gens.push(grp_elem);
                        proof {
                            assert forall|i: int| 0 <= i < sub_gens@.len() implies (#[trigger] sub_gens@[i]).pres == pv
                                && is_normal_terms(sub_gens@[i].word.terms@, pv.ro()) by {
                                if i < before.len() {
                                    assert(sub_gens@[i] == before[i]);
                                }
                            }
                        }
                        bi = bi + 1;
                    }
                    let refined = normal_subgroup_from(pres, &sub_gens, group_gens);
                    let last_len = chief[chief.len() - 1].len();
                    if refined.len() >= last_len || refined.len() <= n_next.len() {
                        continue;
                    }
                    let ghost before = chief@;
                    chief.push(refined);
                    proof {
                        assert forall|i: int| 0 < i < chief@.len() implies (#[trigger] chief@[i]).words().len() < chief@[i - 1].words().len() by {
                            if i < before.len() {
                                assert(chief@[i] == before[i]);
                                assert(chief@[i - 1] == before[i - 1]);
                            } else {
                                assert(chief@[i - 1] == before[i - 1]);
                            }
                        }
                        assert forall|i: int| 0 <= i < chief@.len() implies (#[trigger] chief@[i]).wf() && chief@[i].pres_view() == pv by {
                            if i < before.len() {
                                assert(chief@[i] == before[i]);
                            }
                        }
                        assert forall|i: int| 0 < i < chief@.len() implies normal_subgroup_words(pv, (#[trigger] chief@[i]).words(), gw) by {
                            if i < before.len() {
                                assert(chief@[i] == before[i]);
                            }
                        }
                    }
                }
            }
            let ghost before = chief@;
            chief.push(n_next.duplicate());
            proof {
                assert forall|i: int| 0 <= i < chief@.len() implies (#[trigger] chief@[i]).wf() && chief@[i].pres_view() == pv by {
                    if i < before.len() {
                        assert(chief@[i] == before[i]);
                    }
                }
                assert(chief@[0] == c0[0]);
                assert(series_words(chief@)[0] == series_words(c0)[0]);
                assert forall|i: int| 0 < i < chief@.len() implies normal_subgroup_words(pv, (#[trigger] chief@[i]).words(), gw) by {
                    if i < before.len() {
                        assert(chief@[i] == before[i]);
                    } else {
                        assert(normal_subgroup_words(pv, elem_series@[w + 1].words(), gw));
                    }
                }
                assert forall|i: int| 0 < i < chief@.len() implies (#[trigger] chief@[i]).words().len() < chief@[i - 1].words().len() by {
                    if i < before.len() {
                        assert(chief@[i] == before[i]);
                        assert(chief@[i - 1] == before[i - 1]);
                    } else {
                        assert(chief@[i - 1] == before[i - 1]);
                    }
                }
            }
        }
        w = w + 1;
    }
    proof {
        let sw = series_words(chief@);
        assert forall|i: int| 0 <= i < sw.len() implies echelon(pv, #[trigger] sw[i]) by {
            chief@[i].lemma_wf();
        }
        assert forall|i: int| 0 < i < sw.len() implies normal_subgroup_words(pv, #[trigger] sw[i], gw) by {
            assert(sw[i] == chief@[i].words());
        }
        assert forall|i: int| 0 < i < sw.len() implies (#[trigger] sw[i]).len() < sw[i - 1].len() by {
            assert(sw[i] == chief@[i].words());
            assert(sw[i - 1] == chief@[i - 1].words());
        }
        assert(sw.last() == current.words());
    }
    chief
}

/// Returns `true` if the group is supersolvable: its chief series reaches the trivial group and
/// every chief factor has prime order, that is, each step drops exactly one generator.
pub fn is_supersolvable(pres: &Presentation) -> (b: bool)
    requires
        pres.collectable(),
    ensures
        exists|ser: Seq<Seq<Seq<Term>>>|
            #[trigger] chief_shape(*pres, ser) && b == (ser.last().len() == 0 && forall|i: int|
                0 <= i < ser.len() - 1 ==> #[trigger] ser[i].len() == ser[i + 1].len() + 1),
{
    let chief = chief_series(pres);
    let ghost ser = series_words(chief@);
    let last = chief.len() - 1;
    proof {
        assert(ser[last as int] == chief@[last as int].words());
        assert(chief_shape(*pres, ser));
    }
    if !chief[last].is_trivial() {
        return false;
    }
    let mut i: usize = 0;
    while i < last
        invariant
            i <= last,
            last == chief@.len() - 1,
            ser == series_words(chief@),
            chief_shape(*pres, ser),
            ser.last().len() == 0,
            forall|k: int| 0 <= k < i ==> #[trigger] ser[k].len() == ser[k + 1].len() + 1,
        decreases last - i,
    {
        proof {
            assert(ser[i as int] == chief@[i as int].words());
            assert(ser[i + 1] == chief@[i + 1].words());
        }
        if chief[i + 1].len() >= chief[i].len() || chief[i].len() - chief[i + 1].len() != 1 {
            proof {
                assert(!(ser[i as int].len() == ser[i + 1].len() + 1));
            }
            return false;
        }
        i = i + 1;
    }
    true
}

} // verus!
