//! The words generated by given words: what can be reached from them by multiplying, inverting
//! and conjugating by given words. Every subgroup that the generating sequences build lies in
//! the span of what it was built from.
use vstd::prelude::*;

use crate::element::{binary_power, inverse_terms, normal_form, power_terms};
use crate::generating_sequence::{
    comm_terms, conj_terms, find_exp, find_lead, inserted, lead, reduce_all, reduce_pair, reduce_row,
    sift_terms,
};
use crate::presentation::Presentation;
use crate::word::Term;

verus! {

/// A derivation of a word from generators: a generator (or the identity), a product of two
/// derived words collected to normal form, an inverse, or a conjugate `g^-1 x g` by the `t`-th
/// word of the conjugating words.
pub enum Derivation {
    Base(Seq<Term>),
    Mul(Box<Derivation>, Box<Derivation>),
    Inv(Box<Derivation>),
    Conj(Box<Derivation>, int),
}

/// The word that a derivation derives.
pub open spec fn derived(pres: Presentation, gs: Seq<Seq<Term>>, t: Derivation) -> Seq<Term>
    decreases t,
{
    match t {
        Derivation::Base(w) => w,
        Derivation::Mul(a, b) => normal_form(pres, derived(pres, gs, *a) + derived(pres, gs, *b)),
        Derivation::Inv(a) => inverse_terms(pres, derived(pres, gs, *a)),
        Derivation::Conj(a, i) => conj_terms(pres, derived(pres, gs, *a), gs[i]),
    }
}

/// The derivation starts only from the identity and words of `gens`, and conjugates only by
/// words of `gs`.
pub open spec fn derivation_ok(gens: Set<Seq<Term>>, gs: Seq<Seq<Term>>, t: Derivation) -> bool
    decreases t,
{
    match t {
        Derivation::Base(w) => w.len() == 0 || gens.contains(w),
        Derivation::Mul(a, b) => derivation_ok(gens, gs, *a) && derivation_ok(gens, gs, *b),
        Derivation::Inv(a) => derivation_ok(gens, gs, *a),
        Derivation::Conj(a, i) => derivation_ok(gens, gs, *a) && 0 <= i < gs.len(),
    }
}

/// `w` lies in the subgroup generated by the words of `gens`, closed under conjugation by the
/// words of `gs`: some derivation from them yields it.
pub open spec fn in_span(pres: Presentation, gens: Set<Seq<Term>>, gs: Seq<Seq<Term>>, w: Seq<Term>) -> bool {
    exists|t: Derivation| #[trigger] derivation_ok(gens, gs, t) && derived(pres, gs, t) == w
}

/// Every word of `ws` lies in the span.
pub open spec fn all_in_span(pres: Presentation, gens: Set<Seq<Term>>, gs: Seq<Seq<Term>>, ws: Seq<Seq<Term>>) -> bool {
    forall|a: int| 0 <= a < ws.len() ==> #[trigger] in_span(pres, gens, gs, ws[a])
}

/// The identity and the generators lie in the span.
pub proof fn lemma_span_base(pres: Presentation, gens: Set<Seq<Term>>, gs: Seq<Seq<Term>>, w: Seq<Term>)
    requires
        w.len() == 0 || gens.contains(w),
    ensures
        in_span(pres, gens, gs, w),
{
    let t = Derivation::Base(w);
    assert(derivation_ok(gens, gs, t) && derived(pres, gs, t) == w);
}

/// The span is closed under products.
pub proof fn lemma_span_mul(pres: Presentation, gens: Set<Seq<Term>>, gs: Seq<Seq<Term>>, x: Seq<Term>, y: Seq<Term>)
    requires
        in_span(pres, gens, gs, x),
        in_span(pres, gens, gs, y),
    ensures
        in_span(pres, gens, gs, normal_form(pres, x + y)),
{
    let tx = choose|t: Derivation| #[trigger] derivation_ok(gens, gs, t) && derived(pres, gs, t) == x;
    let ty = choose|t: Derivation| #[trigger] derivation_ok(gens, gs, t) && derived(pres, gs, t) == y;
    let t = Derivation::Mul(Box::new(tx), Box::new(ty));
    assert(derivation_ok(gens, gs, t) && derived(pres, gs, t) == normal_form(pres, x + y));
}

/// The span is closed under inverses.
pub proof fn lemma_span_inv(pres: Presentation, gens: Set<Seq<Term>>, gs: Seq<Seq<Term>>, x: Seq<Term>)
    requires
        in_span(pres, gens, gs, x),
    ensures
        in_span(pres, gens, gs, inverse_terms(pres, x)),
{
    let tx = choose|t: Derivation| #[trigger] derivation_ok(gens, gs, t) && derived(pres, gs, t) == x;
    let t = Derivation::Inv(Box::new(tx));
    assert(derivation_ok(gens, gs, t) && derived(pres, gs, t) == inverse_terms(pres, x));
}

/// The span is closed under conjugation by the words of `gs`.
pub proof fn lemma_span_conj(pres: Presentation, gens: Set<Seq<Term>>, gs: Seq<Seq<Term>>, x: Seq<Term>, i: int)
    requires
        in_span(pres, gens, gs, x),
        0 <= i < gs.len(),
    ensures
        in_span(pres, gens, gs, conj_terms(pres, x, gs[i])),
{
    let tx = choose|t: Derivation| #[trigger] derivation_ok(gens, gs, t) && derived(pres, gs, t) == x;
    let t = Derivation::Conj(Box::new(tx), i);
    assert(derivation_ok(gens, gs, t) && derived(pres, gs, t) == conj_terms(pres, x, gs[i]));
}

/// Powers computed by repeated squaring stay in the span.
pub proof fn lemma_span_binary_power(
    pres: Presentation,
    gens: Set<Seq<Term>>,
    gs: Seq<Seq<Term>>,
    acc: Seq<Term>,
    base: Seq<Term>,
    k: nat,
)
    requires
        in_span(pres, gens, gs, acc),
        in_span(pres, gens, gs, base),
    ensures
        in_span(pres, gens, gs, binary_power(pres, acc, base, k)),
    decreases k,
{
    if k > 0 {
        let acc2 = if k % 2 == 1 {
            lemma_span_mul(pres, gens, gs, acc, base);
            normal_form(pres, acc + base)
        } else {
            acc
        };
        if k / 2 > 0 {
            lemma_span_mul(pres, gens, gs, base, base);
            lemma_span_binary_power(pres, gens, gs, acc2, normal_form(pres, base + base), k / 2);
        }
    }
}

/// Powers stay in the span.
pub proof fn lemma_span_power(pres: Presentation, gens: Set<Seq<Term>>, gs: Seq<Seq<Term>>, x: Seq<Term>, k: nat)
    requires
        in_span(pres, gens, gs, x),
    ensures
        in_span(pres, gens, gs, power_terms(pres, x, k)),
{
    lemma_span_base(pres, gens, gs, Seq::<Term>::empty());
    lemma_span_binary_power(pres, gens, gs, Seq::<Term>::empty(), x, k);
}

/// Commutators of words in the span stay in the span.
pub proof fn lemma_span_comm(pres: Presentation, gens: Set<Seq<Term>>, gs: Seq<Seq<Term>>, x: Seq<Term>, y: Seq<Term>)
    requires
        in_span(pres, gens, gs, x),
        in_span(pres, gens, gs, y),
    ensures
        in_span(pres, gens, gs, comm_terms(pres, x, y)),
{
    lemma_span_mul(pres, gens, gs, y, x);
    lemma_span_inv(pres, gens, gs, x);
    lemma_span_inv(pres, gens, gs, y);
    lemma_span_mul(pres, gens, gs, inverse_terms(pres, x), normal_form(pres, y + x));
    lemma_span_mul(
        pres,
        gens,
        gs,
        inverse_terms(pres, y),
        normal_form(pres, inverse_terms(pres, x) + normal_form(pres, y + x)),
    );
}

/// Sifting a word of the span through words of the span leaves a word of the span.
pub proof fn lemma_span_sift(pres: Presentation, gens: Set<Seq<Term>>, gs: Seq<Seq<Term>>, ws: Seq<Seq<Term>>, ts: Seq<Term>)
    requires
        all_in_span(pres, gens, gs, ws),
        in_span(pres, gens, gs, ts),
    ensures
        in_span(pres, gens, gs, sift_terms(pres, ws, ts)),
    decreases pres.n() - lead(ts, pres.n()),
{
    if ts.len() == 0 || ts[0].gen_index >= pres.n() {
    } else {
        let g = ts[0].gen_index as nat;
        match find_lead(ws, g, 0) {
            None => {},
            Some(k) => {
                crate::generating_sequence::lemma_find_lead(ws, g, 0);
                let h = ws[k as int];
                assert(in_span(pres, gens, gs, h));
                lemma_span_inv(pres, gens, gs, h);
                lemma_span_power(pres, gens, gs, inverse_terms(pres, h), ts[0].exponent as nat);
                let nx = normal_form(pres, power_terms(pres, inverse_terms(pres, h), ts[0].exponent as nat) + ts);
                lemma_span_mul(pres, gens, gs, power_terms(pres, inverse_terms(pres, h), ts[0].exponent as nat), ts);
                if nx.len() == 0 || (g < nx[0].gen_index && nx[0].gen_index < pres.n()) {
                    lemma_span_sift(pres, gens, gs, ws, nx);
                }
            },
        }
    }
}

/// Inserting a normalized power of a word of the span keeps every word in the span.
pub proof fn lemma_span_inserted(
    pres: Presentation,
    gens: Set<Seq<Term>>,
    gs: Seq<Seq<Term>>,
    ws: Seq<Seq<Term>>,
    rem: Seq<Term>,
    ws2: Seq<Seq<Term>>,
)
    requires
        all_in_span(pres, gens, gs, ws),
        in_span(pres, gens, gs, rem),
        inserted(pres, ws, rem, ws2),
    ensures
        all_in_span(pres, gens, gs, ws2),
{
    let (i, k) = choose|i: int, k: nat|
        {
            &&& 0 <= i <= ws.len()
            &&& k < pres.ro()[rem[0].gen_index as int]
            &&& ((k * rem[0].exponent) as int) % (pres.ro()[rem[0].gen_index as int] as int) == 1
            &&& forall|j: int| 0 <= j < i ==> #[trigger] ws[j][0].gen_index < rem[0].gen_index
            &&& forall|j: int| i <= j < ws.len() ==> #[trigger] ws[j][0].gen_index > rem[0].gen_index
            &&& ws2 == ws.insert(i, power_terms(pres, rem, k))
        };
    lemma_span_power(pres, gens, gs, rem, k);
    assert forall|a: int| 0 <= a < ws2.len() implies #[trigger] in_span(pres, gens, gs, ws2[a]) by {
        if a < i {
            assert(ws2[a] == ws[a]);
        } else if a > i {
            assert(ws2[a] == ws[a - 1]);
        }
    }
}

/// Inserting a word of the span into a sequence of words of the span, as
/// [`crate::generating_sequence::GeneratingSequence::insert`] does, keeps every word in the span.
pub proof fn lemma_span_insert(
    pres: Presentation,
    gens: Set<Seq<Term>>,
    gs: Seq<Seq<Term>>,
    ws: Seq<Seq<Term>>,
    x: Seq<Term>,
    ws2: Seq<Seq<Term>>,
    grew: bool,
)
    requires
        all_in_span(pres, gens, gs, ws),
        in_span(pres, gens, gs, x),
        grew ==> inserted(pres, ws, sift_terms(pres, ws, x), ws2),
        !grew ==> ws2 == ws,
    ensures
        all_in_span(pres, gens, gs, ws2),
{
    if grew {
        lemma_span_sift(pres, gens, gs, ws, x);
        lemma_span_inserted(pres, gens, gs, ws, sift_terms(pres, ws, x), ws2);
    }
}

/// Reducing one word by another keeps every word in the span.
proof fn lemma_span_reduce_pair(pres: Presentation, gens: Set<Seq<Term>>, gs: Seq<Seq<Term>>, ws: Seq<Seq<Term>>, i: nat, j: nat)
    requires
        all_in_span(pres, gens, gs, ws),
        i < ws.len(),
        j < ws.len(),
    ensures
        all_in_span(pres, gens, gs, reduce_pair(pres, ws, i, j)),
{
    match find_exp(ws[i as int], ws[j as int][0].gen_index as nat) {
        Some(e) => {
            let h = ws[j as int];
            assert(in_span(pres, gens, gs, h));
            assert(in_span(pres, gens, gs, ws[i as int]));
            lemma_span_inv(pres, gens, gs, h);
            lemma_span_power(pres, gens, gs, inverse_terms(pres, h), e as nat);
            lemma_span_mul(pres, gens, gs, ws[i as int], power_terms(pres, inverse_terms(pres, h), e as nat));
            let ws2 = reduce_pair(pres, ws, i, j);
            assert forall|a: int| 0 <= a < ws2.len() implies #[trigger] in_span(pres, gens, gs, ws2[a]) by {
                if a != i {
                    assert(ws2[a] == ws[a]);
                }
            }
        },
        None => {},
    }
}

proof fn lemma_span_reduce_row(pres: Presentation, gens: Set<Seq<Term>>, gs: Seq<Seq<Term>>, ws: Seq<Seq<Term>>, i: nat, j: nat, n: nat)
    requires
        all_in_span(pres, gens, gs, ws),
        i < ws.len(),
        n <= ws.len(),
    ensures
        all_in_span(pres, gens, gs, reduce_row(pres, ws, i, j, n)),
        reduce_row(pres, ws, i, j, n).len() == ws.len(),
    decreases n - j,
{
    if j < n {
        lemma_span_reduce_pair(pres, gens, gs, ws, i, j);
        lemma_reduce_pair_len(pres, ws, i, j);
        lemma_span_reduce_row(pres, gens, gs, reduce_pair(pres, ws, i, j), i, j + 1, n);
    }
}

proof fn lemma_reduce_pair_len(pres: Presentation, ws: Seq<Seq<Term>>, i: nat, j: nat)
    requires
        i < ws.len(),
    ensures
        reduce_pair(pres, ws, i, j).len() == ws.len(),
{
}

/// Reducing every word by the later ones keeps every word in the span.
pub proof fn lemma_span_reduce_all(pres: Presentation, gens: Set<Seq<Term>>, gs: Seq<Seq<Term>>, ws: Seq<Seq<Term>>, i: nat, n: nat)
    requires
        all_in_span(pres, gens, gs, ws),
        n <= ws.len(),
    ensures
        all_in_span(pres, gens, gs, reduce_all(pres, ws, i, n)),
    decreases n - i,
{
    if i < n {
        lemma_span_reduce_row(pres, gens, gs, ws, i, i + 1, n);
        lemma_span_reduce_all(pres, gens, gs, reduce_row(pres, ws, i, i + 1, n), i + 1, n);
    }
}

/// When every generator of `g1` lies in the span of `g2`, so does every word derived from `g1`.
pub proof fn lemma_span_sub_derivation(pres: Presentation, g1: Set<Seq<Term>>, g2: Set<Seq<Term>>, gs: Seq<Seq<Term>>, t: Derivation)
    requires
        forall|x: Seq<Term>| #[trigger] g1.contains(x) ==> in_span(pres, g2, gs, x),
        derivation_ok(g1, gs, t),
    ensures
        in_span(pres, g2, gs, derived(pres, gs, t)),
    decreases t,
{
    match t {
        Derivation::Base(w) => {
            if w.len() == 0 {
                lemma_span_base(pres, g2, gs, w);
            }
        },
        Derivation::Mul(a, b) => {
            lemma_span_sub_derivation(pres, g1, g2, gs, *a);
            lemma_span_sub_derivation(pres, g1, g2, gs, *b);
            lemma_span_mul(pres, g2, gs, derived(pres, gs, *a), derived(pres, gs, *b));
        },
        Derivation::Inv(a) => {
            lemma_span_sub_derivation(pres, g1, g2, gs, *a);
            lemma_span_inv(pres, g2, gs, derived(pres, gs, *a));
        },
        Derivation::Conj(a, i) => {
            lemma_span_sub_derivation(pres, g1, g2, gs, *a);
            lemma_span_conj(pres, g2, gs, derived(pres, gs, *a), i);
        },
    }
}

/// When every generator of `g1` lies in the span of `g2`, so does the whole span of `g1`.
pub proof fn lemma_span_sub(pres: Presentation, g1: Set<Seq<Term>>, g2: Set<Seq<Term>>, gs: Seq<Seq<Term>>, w: Seq<Term>)
    requires
        forall|x: Seq<Term>| #[trigger] g1.contains(x) ==> in_span(pres, g2, gs, x),
        in_span(pres, g1, gs, w),
    ensures
        in_span(pres, g2, gs, w),
{
    let t = choose|t: Derivation| #[trigger] derivation_ok(g1, gs, t) && derived(pres, gs, t) == w;
    lemma_span_sub_derivation(pres, g1, g2, gs, t);
}

} // verus!
